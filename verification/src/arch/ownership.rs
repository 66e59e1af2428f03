//! Scope ownership: members that exist and share the scope's leading axes, parents that
//! form no cycle and whose axes lead their descendants' axes, and one owning scope per
//! member.
use vstd::prelude::*;

use super::architecture::{ArchErrorModel, ArchitectureError};
use super::axis::Axis;
use super::checks::{
    axis_index, axis_named, distinct_names, domain_is_prefix, find_axis, first_dup, is_prefix_domain,
    lemma_first_dup_distinct, validate_unique,
};
use super::memory::MemoryArray;
use super::network::NetworkTopology;
use super::processor::ProcessorArray;
use super::resolve::{first_index, lemma_first_index, lemma_first_index_is_first};
use super::resource::Resource;
use super::scope::Scope;
use crate::text::{str_texts, texts};

verus! {

// ---------------------------------------------------------------------------
// Membership

/// A thing a scope may own: its name and its domain.
pub type Candidate = (Seq<char>, Seq<Axis>);

/// Whether a candidate is named `n`.
pub open spec fn candidate_named(n: Seq<char>) -> spec_fn(Candidate) -> bool {
    |c: Candidate| c.0 == n
}

/// The names and domains of a list of candidates.
pub open spec fn cand_models(cands: Seq<(&str, &[Axis])>) -> Seq<Candidate> {
    cands.map_values(|c: (&str, &[Axis])| (c.0@, c.1@))
}

/// Every member names a candidate (the first of its name) whose domain starts with `dims`.
pub open spec fn members_in(members: Seq<String>, cands: Seq<Candidate>, dims: Seq<Axis>) -> bool {
    forall|k: int| 0 <= k < members.len() ==> {
        let c = first_index(cands, candidate_named((#[trigger] members[k])@));
        c >= 0 && is_prefix_domain(dims, cands[c].1)
    }
}

/// A member that names no candidate, or one whose domain does not start with `dims`.
pub open spec fn member_bad(cands: Seq<Candidate>, dims: Seq<Axis>) -> spec_fn(String) -> bool {
    |m: String| {
        let c = first_index(cands, candidate_named(m@));
        !(c >= 0 && is_prefix_domain(dims, cands[c].1))
    }
}

/// The error for the first member of a scope that is unknown or whose domain does not
/// start with the scope's axes.
pub open spec fn membership_error(scope: Seq<char>, dims: Seq<Axis>, members: Seq<String>, cands: Seq<Candidate>, kind: Seq<char>) -> Option<ArchErrorModel> {
    let k = first_index(members, member_bad(cands, dims));
    if k < 0 {
        None
    } else if first_index(cands, candidate_named(members[k]@)) < 0 {
        Some(ArchErrorModel::UnknownReference("scope '"@ + scope + "'"@, kind, members[k]@))
    } else {
        Some(ArchErrorModel::Invalid("scope '"@ + scope + "' domain is not a prefix of "@ + kind + " '"@ + members[k]@ + "' domain"@))
    }
}

fn find_candidate(cands: &Vec<(&str, &[Axis])>, name: &str) -> (r: Option<usize>)
    ensures
        match r {
            Some(i) => i as int == first_index(cand_models(cands@), candidate_named(name@)),
            None => first_index(cand_models(cands@), candidate_named(name@)) == -1,
        },
{
    let ghost cm = cand_models(cands@);
    let ghost p = candidate_named(name@);
    let mut i: usize = 0;
    while i < cands.len()
        invariant
            i <= cands@.len() == cm.len(),
            cm == cand_models(cands@),
            p == candidate_named(name@),
            forall|j: int| 0 <= j < i ==> !p(#[trigger] cm[j]),
        decreases cands.len() - i,
    {
        proof { assert(cm[i as int] == (cands@[i as int].0@, cands@[i as int].1@)); }
        if crate::text::str_eq(cands[i].0, name) {
            proof { lemma_first_index(cm, p, i as int); }
            return Some(i);
        }
        i += 1;
    }
    proof { lemma_first_index(cm, p, i as int); }
    None
}

/// Checks that every member of a scope is a known `kind` whose domain starts with the
/// scope's axes.
pub fn validate_membership(
    scope: &str,
    dims: &[Axis],
    members: &Vec<String>,
    cands: &Vec<(&str, &[Axis])>,
    kind: &str,
) -> (r: Result<(), ArchitectureError>)
    ensures
        r is Ok <==> members_in(members@, cand_models(cands@), dims@),
        match r {
            Ok(()) => membership_error(scope@, dims@, members@, cand_models(cands@), kind@) is None,
            Err(e) => membership_error(scope@, dims@, members@, cand_models(cands@), kind@) == Some(e@),
        },
{
    let ghost cm = cand_models(cands@);
    let ghost bad = member_bad(cm, dims@);
    let mut k: usize = 0;
    while k < members.len()
        invariant
            k <= members@.len(),
            cm == cand_models(cands@),
            bad == member_bad(cm, dims@),
            forall|j: int| 0 <= j < k ==> !bad(#[trigger] members@[j]),
            forall|j: int| 0 <= j < k ==> {
                let c = first_index(cm, candidate_named((#[trigger] members@[j])@));
                c >= 0 && is_prefix_domain(dims@, cm[c].1)
            },
        decreases members.len() - k,
    {
        proof { lemma_first_index_is_first(cm, candidate_named(members@[k as int]@)); }
        match find_candidate(cands, members[k].as_str()) {
            None => {
                let mut owner = crate::text::owned("scope '");
                crate::text::push_str(&mut owner, scope);
                crate::text::push_str(&mut owner, "'");
                proof { lemma_first_index(members@, bad, k as int); }
                return Err(ArchitectureError::UnknownReference {
                    owner,
                    kind: crate::text::owned(kind),
                    name: members[k].clone(),
                });
            },
            Some(c) => {
                proof { assert(cm[c as int] == (cands@[c as int].0@, cands@[c as int].1@)); }
                if !domain_is_prefix(dims, cands[c].1) {
                    proof { lemma_first_index(members@, bad, k as int); }
                    let mut m = crate::text::owned("scope '");
                    crate::text::push_str(&mut m, scope);
                    crate::text::push_str(&mut m, "' domain is not a prefix of ");
                    crate::text::push_str(&mut m, kind);
                    crate::text::push_str(&mut m, " '");
                    crate::text::push_str(&mut m, members[k].as_str());
                    crate::text::push_str(&mut m, "' domain");
                    proof {
                        assert(m@ =~= "scope '"@ + scope@ + "' domain is not a prefix of "@ + kind@ + " '"@ + members@[k as int]@ + "' domain"@);
                    }
                    return Err(ArchitectureError::Invalid(m));
                }
            },
        }
        k += 1;
    }
    proof { lemma_first_index(members@, bad, k as int); }
    Ok(())
}

// ---------------------------------------------------------------------------
// Single owners

/// One of the member lists of a scope: 0 memories, 1 processors, 2 networks, else
/// resources.
pub open spec fn members(s: Scope, which: int) -> Seq<String> {
    if which == 0 {
        s.memories@
    } else if which == 1 {
        s.processors@
    } else if which == 2 {
        s.networks@
    } else {
        s.resources@
    }
}

fn members_of(s: &Scope, which: usize) -> (r: &Vec<String>)
    ensures
        r@ == members(*s, which as int),
{
    if which == 0 {
        &s.memories
    } else if which == 1 {
        &s.processors
    } else if which == 2 {
        &s.networks
    } else {
        &s.resources
    }
}

/// The members of one list of every scope, scope after scope.
pub open spec fn all_members(scopes: Seq<Scope>, which: int) -> Seq<Seq<char>>
    decreases scopes.len(),
{
    if scopes.len() == 0 {
        Seq::empty()
    } else {
        all_members(scopes.drop_last(), which) + texts(members(scopes.last(), which))
    }
}

/// The owning scope of each entry of `all_members`.
pub open spec fn all_owners(scopes: Seq<Scope>, which: int) -> Seq<Seq<char>>
    decreases scopes.len(),
{
    if scopes.len() == 0 {
        Seq::empty()
    } else {
        all_owners(scopes.drop_last(), which) + Seq::new(members(scopes.last(), which).len(), |_k: int| scopes.last().name@)
    }
}

pub proof fn lemma_all_owners_len(scopes: Seq<Scope>, which: int)
    ensures
        all_owners(scopes, which).len() == all_members(scopes, which).len(),
    decreases scopes.len(),
{
    if scopes.len() > 0 {
        lemma_all_owners_len(scopes.drop_last(), which);
    }
}

/// The position of the first name that repeats an earlier one, or -1.
pub open spec fn repeat_at(s: Seq<Seq<char>>) -> int
    decreases s.len(),
{
    if s.len() == 0 {
        -1
    } else {
        let j = repeat_at(s.drop_last());
        if j >= 0 {
            j
        } else if s.drop_last().contains(s.last()) {
            s.len() - 1
        } else {
            -1
        }
    }
}

pub proof fn lemma_repeat_at(s: Seq<Seq<char>>, j: int)
    requires
        0 <= j <= s.len(),
        forall|x: int, y: int| 0 <= x < y < j ==> s[x] != s[y],
    ensures
        j == s.len() ==> repeat_at(s) == -1,
        j < s.len() && s.take(j).contains(s[j]) ==> repeat_at(s) == j,
    decreases s.len(),
{
    if s.len() > 0 {
        let d = s.drop_last();
        if j == s.len() {
            lemma_repeat_at(d, j - 1);
            if d.contains(s.last()) {
                let x = choose|x: int| 0 <= x < d.len() && d[x] == s.last();
                assert(s[x] == s[j - 1]);
            }
        } else if j == s.len() - 1 {
            lemma_repeat_at(d, j);
            assert(d =~= s.take(j));
        } else {
            lemma_repeat_at(d, j);
            assert(d.take(j) =~= s.take(j));
        }
    }
}

/// Whether a name equals `n`.
pub open spec fn text_is(n: Seq<char>) -> spec_fn(Seq<char>) -> bool {
    |x: Seq<char>| x == n
}

/// The error for the first member of the chosen list that a second scope owns too.
pub open spec fn single_owner_error(scopes: Seq<Scope>, which: int, kind: Seq<char>) -> Option<ArchErrorModel> {
    let s = all_members(scopes, which);
    let o = all_owners(scopes, which);
    let j = repeat_at(s);
    if j < 0 {
        None
    } else {
        let k = first_index(s, text_is(s[j]));
        Some(ArchErrorModel::Invalid(kind + " '"@ + s[j] + "' is owned by both scope '"@ + o[k] + "' and '"@ + o[j] + "'"@))
    }
}

/// Checks that no member of the chosen list belongs to two scopes.
pub fn validate_single_owner(scopes: &[Scope], which: usize, kind: &str) -> (r: Result<(), ArchitectureError>)
    ensures
        r is Ok <==> distinct_names(all_members(scopes@, which as int)),
        match r {
            Ok(()) => single_owner_error(scopes@, which as int, kind@) is None,
            Err(e) => single_owner_error(scopes@, which as int, kind@) == Some(e@),
        },
{
    let mut flat: Vec<&str> = Vec::new();
    let mut owners: Vec<&str> = Vec::new();
    let mut a: usize = 0;
    proof {
        assert(str_texts(flat@) =~= all_members(scopes@.take(0), which as int));
        assert(str_texts(owners@) =~= all_owners(scopes@.take(0), which as int));
    }
    while a < scopes.len()
        invariant
            a <= scopes@.len(),
            str_texts(flat@) == all_members(scopes@.take(a as int), which as int),
            str_texts(owners@) == all_owners(scopes@.take(a as int), which as int),
            owners@.len() == flat@.len(),
        decreases scopes.len() - a,
    {
        let ms = members_of(&scopes[a], which);
        let mut b: usize = 0;
        proof { assert(texts(ms@).take(0) =~= Seq::<Seq<char>>::empty()); }
        while b < ms.len()
            invariant
                b <= ms@.len(),
                a < scopes@.len(),
                ms@ == members(scopes@[a as int], which as int),
                str_texts(flat@) == all_members(scopes@.take(a as int), which as int) + texts(ms@).take(b as int),
                str_texts(owners@) == all_owners(scopes@.take(a as int), which as int)
                    + Seq::new(b as nat, |_k: int| scopes@[a as int].name@),
                owners@.len() == flat@.len(),
            decreases ms.len() - b,
        {
            let ghost before = str_texts(flat@);
            let ghost obefore = str_texts(owners@);
            flat.push(ms[b].as_str());
            owners.push(scopes[a].name.as_str());
            proof {
                assert(str_texts(owners@) =~= obefore.push(scopes@[a as int].name@));
                assert(str_texts(owners@) =~= all_owners(scopes@.take(a as int), which as int)
                    + Seq::new((b + 1) as nat, |_k: int| scopes@[a as int].name@));
                assert(str_texts(flat@) =~= before.push(ms@[b as int]@));
                assert(texts(ms@).take(b + 1) =~= texts(ms@).take(b as int).push(ms@[b as int]@));
                assert(str_texts(flat@) =~= all_members(scopes@.take(a as int), which as int) + texts(ms@).take(b + 1));
            }
            b += 1;
        }
        proof {
            assert(texts(ms@).take(ms@.len() as int) =~= texts(ms@));
            assert(scopes@.take(a + 1).drop_last() =~= scopes@.take(a as int));
            assert(scopes@.take(a + 1).last() == scopes@[a as int]);
            assert(all_owners(scopes@.take(a + 1), which as int) =~= all_owners(scopes@.take(a as int), which as int)
                + Seq::new(ms@.len() as nat, |_k: int| scopes@[a as int].name@));
        }
        a += 1;
    }
    proof { assert(scopes@.take(scopes@.len() as int) =~= scopes@); }
    let ghost s = str_texts(flat@);
    let ghost o = str_texts(owners@);
    let mut j: usize = 0;
    while j < flat.len()
        invariant
            j <= flat@.len() == owners@.len(),
            s == str_texts(flat@),
            s == all_members(scopes@, which as int),
            o == str_texts(owners@),
            o == all_owners(scopes@, which as int),
            forall|x: int, y: int| 0 <= x < y < j ==> s[x] != s[y],
        decreases flat.len() - j,
    {
        let mut k: usize = 0;
        while k < j
            invariant
                k <= j < flat@.len() == owners@.len(),
                s == str_texts(flat@),
                s == all_members(scopes@, which as int),
                o == str_texts(owners@),
                o == all_owners(scopes@, which as int),
                forall|x: int, y: int| 0 <= x < y < j ==> s[x] != s[y],
                forall|x: int| 0 <= x < k ==> s[x] != s[j as int],
            decreases j - k,
        {
            if crate::text::str_eq(flat[k], flat[j]) {
                proof {
                    assert(s[k as int] == s[j as int]);
                    assert(s.take(j as int)[k as int] == s[j as int]);
                    lemma_repeat_at(s, j as int);
                    assert forall|x: int| 0 <= x < k implies !text_is(s[j as int])(#[trigger] s[x]) by {}
                    lemma_first_index(s, text_is(s[j as int]), k as int);
                }
                let mut m = crate::text::owned(kind);
                crate::text::push_str(&mut m, " '");
                crate::text::push_str(&mut m, flat[j]);
                crate::text::push_str(&mut m, "' is owned by both scope '");
                crate::text::push_str(&mut m, owners[k]);
                crate::text::push_str(&mut m, "' and '");
                crate::text::push_str(&mut m, owners[j]);
                crate::text::push_str(&mut m, "'");
                proof {
                    assert(o[k as int] == owners@[k as int]@ && o[j as int] == owners@[j as int]@);
                    assert(m@ =~= kind@ + " '"@ + s[j as int] + "' is owned by both scope '"@ + o[k as int] + "' and '"@ + o[j as int] + "'"@);
                }
                return Err(ArchitectureError::Invalid(m));
            }
            k += 1;
        }
        j += 1;
    }
    proof { lemma_repeat_at(s, s.len() as int); }
    Ok(())
}

// ---------------------------------------------------------------------------
// Scopes

/// The names of a list of scopes.
pub open spec fn scope_names(scopes: Seq<Scope>) -> Seq<Seq<char>> {
    scopes.map_values(|s: Scope| s.name@)
}

/// Whether a scope is named `n`.
pub open spec fn scope_named(n: Seq<char>) -> spec_fn(Scope) -> bool {
    |s: Scope| s.name@ == n
}

/// Index of the first scope named `n`, or -1.
pub open spec fn scope_index(scopes: Seq<Scope>, n: Seq<char>) -> int {
    first_index(scopes, scope_named(n))
}

/// A parent, if any, is another scope of the list.
pub open spec fn parent_ok(s: Scope, scopes: Seq<Scope>) -> bool {
    s.parent matches Some(p) ==> p@ != s.name@ && scope_names(scopes).contains(p@)
}

/// The architecture axes of a scope, in its order.
pub open spec fn scope_domain(s: Scope, dims: Seq<Axis>) -> Seq<Axis> {
    s.axes@.map_values(|n: String| dims[axis_index(dims, n@)])
}

/// The candidates of each member kind: memories, processors, networks, resources.
pub open spec fn memory_cands(m: Seq<MemoryArray>) -> Seq<Candidate> {
    m.map_values(|x: MemoryArray| (x.name@, x.axes@))
}

pub open spec fn processor_cands(p: Seq<ProcessorArray>) -> Seq<Candidate> {
    p.map_values(|x: ProcessorArray| (x.name@, x.axes@))
}

pub open spec fn network_cands(n: Seq<NetworkTopology>) -> Seq<Candidate> {
    n.map_values(|x: NetworkTopology| (x.name@, x.dimensions@))
}

pub open spec fn resource_cands(r: Seq<Resource>) -> Seq<Candidate> {
    r.map_values(|x: Resource| (x.name@, x.indices@))
}

/// A scope's own lists: distinct known axes, distinct members of each kind, and members
/// whose domains start with the scope's axes.
pub open spec fn scope_contents_ok(
    s: Scope,
    dims: Seq<Axis>,
    mems: Seq<MemoryArray>,
    procs: Seq<ProcessorArray>,
    nets: Seq<NetworkTopology>,
    ress: Seq<Resource>,
) -> bool {
    &&& distinct_names(texts(s.axes@))
    &&& forall|k: int| 0 <= k < s.axes@.len() ==> axis_index(dims, #[trigger] s.axes@[k]@) >= 0
    &&& distinct_names(texts(s.memories@))
    &&& distinct_names(texts(s.processors@))
    &&& distinct_names(texts(s.networks@))
    &&& distinct_names(texts(s.resources@))
    &&& members_in(s.memories@, memory_cands(mems), scope_domain(s, dims))
    &&& members_in(s.processors@, processor_cands(procs), scope_domain(s, dims))
    &&& members_in(s.networks@, network_cands(nets), scope_domain(s, dims))
    &&& members_in(s.resources@, resource_cands(ress), scope_domain(s, dims))
}

/// Walking up from `cur` (at most `fuel` steps), no parent repeats one already passed and
/// every ancestor's axes lead the axes of `child`.
pub open spec fn walk_ok(scopes: Seq<Scope>, dims: Seq<Axis>, child: Scope, cur: Scope, seen: Seq<Seq<char>>, fuel: nat) -> bool
    decreases fuel,
{
    if fuel == 0 {
        true
    } else {
        match cur.parent {
            None => true,
            Some(p) => {
                let ps = scopes[scope_index(scopes, p@)];
                &&& !seen.contains(p@)
                &&& is_prefix_domain(scope_domain(ps, dims), scope_domain(child, dims))
                &&& walk_ok(scopes, dims, child, ps, seen.push(p@), (fuel - 1) as nat)
            },
        }
    }
}

/// Walking up from `cur` (at most `fuel` steps): the error for the first parent that
/// repeats one already passed, or whose axes do not lead the axes of `child`.
pub open spec fn walk_error(scopes: Seq<Scope>, dims: Seq<Axis>, child: Scope, cur: Scope, seen: Seq<Seq<char>>, fuel: nat) -> Option<ArchErrorModel>
    decreases fuel,
{
    if fuel == 0 {
        None
    } else {
        match cur.parent {
            None => None,
            Some(p) => {
                let ps = scopes[scope_index(scopes, p@)];
                if seen.contains(p@) {
                    Some(ArchErrorModel::Invalid("scope hierarchy contains a cycle through '"@ + p@ + "'"@))
                } else if !is_prefix_domain(scope_domain(ps, dims), scope_domain(child, dims)) {
                    Some(ArchErrorModel::Invalid("parent scope '"@ + ps.name@ + "' dimensions are not a prefix of child scope '"@
                        + child.name@ + "'"@))
                } else {
                    walk_error(scopes, dims, child, ps, seen.push(p@), (fuel - 1) as nat)
                }
            },
        }
    }
}

/// The error of the walk above a scope, if it meets one.
pub open spec fn ancestors_error(scopes: Seq<Scope>, dims: Seq<Axis>, s: Scope) -> Option<ArchErrorModel> {
    walk_error(scopes, dims, s, s, Seq::empty(), (scopes.len() + 1) as nat)
}

/// The hierarchy above a scope ends at a root without repeating a scope (a walk of one
/// more step than there are scopes meets a root or a repeat), and every ancestor's axes
/// lead the scope's axes.
pub open spec fn ancestors_ok(scopes: Seq<Scope>, dims: Seq<Axis>, s: Scope) -> bool {
    walk_ok(scopes, dims, s, s, Seq::empty(), (scopes.len() + 1) as nat)
}

/// What `validate_scopes` accepts.
pub open spec fn scopes_ok(
    scopes: Seq<Scope>,
    dims: Seq<Axis>,
    mems: Seq<MemoryArray>,
    procs: Seq<ProcessorArray>,
    nets: Seq<NetworkTopology>,
    ress: Seq<Resource>,
) -> bool {
    &&& distinct_names(scope_names(scopes))
    &&& forall|i: int| 0 <= i < scopes.len() ==> parent_ok(#[trigger] scopes[i], scopes)
    &&& forall|i: int| 0 <= i < scopes.len() ==> scope_contents_ok(#[trigger] scopes[i], dims, mems, procs, nets, ress)
    &&& forall|i: int| 0 <= i < scopes.len() ==> ancestors_ok(scopes, dims, #[trigger] scopes[i])
    &&& distinct_names(all_members(scopes, 0))
    &&& distinct_names(all_members(scopes, 1))
    &&& distinct_names(all_members(scopes, 2))
    &&& distinct_names(all_members(scopes, 3))
}

fn find_scope(scopes: &[Scope], name: &str) -> (r: Option<usize>)
    ensures
        match r {
            Some(i) => i as int == scope_index(scopes@, name@),
            None => scope_index(scopes@, name@) == -1,
        },
{
    let ghost p = scope_named(name@);
    let mut i: usize = 0;
    while i < scopes.len()
        invariant
            i <= scopes@.len(),
            p == scope_named(name@),
            forall|j: int| 0 <= j < i ==> !p(#[trigger] scopes@[j]),
        decreases scopes.len() - i,
    {
        if crate::text::str_eq(scopes[i].name.as_str(), name) {
            proof { lemma_first_index(scopes@, p, i as int); }
            return Some(i);
        }
        i += 1;
    }
    proof { lemma_first_index(scopes@, p, i as int); }
    None
}

fn name_list(v: &Vec<String>) -> (r: Vec<&str>)
    ensures
        str_texts(r@) == texts(v@),
{
    let mut out: Vec<&str> = Vec::new();
    let mut i: usize = 0;
    while i < v.len()
        invariant
            i <= v@.len(),
            out@.len() == i,
            forall|k: int| 0 <= k < i ==> (#[trigger] out@[k])@ == v@[k]@,
        decreases v.len() - i,
    {
        out.push(v[i].as_str());
        i += 1;
    }
    proof { assert(str_texts(out@) =~= texts(v@)); }
    out
}

/// The error for the first name that repeats an earlier one.
pub open spec fn dup_error(names: Seq<Seq<char>>, kind: Seq<char>) -> Option<ArchErrorModel> {
    match first_dup(names) {
        Some(n) => Some(ArchErrorModel::DuplicateName(kind, n)),
        None => None,
    }
}

fn unique_list(v: &Vec<String>, kind: &str) -> (r: Result<(), ArchitectureError>)
    ensures
        r is Ok <==> distinct_names(texts(v@)),
        match r {
            Ok(()) => dup_error(texts(v@), kind@) is None,
            Err(e) => dup_error(texts(v@), kind@) == Some(e@),
        },
{
    let names = name_list(v);
    proof { lemma_first_dup_distinct(texts(v@)); }
    validate_unique(&names, kind)
}

/// An axis name that the architecture lacks.
pub open spec fn axis_unknown(dims: Seq<Axis>) -> spec_fn(String) -> bool {
    |n: String| axis_index(dims, n@) < 0
}

/// The error for the first axis of a scope that the architecture lacks.
pub open spec fn axes_error(s: Scope, dims: Seq<Axis>) -> Option<ArchErrorModel> {
    let k = first_index(s.axes@, axis_unknown(dims));
    if k < 0 {
        None
    } else {
        Some(ArchErrorModel::Invalid("scope '"@ + s.name@ + "' uses unknown dimension '"@ + s.axes@[k]@ + "'"@))
    }
}

/// The architecture axes that a scope names.
fn scope_axes(scope: &Scope, dims: &[Axis]) -> (r: Result<Vec<Axis>, ArchitectureError>)
    ensures
        match r {
            Ok(v) => (forall|k: int| 0 <= k < scope.axes@.len() ==> axis_index(dims@, #[trigger] scope.axes@[k]@) >= 0)
                && v@ == scope_domain(*scope, dims@),
            Err(_) => !(forall|k: int| 0 <= k < scope.axes@.len() ==> axis_index(dims@, #[trigger] scope.axes@[k]@) >= 0),
        },
        match r {
            Ok(_) => axes_error(*scope, dims@) is None,
            Err(e) => axes_error(*scope, dims@) == Some(e@),
        },
{
    let ghost bad = axis_unknown(dims@);
    let mut out: Vec<Axis> = Vec::new();
    let mut k: usize = 0;
    while k < scope.axes.len()
        invariant
            k <= scope.axes@.len(),
            out@.len() == k,
            forall|a: int| 0 <= a < k ==> axis_index(dims@, #[trigger] scope.axes@[a]@) >= 0,
            forall|a: int| 0 <= a < k ==> #[trigger] out@[a] == dims@[axis_index(dims@, scope.axes@[a]@)],
            bad == axis_unknown(dims@),
        decreases scope.axes.len() - k,
    {
        proof { lemma_first_index_is_first(dims@, axis_named(scope.axes@[k as int]@)); }
        match find_axis(dims, scope.axes[k].as_str()) {
            Some(a) => {
                out.push(dims[a].clone());
            },
            None => {
                let mut m = crate::text::owned("scope '");
                crate::text::push_str(&mut m, scope.name.as_str());
                crate::text::push_str(&mut m, "' uses unknown dimension '");
                crate::text::push_str(&mut m, scope.axes[k].as_str());
                crate::text::push_str(&mut m, "'");
                proof {
                    assert forall|a: int| 0 <= a < k implies !bad(#[trigger] scope.axes@[a]) by {}
                    lemma_first_index(scope.axes@, bad, k as int);
                    assert(m@ =~= "scope '"@ + scope.name@ + "' uses unknown dimension '"@ + scope.axes@[k as int]@ + "'"@);
                }
                return Err(ArchitectureError::Invalid(m));
            },
        }
        k += 1;
    }
    proof {
        assert(out@ =~= scope_domain(*scope, dims@));
        assert forall|a: int| 0 <= a < k implies !bad(#[trigger] scope.axes@[a]) by {}
        lemma_first_index(scope.axes@, bad, k as int);
    }
    Ok(out)
}

fn memory_candidates(v: &[MemoryArray]) -> (r: Vec<(&str, &[Axis])>)
    ensures
        cand_models(r@) == memory_cands(v@),
{
    let mut out: Vec<(&str, &[Axis])> = Vec::new();
    let mut i: usize = 0;
    while i < v.len()
        invariant
            i <= v@.len(),
            out@.len() == i,
            forall|k: int| 0 <= k < i ==> (#[trigger] out@[k]).0@ == v@[k].name@ && out@[k].1@ == v@[k].axes@,
        decreases v.len() - i,
    {
        out.push((v[i].name.as_str(), v[i].axes.as_slice()));
        i += 1;
    }
    proof { assert(cand_models(out@) =~= memory_cands(v@)); }
    out
}

fn processor_candidates(v: &[ProcessorArray]) -> (r: Vec<(&str, &[Axis])>)
    ensures
        cand_models(r@) == processor_cands(v@),
{
    let mut out: Vec<(&str, &[Axis])> = Vec::new();
    let mut i: usize = 0;
    while i < v.len()
        invariant
            i <= v@.len(),
            out@.len() == i,
            forall|k: int| 0 <= k < i ==> (#[trigger] out@[k]).0@ == v@[k].name@ && out@[k].1@ == v@[k].axes@,
        decreases v.len() - i,
    {
        out.push((v[i].name.as_str(), v[i].axes.as_slice()));
        i += 1;
    }
    proof { assert(cand_models(out@) =~= processor_cands(v@)); }
    out
}

fn network_candidates(v: &[NetworkTopology]) -> (r: Vec<(&str, &[Axis])>)
    ensures
        cand_models(r@) == network_cands(v@),
{
    let mut out: Vec<(&str, &[Axis])> = Vec::new();
    let mut i: usize = 0;
    while i < v.len()
        invariant
            i <= v@.len(),
            out@.len() == i,
            forall|k: int| 0 <= k < i ==> (#[trigger] out@[k]).0@ == v@[k].name@ && out@[k].1@ == v@[k].dimensions@,
        decreases v.len() - i,
    {
        out.push((v[i].name.as_str(), v[i].dimensions.as_slice()));
        i += 1;
    }
    proof { assert(cand_models(out@) =~= network_cands(v@)); }
    out
}

fn resource_candidates(v: &[Resource]) -> (r: Vec<(&str, &[Axis])>)
    ensures
        cand_models(r@) == resource_cands(v@),
{
    let mut out: Vec<(&str, &[Axis])> = Vec::new();
    let mut i: usize = 0;
    while i < v.len()
        invariant
            i <= v@.len(),
            out@.len() == i,
            forall|k: int| 0 <= k < i ==> (#[trigger] out@[k]).0@ == v@[k].name@ && out@[k].1@ == v@[k].indices@,
        decreases v.len() - i,
    {
        out.push((v[i].name.as_str(), v[i].indices.as_slice()));
        i += 1;
    }
    proof { assert(cand_models(out@) =~= resource_cands(v@)); }
    out
}

fn contains_str(v: &Vec<&str>, s: &str) -> (r: bool)
    ensures
        r == str_texts(v@).contains(s@),
{
    let mut k: usize = 0;
    while k < v.len()
        invariant
            k <= v@.len(),
            forall|x: int| 0 <= x < k ==> v@[x]@ != s@,
        decreases v.len() - k,
    {
        if crate::text::str_eq(v[k], s) {
            proof { assert(str_texts(v@)[k as int] == s@); }
            return true;
        }
        k += 1;
    }
    proof {
        if str_texts(v@).contains(s@) {
            let x = choose|x: int| 0 <= x < v@.len() && str_texts(v@)[x] == s@;
            assert(v@[x]@ == s@);
        }
    }
    false
}

fn check_ancestors(scopes: &[Scope], doms: &Vec<Vec<Axis>>, i: usize, Ghost(dims): Ghost<Seq<Axis>>) -> (r: Result<(), ArchitectureError>)
    requires
        i < scopes@.len() == doms@.len(),
        forall|k: int| 0 <= k < scopes@.len() ==> parent_ok(#[trigger] scopes@[k], scopes@),
        forall|k: int| 0 <= k < scopes@.len() ==> (#[trigger] doms@[k])@ == scope_domain(scopes@[k], dims),
    ensures
        r is Ok <==> ancestors_ok(scopes@, dims, scopes@[i as int]),
        match r {
            Ok(()) => ancestors_error(scopes@, dims, scopes@[i as int]) is None,
            Err(e) => ancestors_error(scopes@, dims, scopes@[i as int]) == Some(e@),
        },
{
    let ghost child = scopes@[i as int];
    let n = scopes.len();
    let mut ci: usize = i;
    let mut seen: Vec<&str> = Vec::new();
    let mut fuel: usize = n;
    let mut done = false;
    proof { assert(str_texts(seen@) =~= Seq::<Seq<char>>::empty()); }
    // One step is always taken first, so the walk below has `n + 1` steps in all.
    while !done
        invariant
            i < scopes@.len(),
            ci < scopes@.len() == doms@.len(),
            n == scopes@.len(),
            fuel <= n,
            child == scopes@[i as int],
            forall|k: int| 0 <= k < scopes@.len() ==> parent_ok(#[trigger] scopes@[k], scopes@),
            forall|k: int| 0 <= k < scopes@.len() ==> (#[trigger] doms@[k])@ == scope_domain(scopes@[k], dims),
            ancestors_ok(scopes@, dims, child) == (done || walk_ok(scopes@, dims, child, scopes@[ci as int], str_texts(seen@), (fuel + 1) as nat)),
            ancestors_error(scopes@, dims, child) == (if done { None } else {
                walk_error(scopes@, dims, child, scopes@[ci as int], str_texts(seen@), (fuel + 1) as nat) }),
        decreases fuel + (if done { 0int } else { 1int }),
    {
        match &scopes[ci].parent {
            None => {
                done = true;
            },
            Some(p) => {
                if contains_str(&seen, p.as_str()) {
                    let mut m = crate::text::owned("scope hierarchy contains a cycle through '");
                    crate::text::push_str(&mut m, p.as_str());
                    crate::text::push_str(&mut m, "'");
                    proof {
                        assert(m@ =~= "scope hierarchy contains a cycle through '"@ + p@ + "'"@);
                    }
                    return Err(ArchitectureError::Invalid(m));
                }
                proof {
                    assert(parent_ok(scopes@[ci as int], scopes@));
                    let w = choose|w: int| 0 <= w < scope_names(scopes@).len() && scope_names(scopes@)[w] == p@;
                    assert(scope_named(p@)(scopes@[w]));
                    lemma_first_index_is_first(scopes@, scope_named(p@));
                }
                let pi = find_scope(scopes, p.as_str()).unwrap();
                if !domain_is_prefix(doms[pi].as_slice(), doms[i].as_slice()) {
                    let mut m = crate::text::owned("parent scope '");
                    crate::text::push_str(&mut m, scopes[pi].name.as_str());
                    crate::text::push_str(&mut m, "' dimensions are not a prefix of child scope '");
                    crate::text::push_str(&mut m, scopes[i].name.as_str());
                    crate::text::push_str(&mut m, "'");
                    proof {
                        assert(scopes@[pi as int] == scopes@[scope_index(scopes@, p@)]);
                        assert(m@ =~= "parent scope '"@ + scopes@[pi as int].name@ + "' dimensions are not a prefix of child scope '"@
                            + child.name@ + "'"@);
                    }
                    return Err(ArchitectureError::Invalid(m));
                }
                let ghost before = str_texts(seen@);
                proof {
                    assert(!before.contains(p@));
                    assert(scopes@[pi as int] == scopes@[scope_index(scopes@, p@)]);
                    assert(is_prefix_domain(scope_domain(scopes@[pi as int], dims), scope_domain(child, dims)));
                    assert(walk_ok(scopes@, dims, child, scopes@[ci as int], before, (fuel + 1) as nat)
                        == walk_ok(scopes@, dims, child, scopes@[pi as int], before.push(p@), fuel as nat));
                    assert(walk_error(scopes@, dims, child, scopes@[ci as int], before, (fuel + 1) as nat)
                        == walk_error(scopes@, dims, child, scopes@[pi as int], before.push(p@), fuel as nat));
                }
                seen.push(p.as_str());
                proof { assert(str_texts(seen@) =~= before.push(p@)); }
                ci = pi;
                if fuel == 0 {
                    done = true;
                } else {
                    fuel -= 1;
                }
            },
        }
    }
    Ok(())
}

/// The first of two possible errors.
pub open spec fn or_else(a: Option<ArchErrorModel>, b: Option<ArchErrorModel>) -> Option<ArchErrorModel> {
    if a is Some { a } else { b }
}

/// The first error among one scope's own lists: repeated axes, unknown axes, repeated
/// members of each kind, then members of each kind that are unknown or do not share the
/// scope's leading axes.
pub open spec fn contents_error(
    s: Scope,
    dims: Seq<Axis>,
    mems: Seq<MemoryArray>,
    procs: Seq<ProcessorArray>,
    nets: Seq<NetworkTopology>,
    ress: Seq<Resource>,
) -> Option<ArchErrorModel> {
    let dom = scope_domain(s, dims);
    or_else(dup_error(texts(s.axes@), "scope axis"@),
    or_else(axes_error(s, dims),
    or_else(dup_error(texts(s.memories@), "scope memory"@),
    or_else(dup_error(texts(s.processors@), "scope processor"@),
    or_else(dup_error(texts(s.networks@), "scope network"@),
    or_else(dup_error(texts(s.resources@), "scope resource"@),
    or_else(membership_error(s.name@, dom, s.memories@, memory_cands(mems), "memory"@),
    or_else(membership_error(s.name@, dom, s.processors@, processor_cands(procs), "processor"@),
    or_else(membership_error(s.name@, dom, s.networks@, network_cands(nets), "network"@),
        membership_error(s.name@, dom, s.resources@, resource_cands(ress), "resource"@))))))))))
}

/// A scope whose parent is itself or no scope of the list.
pub open spec fn parent_bad(scopes: Seq<Scope>) -> spec_fn(Scope) -> bool {
    |s: Scope| !parent_ok(s, scopes)
}

/// The error for the first scope with an invalid parent.
pub open spec fn parents_error(scopes: Seq<Scope>) -> Option<ArchErrorModel> {
    let i = first_index(scopes, parent_bad(scopes));
    if i < 0 {
        None
    } else {
        Some(ArchErrorModel::Invalid("scope '"@ + scopes[i].name@ + "' has invalid parent '"@ + scopes[i].parent->0@ + "'"@))
    }
}

pub open spec fn contents_bad(
    dims: Seq<Axis>,
    mems: Seq<MemoryArray>,
    procs: Seq<ProcessorArray>,
    nets: Seq<NetworkTopology>,
    ress: Seq<Resource>,
) -> spec_fn(Scope) -> bool {
    |s: Scope| contents_error(s, dims, mems, procs, nets, ress) is Some
}

/// The error of the first scope whose own lists are wrong.
pub open spec fn all_contents_error(
    scopes: Seq<Scope>,
    dims: Seq<Axis>,
    mems: Seq<MemoryArray>,
    procs: Seq<ProcessorArray>,
    nets: Seq<NetworkTopology>,
    ress: Seq<Resource>,
) -> Option<ArchErrorModel> {
    let i = first_index(scopes, contents_bad(dims, mems, procs, nets, ress));
    if i < 0 { None } else { contents_error(scopes[i], dims, mems, procs, nets, ress) }
}

pub open spec fn ancestors_bad(scopes: Seq<Scope>, dims: Seq<Axis>) -> spec_fn(Scope) -> bool {
    |s: Scope| ancestors_error(scopes, dims, s) is Some
}

/// The error of the first scope whose ancestry is wrong.
pub open spec fn all_ancestors_error(scopes: Seq<Scope>, dims: Seq<Axis>) -> Option<ArchErrorModel> {
    let i = first_index(scopes, ancestors_bad(scopes, dims));
    if i < 0 { None } else { ancestors_error(scopes, dims, scopes[i]) }
}

/// The error `validate_scopes` gives: the first check to fail, in the order repeated
/// scope names, invalid parents, each scope's own lists (scope by scope), each scope's
/// ancestry (scope by scope), then members owned twice (memories, processors, networks,
/// resources).
pub open spec fn scopes_error(
    scopes: Seq<Scope>,
    dims: Seq<Axis>,
    mems: Seq<MemoryArray>,
    procs: Seq<ProcessorArray>,
    nets: Seq<NetworkTopology>,
    ress: Seq<Resource>,
) -> Option<ArchErrorModel> {
    or_else(dup_error(scope_names(scopes), "scope"@),
    or_else(parents_error(scopes),
    or_else(all_contents_error(scopes, dims, mems, procs, nets, ress),
    or_else(all_ancestors_error(scopes, dims),
    or_else(single_owner_error(scopes, 0, "memory"@),
    or_else(single_owner_error(scopes, 1, "processor"@),
    or_else(single_owner_error(scopes, 2, "network"@),
        single_owner_error(scopes, 3, "resource"@))))))))
}

/// One scope's own lists checked; its architecture axes on success.
fn scope_contents(
    scope: &Scope,
    dims: &[Axis],
    mc: &Vec<(&str, &[Axis])>,
    pc: &Vec<(&str, &[Axis])>,
    nc: &Vec<(&str, &[Axis])>,
    rc: &Vec<(&str, &[Axis])>,
    Ghost(mems): Ghost<Seq<MemoryArray>>,
    Ghost(procs): Ghost<Seq<ProcessorArray>>,
    Ghost(nets): Ghost<Seq<NetworkTopology>>,
    Ghost(ress): Ghost<Seq<Resource>>,
) -> (r: Result<Vec<Axis>, ArchitectureError>)
    requires
        cand_models(mc@) == memory_cands(mems),
        cand_models(pc@) == processor_cands(procs),
        cand_models(nc@) == network_cands(nets),
        cand_models(rc@) == resource_cands(ress),
    ensures
        match r {
            Ok(dom) => dom@ == scope_domain(*scope, dims@) && scope_contents_ok(*scope, dims@, mems, procs, nets, ress)
                && contents_error(*scope, dims@, mems, procs, nets, ress) is None,
            Err(e) => !scope_contents_ok(*scope, dims@, mems, procs, nets, ress)
                && contents_error(*scope, dims@, mems, procs, nets, ress) == Some(e@),
        },
{
    unique_list(&scope.axes, "scope axis")?;
    let dom = scope_axes(scope, dims)?;
    unique_list(&scope.memories, "scope memory")?;
    unique_list(&scope.processors, "scope processor")?;
    unique_list(&scope.networks, "scope network")?;
    unique_list(&scope.resources, "scope resource")?;
    validate_membership(scope.name.as_str(), dom.as_slice(), &scope.memories, mc, "memory")?;
    validate_membership(scope.name.as_str(), dom.as_slice(), &scope.processors, pc, "processor")?;
    validate_membership(scope.name.as_str(), dom.as_slice(), &scope.networks, nc, "network")?;
    validate_membership(scope.name.as_str(), dom.as_slice(), &scope.resources, rc, "resource")?;
    Ok(dom)
}

/// Checks scopes: unique names, parents that are other scopes, known distinct axes and
/// distinct members whose domains start with the scope's axes, a hierarchy without cycles
/// whose ancestors' axes lead their descendants' axes, and one owning scope per member.
pub fn validate_scopes(
    scopes: &[Scope],
    dims: &[Axis],
    memories: &[MemoryArray],
    processors: &[ProcessorArray],
    networks: &[NetworkTopology],
    resources: &[Resource],
) -> (r: Result<(), ArchitectureError>)
    ensures
        r is Ok <==> scopes_ok(scopes@, dims@, memories@, processors@, networks@, resources@),
        match r {
            Ok(()) => scopes_error(scopes@, dims@, memories@, processors@, networks@, resources@) is None,
            Err(e) => scopes_error(scopes@, dims@, memories@, processors@, networks@, resources@) == Some(e@),
        },
{
    let ghost sc = scopes@;
    let mut names: Vec<&str> = Vec::new();
    let mut i: usize = 0;
    while i < scopes.len()
        invariant
            i <= scopes@.len(),
            names@.len() == i,
            forall|k: int| 0 <= k < i ==> (#[trigger] names@[k])@ == scopes@[k].name@,
        decreases scopes.len() - i,
    {
        names.push(scopes[i].name.as_str());
        i += 1;
    }
    proof {
        assert(str_texts(names@) =~= scope_names(scopes@));
        lemma_first_dup_distinct(scope_names(scopes@));
    }
    validate_unique(&names, "scope")?;
    let ghost pb = parent_bad(sc);
    let mut i: usize = 0;
    while i < scopes.len()
        invariant
            i <= scopes@.len(),
            sc == scopes@,
            pb == parent_bad(sc),
            dup_error(scope_names(sc), "scope"@) is None,
            forall|k: int| 0 <= k < i ==> parent_ok(#[trigger] scopes@[k], scopes@),
            forall|k: int| 0 <= k < i ==> !pb(#[trigger] scopes@[k]),
        decreases scopes.len() - i,
    {
        if let Some(parent) = &scopes[i].parent {
            let mut found = false;
            let mut k: usize = 0;
            while k < scopes.len()
                invariant
                    k <= scopes@.len(),
                    found ==> scope_names(scopes@).contains(parent@),
                    !found ==> forall|x: int| 0 <= x < k ==> scopes@[x].name@ != parent@,
                decreases scopes.len() - k,
            {
                if !found && crate::text::str_eq(scopes[k].name.as_str(), parent.as_str()) {
                    proof { assert(scope_names(scopes@)[k as int] == parent@); }
                    found = true;
                }
                k += 1;
            }
            if crate::text::str_eq(parent.as_str(), scopes[i].name.as_str()) || !found {
                proof {
                    if !found && scope_names(scopes@).contains(parent@) {
                        let x = choose|x: int| 0 <= x < scope_names(scopes@).len() && scope_names(scopes@)[x] == parent@;
                        assert(scopes@[x].name@ == parent@);
                    }
                    lemma_first_index(sc, pb, i as int);
                }
                let mut m = crate::text::owned("scope '");
                crate::text::push_str(&mut m, scopes[i].name.as_str());
                crate::text::push_str(&mut m, "' has invalid parent '");
                crate::text::push_str(&mut m, parent.as_str());
                crate::text::push_str(&mut m, "'");
                proof {
                    assert(m@ =~= "scope '"@ + sc[i as int].name@ + "' has invalid parent '"@ + sc[i as int].parent->0@ + "'"@);
                }
                return Err(ArchitectureError::Invalid(m));
            }
        }
        i += 1;
    }
    proof { lemma_first_index(sc, pb, sc.len() as int); }
    let mc = memory_candidates(memories);
    let pc = processor_candidates(processors);
    let nc = network_candidates(networks);
    let rc = resource_candidates(resources);
    let ghost cb = contents_bad(dims@, memories@, processors@, networks@, resources@);
    let mut doms: Vec<Vec<Axis>> = Vec::new();
    let mut i: usize = 0;
    while i < scopes.len()
        invariant
            i <= scopes@.len(),
            sc == scopes@,
            doms@.len() == i,
            cb == contents_bad(dims@, memories@, processors@, networks@, resources@),
            dup_error(scope_names(sc), "scope"@) is None,
            parents_error(sc) is None,
            cand_models(mc@) == memory_cands(memories@),
            cand_models(pc@) == processor_cands(processors@),
            cand_models(nc@) == network_cands(networks@),
            cand_models(rc@) == resource_cands(resources@),
            forall|k: int| 0 <= k < i ==> scope_contents_ok(#[trigger] scopes@[k], dims@, memories@, processors@, networks@, resources@),
            forall|k: int| 0 <= k < i ==> !cb(#[trigger] scopes@[k]),
            forall|k: int| 0 <= k < i ==> (#[trigger] doms@[k])@ == scope_domain(scopes@[k], dims@),
        decreases scopes.len() - i,
    {
        match scope_contents(&scopes[i], dims, &mc, &pc, &nc, &rc, Ghost(memories@), Ghost(processors@), Ghost(networks@), Ghost(resources@)) {
            Ok(dom) => {
                doms.push(dom);
            },
            Err(e) => {
                proof { lemma_first_index(sc, cb, i as int); }
                return Err(e);
            },
        }
        i += 1;
    }
    proof { lemma_first_index(sc, cb, sc.len() as int); }
    let ghost ab = ancestors_bad(sc, dims@);
    let mut i: usize = 0;
    while i < scopes.len()
        invariant
            i <= scopes@.len() == doms@.len(),
            sc == scopes@,
            ab == ancestors_bad(sc, dims@),
            dup_error(scope_names(sc), "scope"@) is None,
            parents_error(sc) is None,
            all_contents_error(sc, dims@, memories@, processors@, networks@, resources@) is None,
            forall|k: int| 0 <= k < scopes@.len() ==> parent_ok(#[trigger] scopes@[k], scopes@),
            forall|k: int| 0 <= k < scopes@.len() ==> (#[trigger] doms@[k])@ == scope_domain(scopes@[k], dims@),
            forall|k: int| 0 <= k < i ==> ancestors_ok(scopes@, dims@, #[trigger] scopes@[k]),
            forall|k: int| 0 <= k < i ==> !ab(#[trigger] scopes@[k]),
        decreases scopes.len() - i,
    {
        match check_ancestors(scopes, &doms, i, Ghost(dims@)) {
            Ok(()) => {},
            Err(e) => {
                proof { lemma_first_index(sc, ab, i as int); }
                return Err(e);
            },
        }
        i += 1;
    }
    proof { lemma_first_index(sc, ab, sc.len() as int); }
    validate_single_owner(scopes, 0, "memory")?;
    validate_single_owner(scopes, 1, "processor")?;
    validate_single_owner(scopes, 2, "network")?;
    validate_single_owner(scopes, 3, "resource")?;
    Ok(())
}

} // verus!
