//! Resolving processor connections against placed memories: the memory locations that each
//! point of a processor domain reads and writes.
use vstd::prelude::*;

use super::architecture::ArchitectureError;
use super::axis::{axis_points, extents, grid, Axis};
use super::index::{affine_eval, affine_fits, AffineExpression};
use super::memory::{EndpointIndex, MemoryArray, MemoryDefinition, MemoryEndpoint};
use super::processor::{Connection, ConnectionInstance, ConnectionPort, MemoryLocation, ResolvedEndpointIndex};

verus! {

// ---------------------------------------------------------------------------
// First matches

/// Index of the first item of `s` that satisfies `p`, or -1 when none does.
pub open spec fn first_index<T>(s: Seq<T>, p: spec_fn(T) -> bool) -> int
    decreases s.len(),
{
    if s.len() == 0 {
        -1
    } else {
        let i = first_index(s.drop_last(), p);
        if i >= 0 {
            i
        } else if p(s.last()) {
            s.len() - 1
        } else {
            -1
        }
    }
}

/// When no item before `i` satisfies `p`, the first match is `i` if it matches, and there
/// is none if `i` is the end.
pub proof fn lemma_first_index<T>(s: Seq<T>, p: spec_fn(T) -> bool, i: int)
    requires
        0 <= i <= s.len(),
        forall|j: int| 0 <= j < i ==> !p(#[trigger] s[j]),
    ensures
        i < s.len() && p(s[i]) ==> first_index(s, p) == i,
        i == s.len() ==> first_index(s, p) == -1,
    decreases s.len(),
{
    if s.len() > 0 {
        let d = s.drop_last();
        if i < s.len() {
            if i < s.len() - 1 {
                assert forall|j: int| 0 <= j < i implies !p(#[trigger] d[j]) by { assert(d[j] == s[j]); }
                lemma_first_index(d, p, i);
            } else {
                assert forall|j: int| 0 <= j < i implies !p(#[trigger] d[j]) by { assert(d[j] == s[j]); }
                lemma_first_index(d, p, i);
            }
        } else {
            assert forall|j: int| 0 <= j < i - 1 implies !p(#[trigger] d[j]) by { assert(d[j] == s[j]); }
            lemma_first_index(d, p, i - 1);
        }
    }
}

/// The first match is a match, and nothing before it matches.
pub proof fn lemma_first_index_is_first<T>(s: Seq<T>, p: spec_fn(T) -> bool)
    ensures
        -1 <= first_index(s, p) < s.len(),
        first_index(s, p) >= 0 ==> p(s[first_index(s, p)]),
        forall|j: int| 0 <= j < s.len() && (first_index(s, p) < 0 || j < first_index(s, p)) ==> !p(#[trigger] s[j]),
    decreases s.len(),
{
    if s.len() > 0 {
        let d = s.drop_last();
        lemma_first_index_is_first(d, p);
        assert forall|j: int| 0 <= j < d.len() implies d[j] == s[j] by {}
    }
}

/// Two lists whose items match item for item have their first matches at the same index.
pub proof fn lemma_first_index_congruent<A, B>(s: Seq<A>, p: spec_fn(A) -> bool, t: Seq<B>, q: spec_fn(B) -> bool)
    requires
        s.len() == t.len(),
        forall|i: int| 0 <= i < s.len() ==> p(#[trigger] s[i]) == q(t[i]),
    ensures
        first_index(s, p) == first_index(t, q),
    decreases s.len(),
{
    if s.len() > 0 {
        let ds = s.drop_last();
        let dt = t.drop_last();
        assert forall|i: int| 0 <= i < ds.len() implies p(#[trigger] ds[i]) == q(dt[i]) by {
            assert(ds[i] == s[i] && dt[i] == t[i]);
        }
        lemma_first_index_congruent(ds, p, dt, q);
        assert(p(s.last()) == q(t.last())) by { assert(p(s[s.len() - 1]) == q(t[t.len() - 1])); }
    }
}

/// Whether a memory array is named `n`.
pub open spec fn memory_named(n: Seq<char>) -> spec_fn(MemoryArray) -> bool {
    |m: MemoryArray| m.name@ == n
}

/// Whether a memory definition is named `n`.
pub open spec fn definition_named(n: Seq<char>) -> spec_fn(MemoryDefinition) -> bool {
    |d: MemoryDefinition| d.name@ == n
}

/// Index of the first memory array named `n`, or -1.
pub open spec fn memory_index(mems: Seq<MemoryArray>, n: Seq<char>) -> int {
    first_index(mems, memory_named(n))
}

/// Index of the first memory definition named `n`, or -1.
pub open spec fn definition_index(defs: Seq<MemoryDefinition>, n: Seq<char>) -> int {
    first_index(defs, definition_named(n))
}

/// The position of the first memory array with the given name.
pub fn find_memory(mems: &[MemoryArray], name: &str) -> (r: Option<usize>)
    ensures
        match r {
            Some(i) => i as int == memory_index(mems@, name@),
            None => memory_index(mems@, name@) == -1,
        },
{
    let ghost p = memory_named(name@);
    let mut i: usize = 0;
    while i < mems.len()
        invariant
            i <= mems@.len(),
            p == memory_named(name@),
            forall|j: int| 0 <= j < i ==> !p(#[trigger] mems@[j]),
        decreases mems.len() - i,
    {
        if crate::text::str_eq(mems[i].name.as_str(), name) {
            proof { lemma_first_index(mems@, p, i as int); }
            return Some(i);
        }
        i += 1;
    }
    proof { lemma_first_index(mems@, p, i as int); }
    None
}

/// The position of the first memory definition with the given name.
pub fn find_definition(defs: &[MemoryDefinition], name: &str) -> (r: Option<usize>)
    ensures
        match r {
            Some(i) => i as int == definition_index(defs@, name@),
            None => definition_index(defs@, name@) == -1,
        },
{
    let ghost p = definition_named(name@);
    let mut i: usize = 0;
    while i < defs.len()
        invariant
            i <= defs@.len(),
            p == definition_named(name@),
            forall|j: int| 0 <= j < i ==> !p(#[trigger] defs@[j]),
        decreases defs.len() - i,
    {
        if crate::text::str_eq(defs[i].name.as_str(), name) {
            proof { lemma_first_index(defs@, p, i as int); }
            return Some(i);
        }
        i += 1;
    }
    proof { lemma_first_index(defs@, p, i as int); }
    None
}

// ---------------------------------------------------------------------------
// Models of resolved locations and instances

/// Model of a [`MemoryLocation`].
pub ghost struct LocationModel {
    pub memory: Seq<char>,
    pub indices: Seq<ResolvedEndpointIndex>,
    pub bank: Option<u64>,
}

pub open spec fn location_model(l: MemoryLocation) -> LocationModel {
    LocationModel { memory: l.memory@, indices: l.indices@, bank: l.bank }
}

/// Model of a [`ConnectionInstance`].
pub ghost struct InstanceModel {
    pub variables: Seq<(Seq<char>, u64)>,
    pub inputs: Seq<LocationModel>,
    pub outputs: Seq<LocationModel>,
}

pub open spec fn instance_model(c: ConnectionInstance) -> InstanceModel {
    InstanceModel {
        variables: c.variables@.map_values(|v: (String, u64)| (v.0@, v.1)),
        inputs: c.inputs@.map_values(|l: MemoryLocation| location_model(l)),
        outputs: c.outputs@.map_values(|l: MemoryLocation| location_model(l)),
    }
}

/// The models of a list of instances.
pub open spec fn instance_models(v: Seq<ConnectionInstance>) -> Seq<InstanceModel> {
    v.map_values(|c: ConnectionInstance| instance_model(c))
}

// ---------------------------------------------------------------------------
// Resolution

/// Value of an expression under the bindings; `None` where it is unbound, divides by a
/// non-positive number, or leaves `i64`.
pub open spec fn eval_in(e: AffineExpression, values: Seq<(String, i64)>) -> Option<int> {
    if affine_fits(e@, values) {
        affine_eval(e@, values)
    } else {
        None
    }
}

/// The first `n` selectors resolved in order against the axes: `Err` at the first that
/// cannot be evaluated, `Ok(None)` at the first that falls outside its axis.
pub open spec fn resolved_prefix(
    sel: Seq<EndpointIndex>,
    axes: Seq<Axis>,
    values: Seq<(String, i64)>,
    n: nat,
) -> Result<Option<Seq<ResolvedEndpointIndex>>, ()>
    decreases n,
{
    if n == 0 {
        Ok(Some(Seq::empty()))
    } else {
        match resolved_prefix(sel, axes, values, (n - 1) as nat) {
            Ok(Some(p)) => match sel[n - 1] {
                EndpointIndex::All => Ok(Some(p.push(ResolvedEndpointIndex::All))),
                EndpointIndex::Expression(x) => match eval_in(x, values) {
                    None => Err(()),
                    Some(v) => if v < 0 || v >= (axes[n - 1].extent as i64) as int {
                        Ok(None)
                    } else {
                        Ok(Some(p.push(ResolvedEndpointIndex::Index(v as u64))))
                    },
                },
            },
            other => other,
        }
    }
}

/// Once resolution stops, later selectors do not change its outcome.
proof fn lemma_prefix_stops(sel: Seq<EndpointIndex>, axes: Seq<Axis>, values: Seq<(String, i64)>, i: nat, n: nat)
    requires
        i <= n,
        !(resolved_prefix(sel, axes, values, i) is Ok && resolved_prefix(sel, axes, values, i)->Ok_0 is Some),
    ensures
        resolved_prefix(sel, axes, values, n) == resolved_prefix(sel, axes, values, i),
    decreases n - i,
{
    if i < n {
        lemma_prefix_stops(sel, axes, values, i, (n - 1) as nat);
    }
}

pub open spec fn could_not(what: Seq<char>, memory: Seq<char>) -> Seq<char> {
    "could not evaluate "@ + what + " for memory '"@ + memory + "'"@
}

pub open spec fn min_len(a: int, b: int) -> nat {
    if a <= b { a as nat } else { b as nat }
}

/// Where an endpoint of memory `m` (defined by `d`) lands under the bindings: its message
/// when a selector or the bank cannot be evaluated, `None` when one falls outside the memory,
/// else the location.
pub open spec fn endpoint_location(
    e: MemoryEndpoint,
    m: MemoryArray,
    d: MemoryDefinition,
    values: Seq<(String, i64)>,
) -> Result<Option<LocationModel>, Seq<char>> {
    match resolved_prefix(e.indices@, m.axes@, values, min_len(e.indices@.len() as int, m.axes@.len() as int)) {
        Err(_) => Err(could_not("index"@, e.memory@)),
        Ok(None) => Ok(None),
        Ok(Some(ix)) => match e.bank {
            None => Ok(Some(LocationModel { memory: e.memory@, indices: ix, bank: None })),
            Some(b) => match eval_in(b, values) {
                None => Err(could_not("bank"@, e.memory@)),
                Some(v) => if v < 0 || v >= (d.banking->0.banks as i64) as int {
                    Ok(None)
                } else {
                    Ok(Some(LocationModel { memory: e.memory@, indices: ix, bank: Some(v as u64) }))
                },
            },
        },
    }
}

/// The endpoint names a placed memory with a known definition, which has banks if the
/// endpoint selects one.
pub open spec fn endpoint_resolvable(e: MemoryEndpoint, mems: Seq<MemoryArray>, defs: Seq<MemoryDefinition>) -> bool {
    let mi = memory_index(mems, e.memory@);
    &&& mi >= 0
    &&& definition_index(defs, mems[mi].definition@) >= 0
    &&& e.bank is Some ==> defs[definition_index(defs, mems[mi].definition@)].banking is Some
}

/// [`endpoint_location`] against the first memory of the endpoint's name and its definition.
pub open spec fn endpoint_resolution(
    e: MemoryEndpoint,
    mems: Seq<MemoryArray>,
    defs: Seq<MemoryDefinition>,
    values: Seq<(String, i64)>,
) -> Result<Option<LocationModel>, Seq<char>> {
    let m = mems[memory_index(mems, e.memory@)];
    endpoint_location(e, m, defs[definition_index(defs, m.definition@)], values)
}

/// Resolves one endpoint under the bindings.
pub fn resolve_endpoint(
    endpoint: &MemoryEndpoint,
    values: &[(String, i64)],
    memories: &[MemoryArray],
    definitions: &[MemoryDefinition],
) -> (r: Result<Option<MemoryLocation>, ArchitectureError>)
    requires
        endpoint_resolvable(*endpoint, memories@, definitions@),
    ensures
        match (r, endpoint_resolution(*endpoint, memories@, definitions@, values@)) {
            (Ok(Some(l)), Ok(Some(s))) => location_model(l) == s,
            (Ok(None), Ok(None)) => true,
            (Err(e), Err(m)) => e@ == super::architecture::ArchErrorModel::Invalid(m),
            _ => false,
        },
{
    proof { lemma_first_index_is_first(memories@, memory_named(endpoint.memory@)); }
    let mi = find_memory(memories, endpoint.memory.as_str()).unwrap();
    let memory = &memories[mi];
    proof { lemma_first_index_is_first(definitions@, definition_named(memory.definition@)); }
    let di = find_definition(definitions, memory.definition.as_str()).unwrap();
    let definition = &definitions[di];
    let n: usize = if endpoint.indices.len() <= memory.axes.len() { endpoint.indices.len() } else { memory.axes.len() };
    let ghost sel = endpoint.indices@;
    let ghost axes = memory.axes@;
    let mut indices: Vec<ResolvedEndpointIndex> = Vec::new();
    let mut i: usize = 0;
    while i < n
        invariant
            i <= n <= sel.len(),
            n <= axes.len(),
            sel == endpoint.indices@,
            axes == memory.axes@,
            0 <= mi < memories@.len(),
            mi as int == memory_index(memories@, endpoint.memory@),
            *memory == memories@[mi as int],
            n == min_len(sel.len() as int, axes.len() as int),
            resolved_prefix(sel, axes, values@, i as nat) == Ok::<Option<Seq<ResolvedEndpointIndex>>, ()>(Some(indices@)),
        decreases n - i,
    {
        match &endpoint.indices[i] {
            EndpointIndex::All => {
                indices.push(ResolvedEndpointIndex::All);
            },
            EndpointIndex::Expression(x) => {
                let v = match x.checked_evaluate(values) {
                    Ok(Some(v)) => v,
                    _ => {
                        proof {
                            assert(eval_in(*x, values@) is None);
                            assert(resolved_prefix(sel, axes, values@, (i + 1) as nat) is Err);
                            lemma_prefix_stops(sel, axes, values@, (i + 1) as nat, n as nat);
                        }
                        return Err(ArchitectureError::Invalid(could_not_text("index", endpoint.memory.as_str())));
                    },
                };
                if v < 0 || v >= memory.axes[i].extent as i64 {
                    proof {
                        assert(eval_in(*x, values@) == Some(v as int));
                        assert(resolved_prefix(sel, axes, values@, (i + 1) as nat) == Ok::<Option<Seq<ResolvedEndpointIndex>>, ()>(None));
                        lemma_prefix_stops(sel, axes, values@, (i + 1) as nat, n as nat);
                    }
                    return Ok(None);
                }
                indices.push(ResolvedEndpointIndex::Index(v as u64));
            },
        }
        i += 1;
    }
    let bank = match &endpoint.bank {
        None => None,
        Some(b) => {
            let v = match b.checked_evaluate(values) {
                Ok(Some(v)) => v,
                _ => {
                    return Err(ArchitectureError::Invalid(could_not_text("bank", endpoint.memory.as_str())));
                },
            };
            let banks = match &definition.banking {
                Some(banking) => banking.banks,
                None => 0,
            };
            if v < 0 || v >= banks as i64 {
                return Ok(None);
            }
            Some(v as u64)
        },
    };
    Ok(Some(MemoryLocation { memory: endpoint.memory.clone(), indices, bank }))
}

fn could_not_text(what: &str, memory: &str) -> (r: String)
    ensures
        r@ == could_not(what@, memory@),
{
    let mut m = crate::text::owned("could not evaluate ");
    crate::text::push_str(&mut m, what);
    crate::text::push_str(&mut m, " for memory '");
    crate::text::push_str(&mut m, memory);
    crate::text::push_str(&mut m, "'");
    m
}

/// The ports resolved in order: the first message or miss stops them.
pub open spec fn ports_locations(
    ports: Seq<ConnectionPort>,
    mems: Seq<MemoryArray>,
    defs: Seq<MemoryDefinition>,
    values: Seq<(String, i64)>,
) -> Result<Option<Seq<LocationModel>>, Seq<char>>
    decreases ports.len(),
{
    if ports.len() == 0 {
        Ok(Some(Seq::empty()))
    } else {
        match ports_locations(ports.drop_last(), mems, defs, values) {
            Ok(Some(p)) => match endpoint_resolution(ports.last().endpoint, mems, defs, values) {
                Err(m) => Err(m),
                Ok(None) => Ok(None),
                Ok(Some(l)) => Ok(Some(p.push(l))),
            },
            other => other,
        }
    }
}

proof fn lemma_ports_stop(
    ports: Seq<ConnectionPort>,
    mems: Seq<MemoryArray>,
    defs: Seq<MemoryDefinition>,
    values: Seq<(String, i64)>,
    i: int,
)
    requires
        0 <= i <= ports.len(),
        !(ports_locations(ports.take(i), mems, defs, values) is Ok
            && ports_locations(ports.take(i), mems, defs, values)->Ok_0 is Some),
    ensures
        ports_locations(ports, mems, defs, values) == ports_locations(ports.take(i), mems, defs, values),
    decreases ports.len() - i,
{
    if i < ports.len() {
        let d = ports.drop_last();
        assert(d.take(i) =~= ports.take(i));
        lemma_ports_stop(d, mems, defs, values, i);
        assert(ports.take(ports.len() as int) =~= ports);
    } else {
        assert(ports.take(i) =~= ports);
    }
}

/// Every port endpoint of the list can be resolved.
pub open spec fn ports_resolvable(ports: Seq<ConnectionPort>, mems: Seq<MemoryArray>, defs: Seq<MemoryDefinition>) -> bool {
    forall|k: int| 0 <= k < ports.len() ==> endpoint_resolvable(#[trigger] ports[k].endpoint, mems, defs)
}

fn resolve_ports(
    ports: &Vec<ConnectionPort>,
    values: &[(String, i64)],
    memories: &[MemoryArray],
    definitions: &[MemoryDefinition],
) -> (r: Result<Option<Vec<MemoryLocation>>, ArchitectureError>)
    requires
        ports_resolvable(ports@, memories@, definitions@),
    ensures
        match (r, ports_locations(ports@, memories@, definitions@, values@)) {
            (Ok(Some(v)), Ok(Some(s))) => v@.map_values(|l: MemoryLocation| location_model(l)) == s,
            (Ok(None), Ok(None)) => true,
            (Err(e), Err(m)) => e@ == super::architecture::ArchErrorModel::Invalid(m),
            _ => false,
        },
{
    let mut out: Vec<MemoryLocation> = Vec::new();
    let mut i: usize = 0;
    proof {
        assert(ports@.take(0) =~= Seq::<ConnectionPort>::empty());
        assert(out@.map_values(|l: MemoryLocation| location_model(l)) =~= Seq::<LocationModel>::empty());
    }
    while i < ports.len()
        invariant
            i <= ports@.len(),
            ports_resolvable(ports@, memories@, definitions@),
            ports_locations(ports@.take(i as int), memories@, definitions@, values@)
                == Ok::<Option<Seq<LocationModel>>, Seq<char>>(Some(out@.map_values(|l: MemoryLocation| location_model(l)))),
        decreases ports.len() - i,
    {
        let ghost before = out@.map_values(|l: MemoryLocation| location_model(l));
        proof {
            assert(ports@.take(i + 1).drop_last() =~= ports@.take(i as int));
            assert(ports@.take(i + 1).last() == ports@[i as int]);
        }
        match resolve_endpoint(&ports[i].endpoint, values, memories, definitions) {
            Err(e) => {
                proof { lemma_ports_stop(ports@, memories@, definitions@, values@, i + 1); }
                return Err(e);
            },
            Ok(None) => {
                proof { lemma_ports_stop(ports@, memories@, definitions@, values@, i + 1); }
                return Ok(None);
            },
            Ok(Some(l)) => {
                out.push(l);
                proof {
                    assert(out@.map_values(|l: MemoryLocation| location_model(l)) =~= before.push(location_model(l)));
                }
            },
        }
        i += 1;
    }
    proof { assert(ports@.take(ports@.len() as int) =~= ports@); }
    Ok(Some(out))
}

/// The bindings of a domain point: each axis name with its coordinate.
pub open spec fn point_values(domain: Seq<Axis>, p: Seq<u64>) -> Seq<(String, i64)> {
    Seq::new(domain.len(), |k: int| (domain[k].name, p[k] as i64))
}

/// The variables of a domain point, in domain order.
pub open spec fn point_vars(domain: Seq<Axis>, p: Seq<u64>) -> Seq<(Seq<char>, u64)> {
    Seq::new(domain.len(), |k: int| (domain[k].name@, p[k]))
}

/// The instance at one domain point: its message when an endpoint cannot be evaluated,
/// `None` when one falls outside its memory, else the resolved inputs and outputs.
pub open spec fn point_instance(
    c: Connection,
    domain: Seq<Axis>,
    mems: Seq<MemoryArray>,
    defs: Seq<MemoryDefinition>,
    p: Seq<u64>,
) -> Result<Option<InstanceModel>, Seq<char>> {
    let values = point_values(domain, p);
    match ports_locations(c.inputs@, mems, defs, values) {
        Err(m) => Err(m),
        Ok(None) => Ok(None),
        Ok(Some(ins)) => match ports_locations(c.outputs@, mems, defs, values) {
            Err(m) => Err(m),
            Ok(None) => Ok(None),
            Ok(Some(outs)) => Ok(Some(InstanceModel { variables: point_vars(domain, p), inputs: ins, outputs: outs })),
        },
    }
}

/// The instances at the given points, in order, skipping points whose endpoints fall
/// outside their memories; the first message stops them.
pub open spec fn instances_at(
    c: Connection,
    domain: Seq<Axis>,
    mems: Seq<MemoryArray>,
    defs: Seq<MemoryDefinition>,
    pts: Seq<Seq<u64>>,
) -> Result<Seq<InstanceModel>, Seq<char>>
    decreases pts.len(),
{
    if pts.len() == 0 {
        Ok(Seq::empty())
    } else {
        match instances_at(c, domain, mems, defs, pts.drop_last()) {
            Err(m) => Err(m),
            Ok(v) => match point_instance(c, domain, mems, defs, pts.last()) {
                Err(m) => Err(m),
                Ok(None) => Ok(v),
                Ok(Some(i)) => Ok(v.push(i)),
            },
        }
    }
}

proof fn lemma_instances_stop(
    c: Connection,
    domain: Seq<Axis>,
    mems: Seq<MemoryArray>,
    defs: Seq<MemoryDefinition>,
    pts: Seq<Seq<u64>>,
    i: int,
)
    requires
        0 <= i <= pts.len(),
        instances_at(c, domain, mems, defs, pts.take(i)) is Err,
    ensures
        instances_at(c, domain, mems, defs, pts) == instances_at(c, domain, mems, defs, pts.take(i)),
    decreases pts.len() - i,
{
    if i < pts.len() {
        let d = pts.drop_last();
        assert(d.take(i) =~= pts.take(i));
        lemma_instances_stop(c, domain, mems, defs, d, i);
        assert(pts.take(pts.len() as int) =~= pts);
    } else {
        assert(pts.take(i) =~= pts);
    }
}

/// The instances of a connection over every point of its domain, the last axis varying
/// fastest.
pub open spec fn connection_instances_of(
    c: Connection,
    domain: Seq<Axis>,
    mems: Seq<MemoryArray>,
    defs: Seq<MemoryDefinition>,
) -> Result<Seq<InstanceModel>, Seq<char>> {
    instances_at(c, domain, mems, defs, grid(extents(domain)))
}

/// Every endpoint of the connection can be resolved.
pub open spec fn connection_resolvable(c: Connection, mems: Seq<MemoryArray>, defs: Seq<MemoryDefinition>) -> bool {
    ports_resolvable(c.inputs@, mems, defs) && ports_resolvable(c.outputs@, mems, defs)
}

fn point_bindings(domain: &[Axis], p: &Vec<u64>) -> (r: Vec<(String, i64)>)
    requires
        p@.len() == domain@.len(),
    ensures
        r@ == point_values(domain@, p@),
{
    let mut out: Vec<(String, i64)> = Vec::new();
    let mut k: usize = 0;
    while k < domain.len()
        invariant
            k <= domain@.len() == p@.len(),
            out@ =~= point_values(domain@, p@).take(k as int),
        decreases domain.len() - k,
    {
        out.push((domain[k].name.clone(), p[k] as i64));
        k += 1;
    }
    out
}

fn point_variables(domain: &[Axis], p: &Vec<u64>) -> (r: Vec<(String, u64)>)
    requires
        p@.len() == domain@.len(),
    ensures
        r@.map_values(|v: (String, u64)| (v.0@, v.1)) == point_vars(domain@, p@),
{
    let mut out: Vec<(String, u64)> = Vec::new();
    let mut k: usize = 0;
    while k < domain.len()
        invariant
            k <= domain@.len() == p@.len(),
            out@.len() == k,
            forall|j: int| 0 <= j < k ==> (#[trigger] out@[j]).0@ == domain@[j].name@ && out@[j].1 == p@[j],
        decreases domain.len() - k,
    {
        out.push((domain[k].name.clone(), p[k]));
        k += 1;
    }
    proof { assert(out@.map_values(|v: (String, u64)| (v.0@, v.1)) =~= point_vars(domain@, p@)); }
    out
}

proof fn lemma_grid_len(ext: Seq<u64>)
    ensures
        forall|i: int| 0 <= i < grid(ext).len() ==> (#[trigger] grid(ext)[i]).len() == ext.len(),
    decreases ext.len(),
{
    if ext.len() > 0 {
        lemma_grid_len(ext.drop_last());
        lemma_expand_len(grid(ext.drop_last()), ext.last(), ext.len() - 1);
    }
}

proof fn lemma_expand_len(pts: Seq<Seq<u64>>, n: u64, l: int)
    requires
        forall|i: int| 0 <= i < pts.len() ==> (#[trigger] pts[i]).len() == l,
    ensures
        forall|i: int| 0 <= i < super::axis::expand(pts, n).len() ==> (#[trigger] super::axis::expand(pts, n)[i]).len() == l + 1,
    decreases pts.len(),
{
    if pts.len() > 0 {
        let d = pts.drop_last();
        lemma_expand_len(d, n, l);
        let row = Seq::new(n as nat, |v: int| pts.last().push(v as u64));
        assert(super::axis::expand(pts, n) == super::axis::expand(d, n) + row);
        assert forall|i: int| 0 <= i < super::axis::expand(pts, n).len()
            implies (#[trigger] super::axis::expand(pts, n)[i]).len() == l + 1 by {
            if i < super::axis::expand(d, n).len() {
                assert(super::axis::expand(pts, n)[i] == super::axis::expand(d, n)[i]);
            } else {
                assert(super::axis::expand(pts, n)[i] == row[i - super::axis::expand(d, n).len()]);
            }
        }
    }
}

/// The memory locations of every instance of a connection over the given domain.
pub fn resolve_connection_instances(
    connection: &Connection,
    domain: &[Axis],
    memories: &[MemoryArray],
    definitions: &[MemoryDefinition],
) -> (r: Result<Vec<ConnectionInstance>, ArchitectureError>)
    requires
        connection_resolvable(*connection, memories@, definitions@),
    ensures
        match (r, connection_instances_of(*connection, domain@, memories@, definitions@)) {
            (Ok(v), Ok(s)) => v@.map_values(|c: ConnectionInstance| instance_model(c)) == s,
            (Err(e), Err(m)) => e@ == super::architecture::ArchErrorModel::Invalid(m),
            _ => false,
        },
{
    let points = axis_points(domain);
    let ghost pts = grid(extents(domain@));
    proof {
        lemma_grid_len(extents(domain@));
        assert(pts.take(0) =~= Seq::<Seq<u64>>::empty());
    }
    let mut out: Vec<ConnectionInstance> = Vec::new();
    let mut i: usize = 0;
    proof { assert(out@.map_values(|c: ConnectionInstance| instance_model(c)) =~= Seq::<InstanceModel>::empty()); }
    while i < points.len()
        invariant
            i <= points@.len() == pts.len(),
            pts == grid(extents(domain@)),
            forall|k: int| 0 <= k < points@.len() ==> #[trigger] points@[k]@ == pts[k],
            forall|k: int| 0 <= k < pts.len() ==> (#[trigger] pts[k]).len() == extents(domain@).len(),
            connection_resolvable(*connection, memories@, definitions@),
            instances_at(*connection, domain@, memories@, definitions@, pts.take(i as int))
                == Ok::<Seq<InstanceModel>, Seq<char>>(out@.map_values(|c: ConnectionInstance| instance_model(c))),
        decreases points.len() - i,
    {
        let ghost before = out@.map_values(|c: ConnectionInstance| instance_model(c));
        proof {
            assert(pts.take(i + 1).drop_last() =~= pts.take(i as int));
            assert(pts.take(i + 1).last() == pts[i as int]);
            assert(points@[i as int]@.len() == domain@.len());
        }
        let values = point_bindings(domain, &points[i]);
        match resolve_ports(&connection.inputs, values.as_slice(), memories, definitions) {
            Err(e) => {
                proof { lemma_instances_stop(*connection, domain@, memories@, definitions@, pts, i + 1); }
                return Err(e);
            },
            Ok(None) => {},
            Ok(Some(inputs)) => {
                match resolve_ports(&connection.outputs, values.as_slice(), memories, definitions) {
                    Err(e) => {
                        proof { lemma_instances_stop(*connection, domain@, memories@, definitions@, pts, i + 1); }
                        return Err(e);
                    },
                    Ok(None) => {},
                    Ok(Some(outputs)) => {
                        let variables = point_variables(domain, &points[i]);
                        let inst = ConnectionInstance { variables, inputs, outputs };
                        out.push(inst);
                        proof {
                            assert(out@.map_values(|c: ConnectionInstance| instance_model(c)) =~= before.push(instance_model(inst)));
                        }
                    },
                }
            },
        }
        i += 1;
    }
    proof { assert(pts.take(pts.len() as int) =~= pts); }
    Ok(out)
}

} // verus!
