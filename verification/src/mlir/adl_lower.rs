//! Lowering a processor definition's MLIR source for export: its memory roles bound to
//! the exported memory symbols of the processor's connection ports.
use vstd::prelude::*;

use crate::arch::axis::Axis;
use crate::arch::processor::{OperationModel, ProcessorDefinition};
use crate::mlir::adl_header::{first_value, pairs_view, rewrite_raw_mlir_module, rewritten, trimmed, x_trim_range};
use crate::mlir::ops::MlirMemRegionBinding;
use crate::text::{chars_lt, push_str, seq_lt, str_eq, texts};

verus! {

pub type Pairs = Seq<(Seq<char>, Seq<char>)>;

/// The value a sorted map holds for `k`.
pub open spec fn map_previous(m: Pairs, k: Seq<char>) -> Option<Seq<char>>
    decreases m.len(),
{
    if m.len() == 0 {
        None
    } else if m[0].0 == k {
        Some(m[0].1)
    } else if seq_lt(k, m[0].0) {
        None
    } else {
        map_previous(m.drop_first(), k)
    }
}

/// A map kept sorted by key, with `k` set to `x`.
pub open spec fn map_insert(m: Pairs, k: Seq<char>, x: Seq<char>) -> Pairs
    decreases m.len(),
{
    if m.len() == 0 {
        seq![(k, x)]
    } else if m[0].0 == k {
        m.update(0, (k, x))
    } else if seq_lt(k, m[0].0) {
        seq![(k, x)] + m
    } else {
        seq![m[0]] + map_insert(m.drop_first(), k, x)
    }
}

proof fn lemma_map_at(m: Pairs, k: Seq<char>, x: Seq<char>, i: int)
    requires
        0 <= i <= m.len(),
        forall|j: int| 0 <= j < i ==> m[j].0 != k && !seq_lt(k, m[j].0),
    ensures
        i == m.len() ==> map_insert(m, k, x) == m.push((k, x)) && map_previous(m, k) is None,
        i < m.len() && m[i].0 == k ==> map_insert(m, k, x) == m.update(i, (k, x)) && map_previous(m, k) == Some(m[i].1),
        i < m.len() && m[i].0 != k && seq_lt(k, m[i].0) ==> map_insert(m, k, x) == m.insert(i, (k, x)) && map_previous(m, k) is None,
    decreases i,
{
    if i > 0 {
        assert forall|j: int| 0 <= j < i - 1 implies m.drop_first()[j].0 != k && !seq_lt(k, m.drop_first()[j].0) by {
            assert(m.drop_first()[j] == m[j + 1]);
        }
        lemma_map_at(m.drop_first(), k, x, i - 1);
        assert(m[0].0 != k && !seq_lt(k, m[0].0));
        if i == m.len() {
            assert(seq![m[0]] + m.drop_first().push((k, x)) =~= m.push((k, x)));
        } else if m[i].0 == k {
            assert(m.drop_first()[i - 1] == m[i]);
            assert(seq![m[0]] + m.drop_first().update(i - 1, (k, x)) =~= m.update(i, (k, x)));
        } else if seq_lt(k, m[i].0) {
            assert(m.drop_first()[i - 1] == m[i]);
            assert(seq![m[0]] + m.drop_first().insert(i - 1, (k, x)) =~= m.insert(i, (k, x)));
        }
    } else {
        if m.len() > 0 && m[0].0 != k && seq_lt(k, m[0].0) {
            assert(seq![(k, x)] + m =~= m.insert(0, (k, x)));
        }
    }
}

/// Sets `k` to `x` in a sorted map; returns what it held before.
fn map_set(m: &mut Vec<(String, String)>, k: &str, x: &str) -> (r: Option<String>)
    ensures
        pairs_view(final(m)@) == map_insert(pairs_view(old(m)@), k@, x@),
        match r {
            Some(p) => map_previous(pairs_view(old(m)@), k@) == Some(p@),
            None => map_previous(pairs_view(old(m)@), k@) is None,
        },
{
    let ghost v = pairs_view(m@);
    let kc = crate::text::chars_of(k);
    let mut i: usize = 0;
    while i < m.len()
        invariant
            i <= m@.len(),
            v == pairs_view(m@),
            *m == *old(m),
            kc@ == k@,
            forall|j: int| 0 <= j < i ==> (#[trigger] v[j]).0 != k@ && !seq_lt(k@, v[j].0),
        decreases m.len() - i,
    {
        if str_eq(m[i].0.as_str(), k) {
            proof { lemma_map_at(v, k@, x@, i as int); }
            let prev = m[i].1.clone();
            m.set(i, (crate::text::owned(k), crate::text::owned(x)));
            proof { assert(pairs_view(m@) =~= v.update(i as int, (k@, x@))); }
            return Some(prev);
        }
        let mc = crate::text::chars_of(m[i].0.as_str());
        if chars_lt(kc.as_slice(), mc.as_slice()) {
            proof { lemma_map_at(v, k@, x@, i as int); }
            m.insert(i, (crate::text::owned(k), crate::text::owned(x)));
            proof { assert(pairs_view(m@) =~= v.insert(i as int, (k@, x@))); }
            return None;
        }
        i += 1;
    }
    proof { lemma_map_at(v, k@, x@, i as int); }
    m.push((crate::text::owned(k), crate::text::owned(x)));
    proof { assert(pairs_view(m@) =~= v.push((k@, x@))); }
    None
}

pub open spec fn bindings_view(b: Seq<MlirMemRegionBinding>) -> Pairs {
    b.map_values(|x: MlirMemRegionBinding| (x.memref@, x.region@))
}

/// The first memref of `memrefs` that no binding names.
pub open spec fn unbound_memref(memrefs: Seq<Seq<char>>, b: Pairs) -> Option<Seq<char>>
    decreases memrefs.len(),
{
    if memrefs.len() == 0 {
        None
    } else {
        match unbound_memref(memrefs.drop_last(), b) {
            Some(r) => Some(r),
            None => if exists|j: int| 0 <= j < b.len() && b[j].0 == memrefs.last() { None } else { Some(memrefs.last()) },
        }
    }
}

/// The regions that bindings of `memrefs` name, each once, in the order of the bindings.
pub open spec fn bound_regions(b: Pairs, memrefs: Seq<Seq<char>>) -> Seq<Seq<char>>
    decreases b.len(),
{
    if b.len() == 0 {
        Seq::empty()
    } else {
        let acc = bound_regions(b.drop_last(), memrefs);
        if memrefs.contains(b.last().0) && !acc.contains(b.last().1) { acc.push(b.last().1) } else { acc }
    }
}

pub open spec fn no_port(f: Seq<char>, side: Seq<char>, region: Seq<char>) -> Seq<char> {
    "MLIR function '"@ + f + "' binds "@ + side + " memory role '@"@ + region + "' to port '"@ + region
        + "', but the connection has no such "@ + side + " port"@
}

/// Each region with the handle of the port of the same name; the first region without
/// such a port is an error.
pub open spec fn assignments(f: Seq<char>, side: Seq<char>, regions: Seq<Seq<char>>, ports: Pairs) -> Result<Pairs, Seq<char>>
    decreases regions.len(),
{
    if regions.len() == 0 {
        Ok(Seq::empty())
    } else {
        match assignments(f, side, regions.drop_last(), ports) {
            Err(m) => Err(m),
            Ok(acc) => match first_value(ports, regions.last()) {
                None => Err(no_port(f, side, regions.last())),
                Some(h) => Ok(acc.push((regions.last(), h))),
            },
        }
    }
}

pub open spec fn clash(region: Seq<char>, previous: Seq<char>, handle: Seq<char>) -> Seq<char> {
    "MLIR memory region '@"@ + region + "' maps to both '@"@ + previous + "' and '@"@ + handle + "'"@
}

/// The map with each assignment set in turn; a region set to two handles is an error.
pub open spec fn assigned(m: Pairs, a: Pairs) -> Result<Pairs, Seq<char>>
    decreases a.len(),
{
    if a.len() == 0 {
        Ok(m)
    } else {
        match assigned(m, a.drop_last()) {
            Err(e) => Err(e),
            Ok(m1) => {
                let (r, h) = a.last();
                match map_previous(m1, r) {
                    Some(p) => if p != h { Err(clash(r, p, h)) } else { Ok(map_insert(m1, r, h)) },
                    None => Ok(map_insert(m1, r, h)),
                }
            },
        }
    }
}

pub open spec fn unbound(f: Seq<char>, side: Seq<char>, memref: Seq<char>) -> Seq<char> {
    "MLIR function '"@ + f + "' "@ + side + " '%"@ + memref + "' has no loom.bind_mem"@
}

/// One side of one function bound into the map of memory symbols.
pub open spec fn side_bound(f: Seq<char>, side: Seq<char>, memrefs: Seq<Seq<char>>, b: Pairs, ports: Pairs, m: Pairs) -> Result<Pairs, Seq<char>> {
    match unbound_memref(memrefs, b) {
        Some(r) => Err(unbound(f, side, r)),
        None => {
            let regions = bound_regions(b, memrefs);
            if regions.len() == 0 && ports.len() == 0 {
                Ok(m)
            } else {
                match assignments(f, side, regions, ports) {
                    Err(e) => Err(e),
                    Ok(a) => assigned(m, a),
                }
            }
        },
    }
}

pub open spec fn no_interface(f: Seq<char>) -> Seq<char> {
    "MLIR function '"@ + f + "' has no parsed interface"@
}

/// The memory symbols of a definition's functions: the inputs then the outputs of each.
pub open spec fn memory_symbols(fs: Seq<OperationModel>, inputs: Pairs, outputs: Pairs) -> Result<Pairs, Seq<char>>
    decreases fs.len(),
{
    if fs.len() == 0 {
        Ok(Seq::empty())
    } else {
        match memory_symbols(fs.drop_last(), inputs, outputs) {
            Err(e) => Err(e),
            Ok(m) => {
                let f = fs.last().func;
                match f.mlir_details {
                    None => Err(no_interface(f.name@)),
                    Some(d) => match side_bound(f.name@, "input"@, texts(d.source_memrefs@), bindings_view(d.mem_region_bindings@), inputs, m) {
                        Err(e) => Err(e),
                        Ok(m2) => side_bound(f.name@, "output"@, texts(d.target_memrefs@), bindings_view(d.mem_region_bindings@), outputs, m2),
                    },
                }
            },
        }
    }
}

/// A processor definition's source lowered for export: nothing for an empty source,
/// otherwise the module rewritten with the memory symbols of its functions.
pub open spec fn lowered_source(d: ProcessorDefinition, array: Seq<char>, domain: Seq<Axis>, module_name: Seq<char>, inputs: Pairs, outputs: Pairs)
    -> Result<Seq<char>, Seq<char>> {
    if trimmed(d.source@).len() == 0 {
        Ok(Seq::empty())
    } else {
        match memory_symbols(d.functions@, inputs, outputs) {
            Err(e) => Err(e),
            Ok(m) => rewritten(d.source@, module_name, array, d.name@, domain, m),
        }
    }
}

fn has_binding(b: &Vec<MlirMemRegionBinding>, memref: &str) -> (r: bool)
    ensures
        r == exists|j: int| 0 <= j < b@.len() && bindings_view(b@)[j].0 == memref@,
{
    let mut j: usize = 0;
    while j < b.len()
        invariant
            j <= b@.len(),
            forall|k: int| 0 <= k < j ==> b@[k].memref@ != memref@,
        decreases b.len() - j,
    {
        if str_eq(b[j].memref.as_str(), memref) {
            proof { assert(bindings_view(b@)[j as int].0 == memref@); }
            return true;
        }
        j += 1;
    }
    proof {
        assert forall|k: int| 0 <= k < b@.len() implies bindings_view(b@)[k].0 != memref@ by {
            assert(bindings_view(b@)[k].0 == b@[k].memref@);
        }
    }
    false
}

pub(crate) fn contains_text(v: &Vec<String>, x: &str) -> (r: bool)
    ensures
        r == texts(v@).contains(x@),
{
    let mut j: usize = 0;
    while j < v.len()
        invariant
            j <= v@.len(),
            forall|k: int| 0 <= k < j ==> v@[k]@ != x@,
        decreases v.len() - j,
    {
        if str_eq(v[j].as_str(), x) {
            proof { assert(texts(v@)[j as int] == x@); }
            return true;
        }
        j += 1;
    }
    proof {
        if texts(v@).contains(x@) {
            let k = choose|k: int| 0 <= k < texts(v@).len() && texts(v@)[k] == x@;
            assert(v@[k]@ == x@);
        }
    }
    false
}

fn message5(a: &str, b: &str, c: &str, d: &str, e: &str) -> (r: String)
    ensures
        r@ == a@ + b@ + c@ + d@ + e@,
{
    let mut m = crate::text::owned(a);
    push_str(&mut m, b);
    push_str(&mut m, c);
    push_str(&mut m, d);
    push_str(&mut m, e);
    m
}

fn bind_side(
    f: &str,
    side: &str,
    memrefs: &Vec<String>,
    b: &Vec<MlirMemRegionBinding>,
    ports: &Vec<(String, String)>,
    m: &mut Vec<(String, String)>,
) -> (r: Result<(), String>)
    ensures
        match r {
            Ok(()) => side_bound(f@, side@, texts(memrefs@), bindings_view(b@), pairs_view(ports@), pairs_view(old(m)@))
                == Ok::<Pairs, Seq<char>>(pairs_view(final(m)@)),
            Err(e) => side_bound(f@, side@, texts(memrefs@), bindings_view(b@), pairs_view(ports@), pairs_view(old(m)@))
                == Err::<Pairs, Seq<char>>(e@),
        },
{
    let ghost ms = texts(memrefs@);
    let ghost bv = bindings_view(b@);
    let ghost pv = pairs_view(ports@);
    let ghost m0 = pairs_view(m@);
    let mut i: usize = 0;
    while i < memrefs.len()
        invariant
            i <= memrefs@.len(),
            ms == texts(memrefs@),
            bv == bindings_view(b@),
            unbound_memref(ms.take(i as int), bv) is None,
        decreases memrefs.len() - i,
    {
        proof {
            assert(ms.take(i + 1).drop_last() =~= ms.take(i as int));
            assert(ms.take(i + 1).last() == memrefs@[i as int]@);
        }
        if !has_binding(b, memrefs[i].as_str()) {
            let mut e = message5("MLIR function '", f, "' ", side, " '%");
            push_str(&mut e, memrefs[i].as_str());
            push_str(&mut e, "' has no loom.bind_mem");
            proof {
                reveal_strlit("MLIR function '");
                reveal_strlit("' ");
                reveal_strlit(" '%");
                reveal_strlit("' has no loom.bind_mem");
                lemma_unbound_sticky(ms, bv, i + 1);
            }
            return Err(e);
        }
        i += 1;
    }
    proof { assert(ms.take(ms.len() as int) =~= ms); }
    let mut regions: Vec<String> = Vec::new();
    let mut j: usize = 0;
    proof { assert(texts(regions@) =~= bound_regions(bv.take(0), ms)); }
    while j < b.len()
        invariant
            j <= b@.len(),
            bv == bindings_view(b@),
            ms == texts(memrefs@),
            texts(regions@) == bound_regions(bv.take(j as int), ms),
        decreases b.len() - j,
    {
        proof {
            assert(bv.take(j + 1).drop_last() =~= bv.take(j as int));
            assert(bv.take(j + 1).last() == (b@[j as int].memref@, b@[j as int].region@));
        }
        if contains_text(memrefs, b[j].memref.as_str()) && !contains_text(&regions, b[j].region.as_str()) {
            let ghost before = regions@;
            regions.push(b[j].region.clone());
            proof { assert(texts(regions@) =~= texts(before).push(b@[j as int].region@)); }
        }
        j += 1;
    }
    proof { assert(bv.take(bv.len() as int) =~= bv); }
    if regions.len() == 0 && ports.len() == 0 {
        return Ok(());
    }
    let ghost rs = texts(regions@);
    let mut assigns: Vec<(String, String)> = Vec::new();
    let mut k: usize = 0;
    proof { assert(pairs_view(assigns@) =~= Seq::<(Seq<char>, Seq<char>)>::empty()); assert(rs.take(0) =~= Seq::<Seq<char>>::empty()); }
    while k < regions.len()
        invariant
            k <= regions@.len(),
            rs == texts(regions@),
            pv == pairs_view(ports@),
            ms == texts(memrefs@),
            bv == bindings_view(b@),
            m0 == pairs_view(old(m)@),
            *m == *old(m),
            unbound_memref(ms, bv) is None,
            rs == bound_regions(bv, ms),
            !(rs.len() == 0 && pv.len() == 0),
            assignments(f@, side@, rs.take(k as int), pv) == Ok::<Pairs, Seq<char>>(pairs_view(assigns@)),
        decreases regions.len() - k,
    {
        proof {
            assert(rs.take(k + 1).drop_last() =~= rs.take(k as int));
            assert(rs.take(k + 1).last() == regions@[k as int]@);
        }
        match crate::mlir::adl_header::find_value(ports, regions[k].as_str()) {
            None => {
                let mut e = message5("MLIR function '", f, "' binds ", side, " memory role '@");
                push_str(&mut e, regions[k].as_str());
                push_str(&mut e, "' to port '");
                push_str(&mut e, regions[k].as_str());
                push_str(&mut e, "', but the connection has no such ");
                push_str(&mut e, side);
                push_str(&mut e, " port");
                proof {
                    reveal_strlit("MLIR function '");
                    reveal_strlit("' binds ");
                    reveal_strlit(" memory role '@");
                    reveal_strlit("' to port '");
                    reveal_strlit("', but the connection has no such ");
                    reveal_strlit(" port");
                    assert(e@ =~= no_port(f@, side@, regions@[k as int]@));
                    lemma_assignments_sticky(f@, side@, rs, pv, k + 1);
                }
                return Err(e);
            },
            Some(p) => {
                let ghost before = assigns@;
                assigns.push((regions[k].clone(), ports[p].1.clone()));
                proof { assert(pairs_view(assigns@) =~= pairs_view(before).push((regions@[k as int]@, ports@[p as int].1@))); }
            },
        }
        k += 1;
    }
    proof { assert(rs.take(rs.len() as int) =~= rs); }
    let ghost av = pairs_view(assigns@);
    let mut q: usize = 0;
    proof { assert(av.take(0) =~= Seq::<(Seq<char>, Seq<char>)>::empty()); }
    while q < assigns.len()
        invariant
            q <= assigns@.len(),
            av == pairs_view(assigns@),
            pv == pairs_view(ports@),
            ms == texts(memrefs@),
            bv == bindings_view(b@),
            m0 == pairs_view(old(m)@),
            unbound_memref(ms, bv) is None,
            rs == bound_regions(bv, ms),
            !(rs.len() == 0 && pv.len() == 0),
            assignments(f@, side@, rs, pv) == Ok::<Pairs, Seq<char>>(av),
            assigned(m0, av.take(q as int)) == Ok::<Pairs, Seq<char>>(pairs_view(m@)),
        decreases assigns.len() - q,
    {
        proof {
            assert(av.take(q + 1).drop_last() =~= av.take(q as int));
            assert(av.take(q + 1).last() == (assigns@[q as int].0@, assigns@[q as int].1@));
        }
        let prev = map_set(m, assigns[q].0.as_str(), assigns[q].1.as_str());
        match prev {
            Some(p) => {
                if !str_eq(p.as_str(), assigns[q].1.as_str()) {
                    let mut e = crate::text::owned("MLIR memory region '@");
                    push_str(&mut e, assigns[q].0.as_str());
                    push_str(&mut e, "' maps to both '@");
                    push_str(&mut e, p.as_str());
                    push_str(&mut e, "' and '@");
                    push_str(&mut e, assigns[q].1.as_str());
                    push_str(&mut e, "'");
                    proof {
                        reveal_strlit("MLIR memory region '@");
                        reveal_strlit("' maps to both '@");
                        reveal_strlit("' and '@");
                        reveal_strlit("'");
                        lemma_assigned_sticky(m0, av, q + 1);
                    }
                    return Err(e);
                }
            },
            None => {},
        }
        q += 1;
    }
    proof { assert(av.take(av.len() as int) =~= av); }
    Ok(())
}

proof fn lemma_unbound_sticky(ms: Seq<Seq<char>>, b: Pairs, k: int)
    requires
        0 <= k <= ms.len(),
        unbound_memref(ms.take(k), b) is Some,
    ensures
        unbound_memref(ms, b) == unbound_memref(ms.take(k), b),
    decreases ms.len(),
{
    if k == ms.len() {
        assert(ms.take(k) =~= ms);
    } else {
        assert(ms.drop_last().take(k) =~= ms.take(k));
        lemma_unbound_sticky(ms.drop_last(), b, k);
    }
}

proof fn lemma_assignments_sticky(f: Seq<char>, side: Seq<char>, rs: Seq<Seq<char>>, ports: Pairs, k: int)
    requires
        0 <= k <= rs.len(),
        assignments(f, side, rs.take(k), ports) is Err,
    ensures
        assignments(f, side, rs, ports) == assignments(f, side, rs.take(k), ports),
    decreases rs.len(),
{
    if k == rs.len() {
        assert(rs.take(k) =~= rs);
    } else {
        assert(rs.drop_last().take(k) =~= rs.take(k));
        lemma_assignments_sticky(f, side, rs.drop_last(), ports, k);
    }
}

proof fn lemma_assigned_sticky(m: Pairs, a: Pairs, k: int)
    requires
        0 <= k <= a.len(),
        assigned(m, a.take(k)) is Err,
    ensures
        assigned(m, a) == assigned(m, a.take(k)),
    decreases a.len(),
{
    if k == a.len() {
        assert(a.take(k) =~= a);
    } else {
        assert(a.drop_last().take(k) =~= a.take(k));
        lemma_assigned_sticky(m, a.drop_last(), k);
    }
}

proof fn lemma_symbols_sticky(fs: Seq<OperationModel>, inputs: Pairs, outputs: Pairs, k: int)
    requires
        0 <= k <= fs.len(),
        memory_symbols(fs.take(k), inputs, outputs) is Err,
    ensures
        memory_symbols(fs, inputs, outputs) == memory_symbols(fs.take(k), inputs, outputs),
    decreases fs.len(),
{
    if k == fs.len() {
        assert(fs.take(k) =~= fs);
    } else {
        assert(fs.drop_last().take(k) =~= fs.take(k));
        lemma_symbols_sticky(fs.drop_last(), inputs, outputs, k);
    }
}

/// The memory symbols of a definition's functions, as a map sorted by authored symbol.
pub fn raw_mlir_memory_symbols(definition: &ProcessorDefinition, inputs: &Vec<(String, String)>, outputs: &Vec<(String, String)>)
    -> (r: Result<Vec<(String, String)>, String>)
    ensures
        match r {
            Ok(m) => memory_symbols(definition.functions@, pairs_view(inputs@), pairs_view(outputs@)) == Ok::<Pairs, Seq<char>>(pairs_view(m@)),
            Err(e) => memory_symbols(definition.functions@, pairs_view(inputs@), pairs_view(outputs@)) == Err::<Pairs, Seq<char>>(e@),
        },
{
    let ghost fs = definition.functions@;
    let mut m: Vec<(String, String)> = Vec::new();
    let mut i: usize = 0;
    proof { assert(pairs_view(m@) =~= Seq::<(Seq<char>, Seq<char>)>::empty()); assert(fs.take(0) =~= Seq::<OperationModel>::empty()); }
    while i < definition.functions.len()
        invariant
            i <= fs.len(),
            fs == definition.functions@,
            memory_symbols(fs.take(i as int), pairs_view(inputs@), pairs_view(outputs@)) == Ok::<Pairs, Seq<char>>(pairs_view(m@)),
        decreases definition.functions.len() - i,
    {
        proof {
            assert(fs.take(i + 1).drop_last() =~= fs.take(i as int));
            assert(fs.take(i + 1).last() == fs[i as int]);
        }
        let func = &definition.functions[i].func;
        match &func.mlir_details {
            None => {
                let e = message5("MLIR function '", func.name.as_str(), "' has no parsed interface", "", "");
                proof {
                    reveal_strlit("MLIR function '");
                    reveal_strlit("' has no parsed interface");
                    reveal_strlit("");
                    assert(e@ =~= no_interface(func.name@));
                    lemma_symbols_sticky(fs, pairs_view(inputs@), pairs_view(outputs@), i + 1);
                }
                return Err(e);
            },
            Some(d) => {
                proof { reveal_strlit("input"); reveal_strlit("output"); }
                match bind_side(func.name.as_str(), "input", &d.source_memrefs, &d.mem_region_bindings, inputs, &mut m) {
                    Ok(()) => {},
                    Err(e) => {
                        proof { lemma_symbols_sticky(fs, pairs_view(inputs@), pairs_view(outputs@), i + 1); }
                        return Err(e);
                    },
                }
                match bind_side(func.name.as_str(), "output", &d.target_memrefs, &d.mem_region_bindings, outputs, &mut m) {
                    Ok(()) => {},
                    Err(e) => {
                        proof { lemma_symbols_sticky(fs, pairs_view(inputs@), pairs_view(outputs@), i + 1); }
                        return Err(e);
                    },
                }
            },
        }
        i += 1;
    }
    proof { assert(fs.take(fs.len() as int) =~= fs); }
    Ok(m)
}

/// A processor definition's source lowered for export: empty for an empty source,
/// otherwise the module renamed, given the export metadata and bound to the memories of
/// the connection's ports.
pub fn lower_processor_source(
    definition: &ProcessorDefinition,
    processor_array: &str,
    processor_domain: &[Axis],
    module_name: &str,
    inputs: &Vec<(String, String)>,
    outputs: &Vec<(String, String)>,
) -> (r: Result<String, String>)
    ensures
        match r {
            Ok(t) => lowered_source(*definition, processor_array@, processor_domain@, module_name@, pairs_view(inputs@), pairs_view(outputs@))
                == Ok::<Seq<char>, Seq<char>>(t@),
            Err(e) => lowered_source(*definition, processor_array@, processor_domain@, module_name@, pairs_view(inputs@), pairs_view(outputs@))
                == Err::<Seq<char>, Seq<char>>(e@),
        },
{
    let cs = crate::text::chars_of(definition.source.as_str());
    let (lo, hi) = x_trim_range(cs.as_slice(), 0, cs.len());
    if lo == hi {
        proof { assert(trimmed(cs@).len() == 0); }
        return Ok(String::new());
    }
    let symbols = raw_mlir_memory_symbols(definition, inputs, outputs)?;
    rewrite_raw_mlir_module(definition.source.as_str(), module_name, processor_array, definition.name.as_str(), processor_domain, &symbols)
}

} // verus!
