//! The export of an architecture to `adl.*` MLIR: dimensions, memories, resources and
//! processors, then the hierarchy of scopes that composes them, in one module.
use vstd::prelude::*;

use crate::arch::architecture::{first_where, Architecture};
use crate::arch::axis::Axis;
use crate::arch::memory::{MemoryArray, MemoryDefinition};
use crate::arch::processor::{ConnectionPort, ProcessorArray, ProcessorDefinition, ProcessorType};
use crate::arch::resource::Resource;
use crate::mlir::adl_header::{pairs_view, push_join};
use crate::mlir::adl_lower::{lower_processor_source, lowered_source, Pairs};
use crate::mlir::export::{
    endpoint_memory_ssa, endpoint_memory_symbol, endpoint_ssa, endpoint_symbol, first_def, lookup, memory_step,
    named_view, prefixed, prefixed_text, resource_step, ssa, take_ssa, AdlExportError, Emitter, EmitterModel,
    ExportErrorModel,
};
use crate::mlir::lower::join;
use crate::text::{push_str, seq_lt, str_eq, texts};

verus! {

// ---------------------------------------------------------------------------
// Domains

pub open spec fn axis_names(d: Seq<Axis>) -> Seq<Seq<char>> {
    d.map_values(|a: Axis| a.name@)
}

/// Lexicographic order of name lists.
pub open spec fn names_lt(a: Seq<Seq<char>>, b: Seq<Seq<char>>) -> bool
    decreases a.len(),
{
    if b.len() == 0 {
        false
    } else if a.len() == 0 {
        true
    } else if a[0] != b[0] {
        seq_lt(a[0], b[0])
    } else {
        names_lt(a.drop_first(), b.drop_first())
    }
}

/// Shorter domains first, then by the names of their axes.
pub open spec fn domain_lt(x: Seq<Axis>, y: Seq<Axis>) -> bool {
    x.len() < y.len() || (x.len() == y.len() && names_lt(axis_names(x), axis_names(y)))
}

/// The same axes, by name and extent.
pub open spec fn same_domain(x: Seq<Axis>, y: Seq<Axis>) -> bool {
    x.len() == y.len() && forall|i: int| 0 <= i < x.len() ==> (#[trigger] x[i]).name@ == y[i].name@ && x[i].extent == y[i].extent
}

/// `x` placed after every domain of `acc` that it does not precede.
pub open spec fn insert_domain(acc: Seq<Seq<Axis>>, x: Seq<Axis>) -> Seq<Seq<Axis>>
    decreases acc.len(),
{
    if acc.len() == 0 {
        seq![x]
    } else if domain_lt(x, acc[0]) {
        seq![x] + acc
    } else {
        seq![acc[0]] + insert_domain(acc.drop_first(), x)
    }
}

/// The domains in a stable order, shorter first.
pub open spec fn sorted_domains(v: Seq<Seq<Axis>>) -> Seq<Seq<Axis>>
    decreases v.len(),
{
    if v.len() == 0 { Seq::empty() } else { insert_domain(sorted_domains(v.drop_last()), v.last()) }
}

/// The domains with each run of equal ones kept once.
pub open spec fn deduped(v: Seq<Seq<Axis>>) -> Seq<Seq<Axis>>
    decreases v.len(),
{
    if v.len() == 0 {
        Seq::empty()
    } else {
        let acc = deduped(v.drop_last());
        if acc.len() > 0 && same_domain(acc.last(), v.last()) { acc } else { acc.push(v.last()) }
    }
}

/// The processors' domains that have axes, in order.
pub open spec fn processor_domains(ps: Seq<ProcessorArray>) -> Seq<Seq<Axis>>
    decreases ps.len(),
{
    if ps.len() == 0 {
        Seq::empty()
    } else {
        let acc = processor_domains(ps.drop_last());
        if ps.last().axes@.len() > 0 { acc.push(ps.last().axes@) } else { acc }
    }
}

/// The scopes an architecture without explicit scopes is exported with: the distinct
/// domains of its processors, shorter first.
pub open spec fn export_domains(a: Architecture) -> Seq<Seq<Axis>> {
    deduped(sorted_domains(processor_domains(a.processors@)))
}

fn names_less(a: &[Axis], b: &[Axis]) -> (r: bool)
    requires
        a@.len() == b@.len(),
    ensures
        r == names_lt(axis_names(a@), axis_names(b@)),
{
    let ghost x = axis_names(a@);
    let ghost y = axis_names(b@);
    let mut i: usize = 0;
    proof { assert(x.skip(0) =~= x); assert(y.skip(0) =~= y); }
    while i < a.len()
        invariant
            i <= a@.len() == b@.len(),
            x == axis_names(a@),
            y == axis_names(b@),
            names_lt(x, y) == names_lt(x.skip(i as int), y.skip(i as int)),
        decreases a.len() - i,
    {
        let xa = crate::text::chars_of(a[i].name.as_str());
        let yb = crate::text::chars_of(b[i].name.as_str());
        proof {
            assert(x.skip(i as int)[0] == a@[i as int].name@);
            assert(y.skip(i as int)[0] == b@[i as int].name@);
            assert(x.skip(i as int).drop_first() =~= x.skip(i + 1));
            assert(y.skip(i as int).drop_first() =~= y.skip(i + 1));
        }
        if !crate::text::chars_eq(xa.as_slice(), yb.as_slice()) {
            return crate::text::chars_lt(xa.as_slice(), yb.as_slice());
        }
        i += 1;
    }
    proof { assert(y.skip(i as int).len() == 0); }
    false
}

fn domain_less(x: &Vec<Axis>, y: &Vec<Axis>) -> (r: bool)
    ensures
        r == domain_lt(x@, y@),
{
    if x.len() != y.len() {
        return x.len() < y.len();
    }
    names_less(x.as_slice(), y.as_slice())
}

pub fn same_axes(x: &[Axis], y: &[Axis]) -> (r: bool)
    ensures
        r == same_domain(x@, y@),
{
    if x.len() != y.len() {
        return false;
    }
    crate::mlir::export::is_domain_prefix(x, y)
}

fn sort_domains(v: Vec<Vec<Axis>>) -> (r: Vec<Vec<Axis>>)
    ensures
        domains_view(r@) == sorted_domains(domains_view(v@)),
{
    let ghost dv = domains_view(v@);
    let mut out: Vec<Vec<Axis>> = Vec::new();
    let mut rest = v;
    let ghost orig = rest@;
    let n = rest.len();
    let mut i: usize = 0;
    proof { assert(dv.take(0) =~= Seq::<Seq<Axis>>::empty()); assert(domains_view(out@) =~= Seq::<Seq<Axis>>::empty()); }
    while rest.len() > 0
        invariant
            dv == domains_view(orig),
            rest@ == orig.skip(i as int),
            i + rest@.len() == orig.len(),
            n == orig.len(),
            domains_view(out@) == sorted_domains(dv.take(i as int)),
        decreases rest.len(),
    {
        let x = rest.remove(0);
        proof {
            assert(x == orig[i as int]);
            assert(rest@ =~= orig.skip(i + 1));
            assert(dv.take(i + 1).drop_last() =~= dv.take(i as int));
            assert(dv.take(i + 1).last() == x@);
        }
        let ghost acc = domains_view(out@);
        let mut k: usize = 0;
        proof { assert(acc.skip(0) =~= acc); assert(acc.take(0) + acc =~= acc); }
        while k < out.len() && !domain_less(&x, &out[k])
            invariant
                k <= out@.len(),
                acc == domains_view(out@),
                insert_domain(acc, x@) == acc.take(k as int) + insert_domain(acc.skip(k as int), x@),
            decreases out.len() - k,
        {
            proof {
                assert(acc.skip(k as int)[0] == out@[k as int]@);
                assert(acc.skip(k as int).drop_first() =~= acc.skip(k + 1));
                assert(acc.take(k + 1) =~= acc.take(k as int).push(acc[k as int]));
                assert(seq![acc.skip(k as int)[0]] + insert_domain(acc.skip(k + 1), x@) == insert_domain(acc.skip(k as int), x@));
                assert(acc.take(k as int) + (seq![acc[k as int]] + insert_domain(acc.skip(k + 1), x@))
                    =~= acc.take(k + 1) + insert_domain(acc.skip(k + 1), x@));
            }
            k += 1;
        }
        proof {
            if k < out@.len() {
                assert(acc.skip(k as int)[0] == out@[k as int]@);
                assert(insert_domain(acc.skip(k as int), x@) == seq![x@] + acc.skip(k as int));
            } else {
                assert(acc.skip(k as int) =~= Seq::<Seq<Axis>>::empty());
            }
        }
        let ghost xv = x@;
        out.insert(k, x);
        proof {
            assert(domains_view(out@) =~= acc.take(k as int) + (seq![xv] + acc.skip(k as int)));
        }
        i += 1;
    }
    proof { assert(dv.take(i as int) =~= dv); }
    out
}

pub open spec fn domains_view(v: Seq<Vec<Axis>>) -> Seq<Seq<Axis>> {
    v.map_values(|d: Vec<Axis>| d@)
}

/// The domains an architecture without explicit scopes is exported with.
pub fn export_scope_domains(architecture: &Architecture) -> (r: Vec<Vec<Axis>>)
    ensures
        domains_view(r@) == export_domains(*architecture),
{
    let ps = &architecture.processors;
    let mut v: Vec<Vec<Axis>> = Vec::new();
    let mut i: usize = 0;
    proof { assert(domains_view(v@) =~= processor_domains(ps@.take(0))); }
    while i < ps.len()
        invariant
            i <= ps@.len(),
            *ps == architecture.processors,
            domains_view(v@) == processor_domains(ps@.take(i as int)),
        decreases ps.len() - i,
    {
        proof {
            assert(ps@.take(i + 1).drop_last() =~= ps@.take(i as int));
            assert(ps@.take(i + 1).last() == ps@[i as int]);
        }
        if ps[i].axes.len() > 0 {
            let d = crate::arch::axis::clone_axes(ps[i].axes.as_slice());
            let ghost before = v@;
            v.push(d);
            proof { assert(domains_view(v@) =~= domains_view(before).push(ps@[i as int].axes@)); }
        }
        i += 1;
    }
    proof { assert(ps@.take(ps@.len() as int) =~= ps@); }
    let sorted = sort_domains(v);
    let mut out: Vec<Vec<Axis>> = Vec::new();
    let ghost sv = domains_view(sorted@);
    let mut j: usize = 0;
    proof { assert(domains_view(out@) =~= deduped(sv.take(0))); }
    while j < sorted.len()
        invariant
            j <= sorted@.len(),
            sv == domains_view(sorted@),
            domains_view(out@) == deduped(sv.take(j as int)),
        decreases sorted.len() - j,
    {
        proof {
            assert(sv.take(j + 1).drop_last() =~= sv.take(j as int));
            assert(sv.take(j + 1).last() == sorted@[j as int]@);
        }
        let keep = out.len() == 0 || !same_axes(out[out.len() - 1].as_slice(), sorted[j].as_slice());
        if keep {
            let d = crate::arch::axis::clone_axes(sorted[j].as_slice());
            let ghost before = out@;
            out.push(d);
            proof { assert(domains_view(out@) =~= domains_view(before).push(sorted@[j as int]@)); }
        }
        j += 1;
    }
    proof { assert(sv.take(sv.len() as int) =~= sv); }
    out
}

// ---------------------------------------------------------------------------
// Order of emission

/// `i` placed before the first index of `order` whose key is smaller.
pub open spec fn insert_desc(order: Seq<int>, keys: Seq<int>, i: int) -> Seq<int>
    decreases order.len(),
{
    if order.len() == 0 {
        seq![i]
    } else if keys[order[0]] < keys[i] {
        seq![i] + order
    } else {
        seq![order[0]] + insert_desc(order.drop_first(), keys, i)
    }
}

/// The indices `0..n` in a stable order of decreasing key.
pub open spec fn desc_order(keys: Seq<int>, n: int) -> Seq<int>
    decreases n,
{
    if n <= 0 { Seq::empty() } else { insert_desc(desc_order(keys, n - 1), keys, n - 1) }
}

pub open spec fn ints(v: Seq<usize>) -> Seq<int> {
    v.map_values(|x: usize| x as int)
}

/// The indices of `keys` in a stable order of decreasing key.
pub fn order_by_decreasing(keys: &Vec<usize>) -> (r: Vec<usize>)
    ensures
        ints(r@) == desc_order(ints(keys@), keys@.len() as int),
        forall|k: int| 0 <= k < r@.len() ==> (#[trigger] r@[k]) < keys@.len(),
{
    let ghost ks = ints(keys@);
    let mut out: Vec<usize> = Vec::new();
    let mut i: usize = 0;
    proof { assert(ints(out@) =~= Seq::<int>::empty()); }
    while i < keys.len()
        invariant
            i <= keys@.len(),
            ks == ints(keys@),
            ints(out@) == desc_order(ks, i as int),
            forall|k: int| 0 <= k < out@.len() ==> (#[trigger] out@[k]) < i,
        decreases keys.len() - i,
    {
        let ghost acc = ints(out@);
        let mut k: usize = 0;
        proof { assert(acc.skip(0) =~= acc); assert(acc.take(0) + acc =~= acc); }
        while k < out.len() && !(keys[out[k]] < keys[i])
            invariant
                k <= out@.len(),
                i < keys@.len(),
                ks == ints(keys@),
                acc == ints(out@),
                forall|q: int| 0 <= q < out@.len() ==> (#[trigger] out@[q]) < i,
                insert_desc(acc, ks, i as int) == acc.take(k as int) + insert_desc(acc.skip(k as int), ks, i as int),
            decreases out.len() - k,
        {
            proof {
                assert(acc.skip(k as int)[0] == out@[k as int] as int);
                assert(acc.skip(k as int).drop_first() =~= acc.skip(k + 1));
                assert(acc.take(k + 1) =~= acc.take(k as int).push(acc[k as int]));
                assert(acc.take(k as int) + (seq![acc[k as int]] + insert_desc(acc.skip(k + 1), ks, i as int))
                    =~= acc.take(k + 1) + insert_desc(acc.skip(k + 1), ks, i as int));
            }
            k += 1;
        }
        proof {
            if k < out@.len() {
                assert(acc.skip(k as int)[0] == out@[k as int] as int);
            } else {
                assert(acc.skip(k as int) =~= Seq::<int>::empty());
            }
        }
        out.insert(k, i);
        proof {
            assert(ints(out@) =~= acc.take(k as int) + (seq![i as int] + acc.skip(k as int)));
        }
        i += 1;
    }
    out
}

} // verus!

verus! {

// ---------------------------------------------------------------------------
// Processors

/// An emitted processor: its name, its SSA value and its domain.
pub type EmittedModel = (Seq<char>, Seq<char>, Seq<Axis>);

pub struct EmittedProcessor {
    pub name: String,
    pub ssa: String,
    pub domain: Vec<Axis>,
}

pub open spec fn emitted_view(e: EmittedProcessor) -> EmittedModel {
    (e.name@, e.ssa@, e.domain@)
}

pub open spec fn emitted_views(v: Seq<EmittedProcessor>) -> Seq<EmittedModel> {
    v.map_values(|e: EmittedProcessor| emitted_view(e))
}

/// Each port with the symbol of its endpoint's whole memory array.
pub open spec fn port_symbols(m: EmitterModel, a: Architecture, ports: Seq<ConnectionPort>) -> Result<Pairs, ExportErrorModel>
    decreases ports.len(),
{
    if ports.len() == 0 {
        Ok(Seq::empty())
    } else {
        match port_symbols(m, a, ports.drop_last()) {
            Err(e) => Err(e),
            Ok(acc) => match endpoint_symbol(m, a, ports.last().endpoint) {
                Err(e) => Err(e),
                Ok(s) => Ok(acc.push((ports.last().name@, s))),
            },
        }
    }
}

pub open spec fn route_problem() -> Seq<char> {
    "compatibility export needs both an input and an output, or neither"@
}

/// `from <input> to <output>` for a processor with ports, `[]` for one without.
pub open spec fn route_text(m: EmitterModel, a: Architecture, q: ProcessorArray) -> Result<Seq<char>, ExportErrorModel> {
    let ins = q.connection.inputs@;
    let outs = q.connection.outputs@;
    if ins.len() > 0 && outs.len() > 0 {
        match endpoint_ssa(m, a, ins[0].endpoint) {
            Err(e) => Err(e),
            Ok(i) => match endpoint_ssa(m, a, outs[0].endpoint) {
                Err(e) => Err(e),
                Ok(o) => Ok("from "@ + i + " to "@ + o),
            },
        }
    } else if ins.len() == 0 && outs.len() == 0 {
        Ok("[]"@)
    } else {
        Err(ExportErrorModel::InvalidConnection(q.name@, route_problem()))
    }
}

/// The SSA values of the resources that were emitted, in order.
pub open spec fn resource_values(rmap: Pairs, rs: Seq<Resource>) -> Seq<Seq<char>>
    decreases rs.len(),
{
    if rs.len() == 0 {
        Seq::empty()
    } else {
        let acc = resource_values(rmap, rs.drop_last());
        match lookup(rmap, rs.last().name@) {
            Some(v) => acc.push(v),
            None => acc,
        }
    }
}

pub open spec fn kind_text(t: ProcessorType) -> Seq<char> {
    match t {
        ProcessorType::Compute => "compute"@,
        ProcessorType::DataMover => "dmover"@,
    }
}

pub open spec fn type_of(d: ProcessorDefinition) -> ProcessorType {
    match d.processor_type {
        Some(t) => t,
        None => ProcessorType::Compute,
    }
}

pub open spec fn processor_line(v: Seq<char>, t: ProcessorType, module_name: Seq<char>, route: Seq<char>, res: Seq<Seq<char>>) -> Seq<char> {
    v + " = adl.processor."@ + kind_text(t) + " @"@ + module_name + ", "@ + route
        + (if res.len() == 0 { Seq::empty() } else { ", with ["@ + join(res, ", "@) + "]"@ }) + "\n"@
}

/// Emitting one processor array: the symbols of its ports, its lowered source module, its
/// route and its resources, then its `adl.processor.*` line.
pub open spec fn processor_step(m: EmitterModel, a: Architecture, q: ProcessorArray) -> Result<(EmitterModel, EmittedModel, Seq<char>), ExportErrorModel> {
    let d = first_def(a.processor_definitions@, q.definition@)->Some_0;
    match port_symbols(m, a, q.connection.inputs@) {
        Err(e) => Err(e),
        Ok(ins) => match port_symbols(m, a, q.connection.outputs@) {
            Err(e) => Err(e),
            Ok(outs) => {
                let module_name = prefixed_text("proc"@, q.name@);
                match lowered_source(d, q.name@, q.axes@, module_name, ins, outs) {
                    Err(r) => Err(ExportErrorModel::SourceLowering(q.name@, r)),
                    Ok(module) => match route_text(m, a, q) {
                        Err(e) => Err(e),
                        Ok(route) => {
                            let v = ssa(m.counter);
                            let res = resource_values(m.resources, q.resources@);
                            Ok((
                                EmitterModel { body: m.body + processor_line(v, type_of(d), module_name, route, res), ..take_ssa(m) },
                                (q.name@, v, q.axes@),
                                module,
                            ))
                        },
                    },
                }
            },
        },
    }
}

/// The processors emitted in turn, with the modules of their sources.
pub open spec fn processors_step(m: EmitterModel, a: Architecture, qs: Seq<ProcessorArray>)
    -> Result<(EmitterModel, Seq<EmittedModel>, Seq<Seq<char>>), ExportErrorModel>
    decreases qs.len(),
{
    if qs.len() == 0 {
        Ok((m, Seq::empty(), Seq::empty()))
    } else {
        match processors_step(m, a, qs.drop_last()) {
            Err(e) => Err(e),
            Ok((m1, es, mods)) => match processor_step(m1, a, qs.last()) {
                Err(e) => Err(e),
                Ok((m2, e, module)) => Ok((m2, es.push(e), mods.push(module))),
            },
        }
    }
}

/// The processors in the order they are emitted: more axes first, otherwise as placed.
pub open spec fn processor_order(a: Architecture) -> Seq<ProcessorArray> {
    let keys = a.processors@.map_values(|q: ProcessorArray| q.axes@.len() as int);
    desc_order(keys, a.processors@.len() as int).map_values(|i: int| a.processors@[i])
}

fn port_symbols_of(em: &Emitter, a: &Architecture, ports: &Vec<ConnectionPort>) -> (r: Result<Vec<(String, String)>, AdlExportError>)
    ensures
        match r {
            Ok(v) => port_symbols(em@, *a, ports@) == Ok::<Pairs, ExportErrorModel>(pairs_view(v@)),
            Err(e) => port_symbols(em@, *a, ports@) == Err::<Pairs, ExportErrorModel>(e@),
        },
{
    let mut out: Vec<(String, String)> = Vec::new();
    let mut i: usize = 0;
    proof { assert(pairs_view(out@) =~= Seq::<(Seq<char>, Seq<char>)>::empty()); assert(ports@.take(0) =~= Seq::<ConnectionPort>::empty()); }
    while i < ports.len()
        invariant
            i <= ports@.len(),
            port_symbols(em@, *a, ports@.take(i as int)) == Ok::<Pairs, ExportErrorModel>(pairs_view(out@)),
        decreases ports.len() - i,
    {
        proof {
            assert(ports@.take(i + 1).drop_last() =~= ports@.take(i as int));
            assert(ports@.take(i + 1).last() == ports@[i as int]);
        }
        match endpoint_memory_symbol(em, a, &ports[i].endpoint) {
            Ok(s) => {
                let ghost before = out@;
                out.push((ports[i].name.clone(), s));
                proof { assert(pairs_view(out@) =~= pairs_view(before).push((ports@[i as int].name@, out@.last().1@))); }
            },
            Err(e) => {
                proof { lemma_ports_sticky(em@, *a, ports@, i + 1); }
                return Err(e);
            },
        }
        i += 1;
    }
    proof { assert(ports@.take(ports@.len() as int) =~= ports@); }
    Ok(out)
}

proof fn lemma_ports_sticky(m: EmitterModel, a: Architecture, ps: Seq<ConnectionPort>, k: int)
    requires
        0 <= k <= ps.len(),
        port_symbols(m, a, ps.take(k)) is Err,
    ensures
        port_symbols(m, a, ps) == port_symbols(m, a, ps.take(k)),
    decreases ps.len(),
{
    if k == ps.len() {
        assert(ps.take(k) =~= ps);
    } else {
        assert(ps.drop_last().take(k) =~= ps.take(k));
        lemma_ports_sticky(m, a, ps.drop_last(), k);
    }
}

fn resource_values_of(em: &Emitter, rs: &Vec<Resource>) -> (r: Vec<String>)
    ensures
        texts(r@) == resource_values(em@.resources, rs@),
{
    let mut out: Vec<String> = Vec::new();
    let mut i: usize = 0;
    proof { assert(texts(out@) =~= Seq::<Seq<char>>::empty()); assert(rs@.take(0) =~= Seq::<Resource>::empty()); }
    while i < rs.len()
        invariant
            i <= rs@.len(),
            texts(out@) == resource_values(em@.resources, rs@.take(i as int)),
        decreases rs.len() - i,
    {
        proof {
            assert(rs@.take(i + 1).drop_last() =~= rs@.take(i as int));
            assert(rs@.take(i + 1).last() == rs@[i as int]);
        }
        match crate::mlir::export::find_named(&em.resource_ssa, rs[i].name.as_str()) {
            Some(k) => {
                let ghost before = out@;
                out.push(em.resource_ssa[k].1.clone());
                proof { assert(texts(out@) =~= texts(before).push(em.resource_ssa@[k as int].1@)); }
            },
            None => {},
        }
        i += 1;
    }
    proof { assert(rs@.take(rs@.len() as int) =~= rs@); }
    out
}

fn route_of(em: &Emitter, a: &Architecture, q: &ProcessorArray) -> (r: Result<String, AdlExportError>)
    ensures
        match r {
            Ok(t) => route_text(em@, *a, *q) == Ok::<Seq<char>, ExportErrorModel>(t@),
            Err(e) => route_text(em@, *a, *q) == Err::<Seq<char>, ExportErrorModel>(e@),
        },
{
    if q.connection.inputs.len() > 0 && q.connection.outputs.len() > 0 {
        let i = endpoint_memory_ssa(em, a, &q.connection.inputs[0].endpoint)?;
        let o = endpoint_memory_ssa(em, a, &q.connection.outputs[0].endpoint)?;
        let mut r = crate::text::owned("from ");
        push_str(&mut r, i.as_str());
        push_str(&mut r, " to ");
        push_str(&mut r, o.as_str());
        proof {
            reveal_strlit("from ");
            reveal_strlit(" to ");
        }
        Ok(r)
    } else if q.connection.inputs.len() == 0 && q.connection.outputs.len() == 0 {
        proof { reveal_strlit("[]"); }
        Ok(crate::text::owned("[]"))
    } else {
        proof { reveal_strlit("compatibility export needs both an input and an output, or neither"); }
        Err(AdlExportError::InvalidConnection {
            processor: q.name.clone(),
            reason: crate::text::owned("compatibility export needs both an input and an output, or neither"),
        })
    }
}

fn push_processor_line(em: &mut Emitter, t: ProcessorType, module_name: &str, route: &str, res: &Vec<String>) -> (v: String)
    ensures
        v@ == ssa(old(em)@.counter),
        final(em)@ == (EmitterModel { body: old(em)@.body + processor_line(v@, t, module_name@, route@, texts(res@)), ..take_ssa(old(em)@) }),
{
    let v = em.next_ssa();
    let ghost b0 = em.body@;
    push_str(&mut em.body, v.as_str());
    push_str(&mut em.body, " = adl.processor.");
    match t {
        ProcessorType::Compute => push_str(&mut em.body, "compute"),
        ProcessorType::DataMover => push_str(&mut em.body, "dmover"),
    }
    push_str(&mut em.body, " @");
    push_str(&mut em.body, module_name);
    push_str(&mut em.body, ", ");
    push_str(&mut em.body, route);
    if res.len() > 0 {
        push_str(&mut em.body, ", with [");
        push_join(&mut em.body, res, ", ");
        push_str(&mut em.body, "]");
    }
    push_str(&mut em.body, "\n");
    proof {
        reveal_strlit(" = adl.processor.");
        reveal_strlit("compute");
        reveal_strlit("dmover");
        reveal_strlit(" @");
        reveal_strlit(", ");
        reveal_strlit(", with [");
        reveal_strlit("]");
        reveal_strlit("\n");
        assert(em.body@ =~= b0 + processor_line(v@, t, module_name@, route@, texts(res@)));
    }
    v
}

/// Emits one processor array; returns it as emitted and its lowered source module.
fn emit_processor(em: &mut Emitter, a: &Architecture, q: &ProcessorArray) -> (r: Result<(EmittedProcessor, String), AdlExportError>)
    requires
        exists|j: int| 0 <= j < a.processor_definitions@.len() && (#[trigger] a.processor_definitions@[j]).name@ == q.definition@,
    ensures
        match r {
            Ok((e, module)) => processor_step(old(em)@, *a, *q)
                == Ok::<(EmitterModel, EmittedModel, Seq<char>), ExportErrorModel>((final(em)@, emitted_view(e), module@)),
            Err(x) => processor_step(old(em)@, *a, *q) == Err::<(EmitterModel, EmittedModel, Seq<char>), ExportErrorModel>(x@),
        },
{
    let d = match a.processor_definition(q.definition.as_str()) {
        Some(d) => d,
        None => {
            proof {
                let j = choose|j: int| 0 <= j < a.processor_definitions@.len() && (#[trigger] a.processor_definitions@[j]).name@ == q.definition@;
                assert(!((|d: ProcessorDefinition| d.name@ == q.definition@)(a.processor_definitions@[j])));
            }
            return vstd::pervasive::unreached();
        },
    };
    proof {
        let defs = a.processor_definitions@;
        let k = choose|k: int| first_where(defs, |x: ProcessorDefinition| x.name@ == q.definition@, k) && defs[k] == *d;
        assert forall|j: int| 0 <= j < k implies defs[j].name@ != q.definition@ by {
            assert(!((|x: ProcessorDefinition| x.name@ == q.definition@)(defs[j])));
        }
        crate::mlir::export::lemma_first_def_at(defs, q.definition@, k);
    }
    let t = match d.processor_type {
        Some(t) => t,
        None => ProcessorType::Compute,
    };
    let inputs = port_symbols_of(em, a, &q.connection.inputs)?;
    let outputs = port_symbols_of(em, a, &q.connection.outputs)?;
    let module_name = prefixed("proc", q.name.as_str());
    proof { reveal_strlit("proc"); }
    let module = match lower_processor_source(d, q.name.as_str(), q.axes.as_slice(), module_name.as_str(), &inputs, &outputs) {
        Ok(m) => m,
        Err(reason) => {
            return Err(AdlExportError::SourceLowering { processor: q.name.clone(), reason });
        },
    };
    let route = route_of(em, a, q)?;
    let res = resource_values_of(em, &q.resources);
    let v = push_processor_line(em, t, module_name.as_str(), route.as_str(), &res);
    let e = EmittedProcessor { name: q.name.clone(), ssa: v, domain: crate::arch::axis::clone_axes(q.axes.as_slice()) };
    Ok((e, module))
}

} // verus!

verus! {

// ---------------------------------------------------------------------------
// The hierarchy of scopes

/// The first axis named `n`.
pub open spec fn first_axis(axes: Seq<Axis>, n: Seq<char>) -> Option<Axis>
    decreases axes.len(),
{
    if axes.len() == 0 { None } else if axes[0].name@ == n { Some(axes[0]) } else { first_axis(axes.drop_first(), n) }
}

/// The axes of the given names.
pub open spec fn axes_named(axes: Seq<Axis>, names: Seq<Seq<char>>) -> Seq<Axis>
    decreases names.len(),
{
    if names.len() == 0 {
        Seq::empty()
    } else {
        let acc = axes_named(axes, names.drop_last());
        match first_axis(axes, names.last()) {
            Some(x) => acc.push(x),
            None => acc,
        }
    }
}

/// The first scope named `n`.
pub open spec fn scope_index(scopes: Seq<crate::arch::scope::Scope>, n: Seq<char>) -> Option<int>
    decreases scopes.len(),
{
    if scopes.len() == 0 {
        None
    } else if scopes[0].name@ == n {
        Some(0)
    } else {
        match scope_index(scopes.drop_first(), n) {
            Some(i) => Some(i + 1),
            None => None,
        }
    }
}

/// The first domain equal to `d`.
pub open spec fn domain_scope(ds: Seq<Seq<Axis>>, d: Seq<Axis>) -> Option<int>
    decreases ds.len(),
{
    if ds.len() == 0 {
        None
    } else if same_domain(ds[0], d) {
        Some(0)
    } else {
        match domain_scope(ds.drop_first(), d) {
            Some(i) => Some(i + 1),
            None => None,
        }
    }
}

/// The first scope that lists memory `n`.
pub open spec fn memory_scope(scopes: Seq<crate::arch::scope::Scope>, n: Seq<char>) -> Option<int>
    decreases scopes.len(),
{
    if scopes.len() == 0 {
        None
    } else if texts(scopes[0].memories@).contains(n) {
        Some(0)
    } else {
        match memory_scope(scopes.drop_first(), n) {
            Some(i) => Some(i + 1),
            None => None,
        }
    }
}

/// The SSA value of the first emitted processor named `n`; nothing where none is.
pub open spec fn emitted_ssa(es: Seq<EmittedModel>, n: Seq<char>) -> Seq<char>
    decreases es.len(),
{
    if es.len() == 0 { Seq::empty() } else if es[0].0 == n { es[0].1 } else { emitted_ssa(es.drop_first(), n) }
}

/// The deepest domain of `ds` before index `c`-on that is a strict prefix of domain `i`;
/// the last of equally deep ones.
pub open spec fn best_parent(ds: Seq<Seq<Axis>>, i: int, c: int, cur: Option<int>) -> Option<int>
    decreases ds.len() - c,
{
    if c < 0 || c >= ds.len() {
        cur
    } else {
        let cand = ds[c].len() < ds[i].len() && crate::mlir::export::domain_prefix(ds[c], ds[i]);
        if cand && (cur is None || ds[c].len() >= ds[cur->0].len()) {
            best_parent(ds, i, c + 1, Some(c))
        } else {
            best_parent(ds, i, c + 1, cur)
        }
    }
}

pub open spec fn explicit(a: Architecture) -> bool {
    a.scopes@.len() > 0
}

/// How many scopes are exported: the architecture's own, or one per domain.
pub open spec fn scope_count(a: Architecture, ds: Seq<Seq<Axis>>) -> int {
    if explicit(a) { a.scopes@.len() as int } else { ds.len() as int }
}

pub open spec fn scope_name(a: Architecture, ds: Seq<Seq<Axis>>, i: int) -> Seq<char> {
    if explicit(a) { a.scopes@[i].name@ } else { join(axis_names(ds[i]), "_"@) }
}

pub open spec fn scope_domain(a: Architecture, ds: Seq<Seq<Axis>>, i: int) -> Seq<Axis> {
    if explicit(a) { axes_named(a.axes@, texts(a.scopes@[i].axes@)) } else { ds[i] }
}

pub open spec fn scope_parent(a: Architecture, ds: Seq<Seq<Axis>>, i: int) -> Option<int> {
    if explicit(a) {
        match a.scopes@[i].parent {
            Some(p) => scope_index(a.scopes@, p@),
            None => None,
        }
    } else {
        best_parent(ds, i, 0, None)
    }
}

/// The scopes before `k` whose parent is `p`, in order.
pub open spec fn children_upto(a: Architecture, ds: Seq<Seq<Axis>>, p: int, k: int) -> Seq<int>
    decreases k,
{
    if k <= 0 {
        Seq::empty()
    } else {
        let acc = children_upto(a, ds, p, k - 1);
        if scope_parent(a, ds, k - 1) == Some(p) { acc.push(k - 1) } else { acc }
    }
}

pub open spec fn scope_children(a: Architecture, ds: Seq<Seq<Axis>>, p: int) -> Seq<int> {
    children_upto(a, ds, p, scope_count(a, ds))
}

/// The emitted processors whose domain is first that of scope `i`.
pub open spec fn domain_processors(ds: Seq<Seq<Axis>>, es: Seq<EmittedModel>, i: int) -> Seq<Seq<char>>
    decreases es.len(),
{
    if es.len() == 0 {
        Seq::empty()
    } else {
        let acc = domain_processors(ds, es.drop_last(), i);
        if domain_scope(ds, es.last().2) == Some(i) { acc.push(es.last().1) } else { acc }
    }
}

pub open spec fn scope_processors(a: Architecture, ds: Seq<Seq<Axis>>, es: Seq<EmittedModel>, i: int) -> Seq<Seq<char>> {
    if explicit(a) {
        texts(a.scopes@[i].processors@).map_values(|n: Seq<char>| emitted_ssa(es, n))
    } else {
        domain_processors(ds, es, i)
    }
}

/// The scope that owns a memory: the first that lists it, or the first of its domain.
pub open spec fn memory_owner(a: Architecture, ds: Seq<Seq<Axis>>, mem: MemoryArray) -> Option<int> {
    if explicit(a) { memory_scope(a.scopes@, mem.name@) } else { domain_scope(ds, mem.axes@) }
}

/// The memories of `ms` that scope `i` owns, by name.
pub open spec fn owned_names(a: Architecture, ds: Seq<Seq<Axis>>, ms: Seq<MemoryArray>, i: int) -> Seq<Seq<char>>
    decreases ms.len(),
{
    if ms.len() == 0 {
        Seq::empty()
    } else {
        let acc = owned_names(a, ds, ms.drop_last(), i);
        if memory_owner(a, ds, ms.last()) == Some(i) { acc.push(ms.last().name@) } else { acc }
    }
}

pub open spec fn scope_memories(a: Architecture, ds: Seq<Seq<Axis>>, i: int) -> Seq<Seq<char>> {
    if explicit(a) { texts(a.scopes@[i].memories@) } else { owned_names(a, ds, a.memories@, i) }
}

/// The rank of the first memory named `n`.
pub open spec fn rank_of(a: Architecture, n: Seq<char>) -> nat {
    match crate::mlir::export::first_memory(a.memories@, n) {
        Some(m) => m.axes@.len(),
        None => 0,
    }
}

pub open spec fn or_empty(o: Option<Seq<char>>) -> Seq<char> {
    match o {
        Some(v) => v,
        None => Seq::empty(),
    }
}

/// The memories a scope carries up from each child, in order.
pub open spec fn carried_of(carried: Seq<Seq<Seq<char>>>, cs: Seq<int>) -> Seq<Seq<char>>
    decreases cs.len(),
{
    if cs.len() == 0 { Seq::empty() } else { carried_of(carried, cs.drop_last()) + carried[cs.last()] }
}

/// The SSA values of a scope's own memories, at each memory's full rank.
pub open spec fn own_memory_values(a: Architecture, handles: Seq<((Seq<char>, nat), Seq<char>)>, names: Seq<Seq<char>>) -> Seq<Seq<char>> {
    names.map_values(|n: Seq<char>| or_empty(lookup(handles, (n, rank_of(a, n)))))
}

/// The memories that scope `idx` owns, as handles at the rank of its parent's domain.
pub open spec fn region_memories(a: Architecture, ds: Seq<Seq<Axis>>, handles: Seq<((Seq<char>, nat), Seq<char>)>, ms: Seq<MemoryArray>, idx: int, rank: nat)
    -> Result<Seq<Seq<char>>, ExportErrorModel>
    decreases ms.len(),
{
    if ms.len() == 0 {
        Ok(Seq::empty())
    } else {
        match region_memories(a, ds, handles, ms.drop_last(), idx, rank) {
            Err(e) => Err(e),
            Ok(acc) => if memory_owner(a, ds, ms.last()) == Some(idx) {
                match lookup(handles, (ms.last().name@, rank)) {
                    Some(v) => Ok(acc.push(v)),
                    None => Err(ExportErrorModel::UnsupportedScopeMemory(ms.last().name@, rank as int)),
                }
            } else {
                Ok(acc)
            },
        }
    }
}

pub type HierarchyState = (EmitterModel, Seq<Option<Seq<char>>>, Seq<Seq<Seq<char>>>);

pub open spec fn compose_line(v: Seq<char>, name: Seq<char>, values: Seq<Seq<char>>, mems: Seq<Seq<char>>) -> Seq<char> {
    v + " = adl.arch.compose \""@ + prefixed_text("arch"@, name) + "\", arch["@ + join(values, ", "@) + "], mem["@ + join(mems, ", "@) + "]\n"@
}

pub open spec fn scale_line(v: Seq<char>, name: Seq<char>, dims: Seq<Seq<char>>, element: Seq<char>, clause: Seq<char>) -> Seq<char> {
    v + " = adl.arch.scale \""@ + prefixed_text("arch"@, name) + "\", ["@ + join(dims, ", "@) + "] of "@ + element + clause + "\n"@
}

/// The length of the parent scope's domain.
pub open spec fn parent_len(a: Architecture, ds: Seq<Seq<Axis>>, idx: int) -> nat {
    match scope_parent(a, ds, idx) {
        Some(p) => scope_domain(a, ds, p).len(),
        None => 0,
    }
}

/// The part of a scope's domain below its parent's.
pub open spec fn own_axes(a: Architecture, ds: Seq<Seq<Axis>>, idx: int) -> Seq<Axis> {
    let d = scope_domain(a, ds, idx);
    let k = parent_len(a, ds, idx);
    if k <= d.len() { d.subrange(k as int, d.len() as int) } else { Seq::empty() }
}

/// Emitting one scope: the composition of its children, processors and memories, then
/// its scale over its own axes, with the one memory it holds directly where it has one.
pub open spec fn scope_step(st: HierarchyState, a: Architecture, ds: Seq<Seq<Axis>>, es: Seq<EmittedModel>, idx: int)
    -> Result<HierarchyState, ExportErrorModel> {
    let (m, outputs, carried) = st;
    let children = scope_children(a, ds, idx);
    let values = children.map_values(|c: int| or_empty(outputs[c])) + scope_processors(a, ds, es, idx);
    let mems = own_memory_values(a, m.handles, scope_memories(a, ds, idx)) + carried_of(carried, children);
    let name = scope_name(a, ds, idx);
    let element = ssa(m.counter);
    let m1 = EmitterModel { body: m.body + compose_line(element, name + "_element"@, values, mems), ..take_ssa(m) };
    let (m2, dims) = crate::mlir::export::dimensions_step(m1, own_axes(a, ds, idx));
    match region_memories(a, ds, m2.handles, a.memories@, idx, parent_len(a, ds, idx)) {
        Err(e) => Err(e),
        Ok(region) => {
            let clause = if region.len() == 1 { ", mem_region "@ + region[0] } else { Seq::empty() };
            let carried2 = if region.len() > 1 { carried.update(idx, region) } else { carried };
            let scaled = ssa(m2.counter);
            Ok((
                EmitterModel { body: m2.body + scale_line(scaled, name, dims, element, clause), ..take_ssa(m2) },
                outputs.update(idx, Some(scaled)),
                carried2,
            ))
        },
    }
}

pub open spec fn scopes_step(st: HierarchyState, a: Architecture, ds: Seq<Seq<Axis>>, es: Seq<EmittedModel>, order: Seq<int>)
    -> Result<HierarchyState, ExportErrorModel>
    decreases order.len(),
{
    if order.len() == 0 {
        Ok(st)
    } else {
        match scopes_step(st, a, ds, es, order.drop_last()) {
            Err(e) => Err(e),
            Ok(st1) => scope_step(st1, a, ds, es, order.last()),
        }
    }
}

/// The scopes in the order they are emitted: deeper first, otherwise in order.
pub open spec fn scope_order(a: Architecture, ds: Seq<Seq<Axis>>) -> Seq<int> {
    desc_order(Seq::new(scope_count(a, ds) as nat, |i: int| scope_domain(a, ds, i).len() as int), scope_count(a, ds))
}

/// The roots: outermost scopes, then processors that no scope holds.
pub open spec fn root_values(a: Architecture, ds: Seq<Seq<Axis>>, es: Seq<EmittedModel>, outputs: Seq<Option<Seq<char>>>, k: int) -> Seq<Seq<char>>
    decreases k,
{
    if k <= 0 {
        Seq::empty()
    } else {
        let acc = root_values(a, ds, es, outputs, k - 1);
        if scope_parent(a, ds, k - 1) is None { acc.push(or_empty(outputs[k - 1])) } else { acc }
    }
}

/// Whether some scope holds the processor value `v`.
pub open spec fn held(a: Architecture, ds: Seq<Seq<Axis>>, es: Seq<EmittedModel>, v: Seq<char>) -> bool {
    exists|i: int| 0 <= i < scope_count(a, ds) && scope_processors(a, ds, es, i).contains(v)
}

pub open spec fn loose_processors(a: Architecture, ds: Seq<Seq<Axis>>, es: Seq<EmittedModel>, k: Seq<EmittedModel>) -> Seq<Seq<char>>
    decreases k.len(),
{
    if k.len() == 0 {
        Seq::empty()
    } else {
        let acc = loose_processors(a, ds, es, k.drop_last());
        if held(a, ds, es, k.last().1) { acc } else { acc.push(k.last().1) }
    }
}

/// The memories no scope owns, as whole arrays.
pub open spec fn root_memories(a: Architecture, ds: Seq<Seq<Axis>>, handles: Seq<((Seq<char>, nat), Seq<char>)>, ms: Seq<MemoryArray>) -> Seq<Seq<char>>
    decreases ms.len(),
{
    if ms.len() == 0 {
        Seq::empty()
    } else {
        let acc = root_memories(a, ds, handles, ms.drop_last());
        if memory_owner(a, ds, ms.last()) is None { acc.push(or_empty(lookup(handles, (ms.last().name@, 0nat)))) } else { acc }
    }
}

/// The memories the outermost scopes carry up.
pub open spec fn root_carried(a: Architecture, ds: Seq<Seq<Axis>>, carried: Seq<Seq<Seq<char>>>, k: int) -> Seq<Seq<char>>
    decreases k,
{
    if k <= 0 {
        Seq::empty()
    } else {
        let acc = root_carried(a, ds, carried, k - 1);
        if scope_parent(a, ds, k - 1) is None { acc + carried[k - 1] } else { acc }
    }
}

/// The hierarchy emitted after the processors: every scope, deeper first, then the root
/// composition of the architecture.
pub open spec fn hierarchy_emitted(m: EmitterModel, a: Architecture, ds: Seq<Seq<Axis>>, es: Seq<EmittedModel>) -> Result<EmitterModel, ExportErrorModel> {
    let n = scope_count(a, ds);
    let st0: HierarchyState = (m, Seq::new(n as nat, |i: int| None::<Seq<char>>), Seq::new(n as nat, |i: int| Seq::<Seq<char>>::empty()));
    match scopes_step(st0, a, ds, es, scope_order(a, ds)) {
        Err(e) => Err(e),
        Ok((m1, outputs, carried)) => {
            let values = root_values(a, ds, es, outputs, n) + loose_processors(a, ds, es, es);
            let mems = root_memories(a, ds, m1.handles, a.memories@) + root_carried(a, ds, carried, n);
            let root = ssa(m1.counter);
            Ok(EmitterModel { body: m1.body + compose_line(root, a.name@, values, mems), ..take_ssa(m1) })
        },
    }
}

} // verus!

verus! {

fn find_axis(axes: &Vec<Axis>, n: &str) -> (r: Option<usize>)
    ensures
        match r {
            Some(i) => i < axes@.len() && first_axis(axes@, n@) == Some(axes@[i as int]),
            None => first_axis(axes@, n@) is None,
        },
{
    let mut i: usize = 0;
    proof { assert(axes@.skip(0) =~= axes@); }
    while i < axes.len()
        invariant
            i <= axes@.len(),
            first_axis(axes@, n@) == first_axis(axes@.skip(i as int), n@),
        decreases axes.len() - i,
    {
        proof { assert(axes@.skip(i as int).drop_first() =~= axes@.skip(i + 1)); }
        if str_eq(axes[i].name.as_str(), n) {
            return Some(i);
        }
        i += 1;
    }
    None
}

fn axes_named_of(axes: &Vec<Axis>, names: &Vec<String>) -> (r: Vec<Axis>)
    ensures
        r@ == axes_named(axes@, texts(names@)),
{
    let ghost ns = texts(names@);
    let mut out: Vec<Axis> = Vec::new();
    let mut i: usize = 0;
    proof { assert(ns.take(0) =~= Seq::<Seq<char>>::empty()); }
    while i < names.len()
        invariant
            i <= names@.len(),
            ns == texts(names@),
            out@ == axes_named(axes@, ns.take(i as int)),
        decreases names.len() - i,
    {
        proof {
            assert(ns.take(i + 1).drop_last() =~= ns.take(i as int));
            assert(ns.take(i + 1).last() == names@[i as int]@);
        }
        match find_axis(axes, names[i].as_str()) {
            Some(k) => { out.push(axes[k].clone()); },
            None => {},
        }
        i += 1;
    }
    proof { assert(ns.take(ns.len() as int) =~= ns); }
    out
}

fn find_scope(scopes: &Vec<crate::arch::scope::Scope>, n: &str) -> (r: Option<usize>)
    ensures
        match r {
            Some(i) => i < scopes@.len() && scope_index(scopes@, n@) == Some(i as int),
            None => scope_index(scopes@, n@) is None,
        },
{
    let mut i: usize = 0;
    proof { assert(scopes@.skip(0) =~= scopes@); }
    while i < scopes.len()
        invariant
            i <= scopes@.len(),
            scope_index(scopes@, n@) == match scope_index(scopes@.skip(i as int), n@) {
                Some(k) => Some(k + i),
                None => None,
            },
        decreases scopes.len() - i,
    {
        proof { assert(scopes@.skip(i as int).drop_first() =~= scopes@.skip(i + 1)); }
        if str_eq(scopes[i].name.as_str(), n) {
            return Some(i);
        }
        i += 1;
    }
    None
}

fn find_domain(ds: &Vec<Vec<Axis>>, d: &[Axis]) -> (r: Option<usize>)
    ensures
        match r {
            Some(i) => i < ds@.len() && domain_scope(domains_view(ds@), d@) == Some(i as int),
            None => domain_scope(domains_view(ds@), d@) is None,
        },
{
    let ghost dv = domains_view(ds@);
    let mut i: usize = 0;
    proof { assert(dv.skip(0) =~= dv); }
    while i < ds.len()
        invariant
            i <= ds@.len(),
            dv == domains_view(ds@),
            domain_scope(dv, d@) == match domain_scope(dv.skip(i as int), d@) {
                Some(k) => Some(k + i),
                None => None,
            },
        decreases ds.len() - i,
    {
        proof {
            assert(dv.skip(i as int)[0] == ds@[i as int]@);
            assert(dv.skip(i as int).drop_first() =~= dv.skip(i + 1));
        }
        if same_axes(ds[i].as_slice(), d) {
            return Some(i);
        }
        i += 1;
    }
    None
}

fn find_memory_scope(scopes: &Vec<crate::arch::scope::Scope>, n: &str) -> (r: Option<usize>)
    ensures
        match r {
            Some(i) => i < scopes@.len() && memory_scope(scopes@, n@) == Some(i as int),
            None => memory_scope(scopes@, n@) is None,
        },
{
    let mut i: usize = 0;
    proof { assert(scopes@.skip(0) =~= scopes@); }
    while i < scopes.len()
        invariant
            i <= scopes@.len(),
            memory_scope(scopes@, n@) == match memory_scope(scopes@.skip(i as int), n@) {
                Some(k) => Some(k + i),
                None => None,
            },
        decreases scopes.len() - i,
    {
        proof { assert(scopes@.skip(i as int).drop_first() =~= scopes@.skip(i + 1)); }
        if crate::mlir::adl_lower::contains_text(&scopes[i].memories, n) {
            return Some(i);
        }
        i += 1;
    }
    None
}

fn find_emitted_ssa(es: &Vec<EmittedProcessor>, n: &str) -> (r: String)
    ensures
        r@ == emitted_ssa(emitted_views(es@), n@),
{
    let ghost ev = emitted_views(es@);
    let mut i: usize = 0;
    proof { assert(ev.skip(0) =~= ev); }
    while i < es.len()
        invariant
            i <= es@.len(),
            ev == emitted_views(es@),
            emitted_ssa(ev, n@) == emitted_ssa(ev.skip(i as int), n@),
        decreases es.len() - i,
    {
        proof {
            assert(ev.skip(i as int)[0] == emitted_view(es@[i as int]));
            assert(ev.skip(i as int).drop_first() =~= ev.skip(i + 1));
        }
        if str_eq(es[i].name.as_str(), n) {
            return es[i].ssa.clone();
        }
        i += 1;
    }
    proof { assert(ev.skip(i as int) =~= Seq::<EmittedModel>::empty()); }
    String::new()
}

/// The per-scope facts of the export, each as the spec functions give them.
pub struct ScopeTable {
    pub names: Vec<String>,
    pub domains: Vec<Vec<Axis>>,
    pub parents: Vec<Option<usize>>,
    pub children: Vec<Vec<usize>>,
    pub processors: Vec<Vec<String>>,
    pub memories: Vec<Vec<String>>,
    pub owners: Vec<Option<usize>>,
}

pub open spec fn opt_int(o: Option<usize>) -> Option<int> {
    match o {
        Some(x) => Some(x as int),
        None => None,
    }
}

pub open spec fn table_ok(t: ScopeTable, a: Architecture, ds: Seq<Seq<Axis>>, es: Seq<EmittedModel>) -> bool {
    let n = scope_count(a, ds);
    &&& t.names@.len() == n && t.domains@.len() == n && t.parents@.len() == n && t.children@.len() == n
    &&& t.processors@.len() == n && t.memories@.len() == n
    &&& t.owners@.len() == a.memories@.len()
    &&& forall|i: int| 0 <= i < n ==> (#[trigger] t.names@[i])@ == scope_name(a, ds, i)
    &&& forall|i: int| 0 <= i < n ==> (#[trigger] t.domains@[i])@ == scope_domain(a, ds, i)
    &&& forall|i: int| 0 <= i < n ==> opt_int(#[trigger] t.parents@[i]) == scope_parent(a, ds, i)
    &&& forall|i: int| 0 <= i < n ==> ints((#[trigger] t.children@[i])@) == scope_children(a, ds, i)
    &&& forall|i: int| 0 <= i < n ==> texts((#[trigger] t.processors@[i])@) == scope_processors(a, ds, es, i)
    &&& forall|i: int| 0 <= i < n ==> texts((#[trigger] t.memories@[i])@) == scope_memories(a, ds, i)
    &&& forall|k: int| 0 <= k < a.memories@.len() ==> opt_int(#[trigger] t.owners@[k]) == memory_owner(a, ds, a.memories@[k])
    &&& forall|i: int| 0 <= i < n ==> ((#[trigger] t.parents@[i]) matches Some(p) ==> p < n)
    &&& forall|i: int, j: int| 0 <= i < n && 0 <= j < t.children@[i]@.len() ==> (#[trigger] t.children@[i]@[j]) < n
}

fn best_parent_of(ds: &Vec<Vec<Axis>>, i: usize) -> (r: Option<usize>)
    requires
        i < ds@.len(),
    ensures
        opt_int(r) == best_parent(domains_view(ds@), i as int, 0, None),
        r matches Some(p) ==> p < ds@.len(),
{
    let ghost dv = domains_view(ds@);
    let mut cur: Option<usize> = None;
    let mut c: usize = 0;
    while c < ds.len()
        invariant
            c <= ds@.len(),
            i < ds@.len(),
            dv == domains_view(ds@),
            best_parent(dv, i as int, 0, None) == best_parent(dv, i as int, c as int, opt_int(cur)),
            cur matches Some(p) ==> p < ds@.len(),
        decreases ds.len() - c,
    {
        let cand = ds[c].len() < ds[i].len() && crate::mlir::export::is_domain_prefix(ds[c].as_slice(), ds[i].as_slice());
        let better = match cur {
            None => true,
            Some(p) => ds[c].len() >= ds[p].len(),
        };
        if cand && better {
            cur = Some(c);
        }
        c += 1;
    }
    cur
}

fn children_of_scope(parents: &Vec<Option<usize>>, p: usize, Ghost(a): Ghost<Architecture>, Ghost(ds): Ghost<Seq<Seq<Axis>>>) -> (r: Vec<usize>)
    requires
        parents@.len() == scope_count(a, ds),
        forall|i: int| 0 <= i < parents@.len() ==> opt_int(#[trigger] parents@[i]) == scope_parent(a, ds, i),
    ensures
        ints(r@) == scope_children(a, ds, p as int),
        forall|j: int| 0 <= j < r@.len() ==> (#[trigger] r@[j]) < parents@.len(),
{
    let mut out: Vec<usize> = Vec::new();
    let mut k: usize = 0;
    proof { assert(ints(out@) =~= Seq::<int>::empty()); }
    while k < parents.len()
        invariant
            k <= parents@.len(),
            parents@.len() == scope_count(a, ds),
            forall|i: int| 0 <= i < parents@.len() ==> opt_int(#[trigger] parents@[i]) == scope_parent(a, ds, i),
            ints(out@) == children_upto(a, ds, p as int, k as int),
            forall|j: int| 0 <= j < out@.len() ==> (#[trigger] out@[j]) < k,
        decreases parents.len() - k,
    {
        let is_child = match parents[k] {
            Some(q) => q == p,
            None => false,
        };
        proof { assert(opt_int(parents@[k as int]) == scope_parent(a, ds, k as int)); }
        if is_child {
            let ghost before = out@;
            out.push(k);
            proof { assert(ints(out@) =~= ints(before).push(k as int)); }
        }
        k += 1;
    }
    out
}

} // verus!

verus! {

fn scope_name_of(a: &Architecture, ds: &Vec<Vec<Axis>>, i: usize) -> (r: String)
    requires
        i < scope_count(*a, domains_view(ds@)),
    ensures
        r@ == scope_name(*a, domains_view(ds@), i as int),
{
    if a.scopes.len() > 0 {
        a.scopes[i].name.clone()
    } else {
        let d = &ds[i];
        let mut names: Vec<String> = Vec::new();
        let mut k: usize = 0;
        while k < d.len()
            invariant
                k <= d@.len(),
                *d == ds@[i as int],
                texts(names@) == axis_names(d@).take(k as int),
            decreases d.len() - k,
        {
            let ghost before = names@;
            names.push(d[k].name.clone());
            proof {
                assert(texts(names@) =~= texts(before).push(d@[k as int].name@));
                assert(axis_names(d@).take(k + 1) =~= axis_names(d@).take(k as int).push(d@[k as int].name@));
            }
            k += 1;
        }
        proof { assert(axis_names(d@).take(d@.len() as int) =~= axis_names(d@)); }
        let mut s = String::new();
        push_join(&mut s, &names, "_");
        proof { reveal_strlit("_"); assert(s@ =~= join(axis_names(ds@[i as int]@), "_"@)); }
        s
    }
}

fn scope_processors_of(a: &Architecture, ds: &Vec<Vec<Axis>>, es: &Vec<EmittedProcessor>, i: usize) -> (r: Vec<String>)
    requires
        i < scope_count(*a, domains_view(ds@)),
    ensures
        texts(r@) == scope_processors(*a, domains_view(ds@), emitted_views(es@), i as int),
{
    let ghost ev = emitted_views(es@);
    let mut out: Vec<String> = Vec::new();
    if a.scopes.len() > 0 {
        let names = &a.scopes[i].processors;
        let mut k: usize = 0;
        while k < names.len()
            invariant
                k <= names@.len(),
                *names == a.scopes@[i as int].processors,
                ev == emitted_views(es@),
                texts(out@) == texts(names@).take(k as int).map_values(|n: Seq<char>| emitted_ssa(ev, n)),
            decreases names.len() - k,
        {
            let v = find_emitted_ssa(es, names[k].as_str());
            let ghost before = out@;
            out.push(v);
            proof {
                assert(texts(out@) =~= texts(before).push(emitted_ssa(ev, names@[k as int]@)));
                assert(texts(names@).take(k + 1).map_values(|n: Seq<char>| emitted_ssa(ev, n))
                    =~= texts(names@).take(k as int).map_values(|n: Seq<char>| emitted_ssa(ev, n)).push(emitted_ssa(ev, names@[k as int]@)));
            }
            k += 1;
        }
        proof { assert(texts(names@).take(names@.len() as int) =~= texts(names@)); }
        out
    } else {
        let mut k: usize = 0;
        proof { assert(texts(out@) =~= domain_processors(domains_view(ds@), ev.take(0), i as int)); }
        while k < es.len()
            invariant
                k <= es@.len(),
                ev == emitted_views(es@),
                texts(out@) == domain_processors(domains_view(ds@), ev.take(k as int), i as int),
            decreases es.len() - k,
        {
            proof {
                assert(ev.take(k + 1).drop_last() =~= ev.take(k as int));
                assert(ev.take(k + 1).last() == emitted_view(es@[k as int]));
            }
            match find_domain(ds, es[k].domain.as_slice()) {
                Some(j) => {
                    if j == i {
                        let ghost before = out@;
                        out.push(es[k].ssa.clone());
                        proof { assert(texts(out@) =~= texts(before).push(es@[k as int].ssa@)); }
                    }
                },
                None => {},
            }
            k += 1;
        }
        proof { assert(ev.take(ev.len() as int) =~= ev); }
        out
    }
}

fn memory_owner_of(a: &Architecture, ds: &Vec<Vec<Axis>>, m: &MemoryArray) -> (r: Option<usize>)
    ensures
        opt_int(r) == memory_owner(*a, domains_view(ds@), *m),
        r matches Some(i) ==> i < scope_count(*a, domains_view(ds@)),
{
    if a.scopes.len() > 0 {
        find_memory_scope(&a.scopes, m.name.as_str())
    } else {
        find_domain(ds, m.axes.as_slice())
    }
}

/// The scopes of the export and what each holds.
pub fn scope_table(a: &Architecture, ds: &Vec<Vec<Axis>>, es: &Vec<EmittedProcessor>) -> (t: ScopeTable)
    ensures
        table_ok(t, *a, domains_view(ds@), emitted_views(es@)),
{
    let ghost dv = domains_view(ds@);
    let ghost ev = emitted_views(es@);
    let n = if a.scopes.len() > 0 { a.scopes.len() } else { ds.len() };
    let mut names: Vec<String> = Vec::new();
    let mut domains: Vec<Vec<Axis>> = Vec::new();
    let mut parents: Vec<Option<usize>> = Vec::new();
    let mut processors: Vec<Vec<String>> = Vec::new();
    let mut i: usize = 0;
    while i < n
        invariant
            i <= n,
            n == scope_count(*a, dv),
            dv == domains_view(ds@),
            ev == emitted_views(es@),
            names@.len() == i && domains@.len() == i && parents@.len() == i && processors@.len() == i,
            forall|j: int| 0 <= j < i ==> (#[trigger] names@[j])@ == scope_name(*a, dv, j),
            forall|j: int| 0 <= j < i ==> (#[trigger] domains@[j])@ == scope_domain(*a, dv, j),
            forall|j: int| 0 <= j < i ==> opt_int(#[trigger] parents@[j]) == scope_parent(*a, dv, j),
            forall|j: int| 0 <= j < i ==> ((#[trigger] parents@[j]) matches Some(p) ==> p < n),
            forall|j: int| 0 <= j < i ==> texts((#[trigger] processors@[j])@) == scope_processors(*a, dv, ev, j),
        decreases n - i,
    {
        names.push(scope_name_of(a, ds, i));
        if a.scopes.len() > 0 {
            domains.push(axes_named_of(&a.axes, &a.scopes[i].axes));
            let p = match &a.scopes[i].parent {
                Some(pn) => find_scope(&a.scopes, pn.as_str()),
                None => None,
            };
            parents.push(p);
        } else {
            domains.push(crate::arch::axis::clone_axes(ds[i].as_slice()));
            parents.push(best_parent_of(ds, i));
        }
        processors.push(scope_processors_of(a, ds, es, i));
        i += 1;
    }
    let mut children: Vec<Vec<usize>> = Vec::new();
    let mut p: usize = 0;
    while p < n
        invariant
            p <= n,
            n == scope_count(*a, dv),
            parents@.len() == n,
            forall|j: int| 0 <= j < parents@.len() ==> opt_int(#[trigger] parents@[j]) == scope_parent(*a, dv, j),
            children@.len() == p,
            forall|j: int| 0 <= j < p ==> ints((#[trigger] children@[j])@) == scope_children(*a, dv, j),
            forall|j: int, k: int| 0 <= j < p && 0 <= k < children@[j]@.len() ==> (#[trigger] children@[j]@[k]) < n,
        decreases n - p,
    {
        children.push(children_of_scope(&parents, p, Ghost(*a), Ghost(dv)));
        p += 1;
    }
    let mut owners: Vec<Option<usize>> = Vec::new();
    let mut k: usize = 0;
    while k < a.memories.len()
        invariant
            k <= a.memories@.len(),
            dv == domains_view(ds@),
            n == scope_count(*a, dv),
            owners@.len() == k,
            forall|q: int| 0 <= q < k ==> opt_int(#[trigger] owners@[q]) == memory_owner(*a, dv, a.memories@[q]),
        decreases a.memories.len() - k,
    {
        owners.push(memory_owner_of(a, ds, &a.memories[k]));
        k += 1;
    }
    let mut memories: Vec<Vec<String>> = Vec::new();
    let mut i: usize = 0;
    while i < n
        invariant
            i <= n,
            n == scope_count(*a, dv),
            owners@.len() == a.memories@.len(),
            forall|q: int| 0 <= q < a.memories@.len() ==> opt_int(#[trigger] owners@[q]) == memory_owner(*a, dv, a.memories@[q]),
            memories@.len() == i,
            forall|j: int| 0 <= j < i ==> texts((#[trigger] memories@[j])@) == scope_memories(*a, dv, j),
        decreases n - i,
    {
        if a.scopes.len() > 0 {
            memories.push(crate::text::clone_strings(a.scopes[i].memories.as_slice()));
        } else {
            let mut own: Vec<String> = Vec::new();
            let mut q: usize = 0;
            proof { assert(texts(own@) =~= owned_names(*a, dv, a.memories@.take(0), i as int)); }
            while q < a.memories.len()
                invariant
                    q <= a.memories@.len(),
                    owners@.len() == a.memories@.len(),
                    forall|x: int| 0 <= x < a.memories@.len() ==> opt_int(#[trigger] owners@[x]) == memory_owner(*a, dv, a.memories@[x]),
                    texts(own@) == owned_names(*a, dv, a.memories@.take(q as int), i as int),
                decreases a.memories.len() - q,
            {
                proof {
                    assert(a.memories@.take(q + 1).drop_last() =~= a.memories@.take(q as int));
                    assert(a.memories@.take(q + 1).last() == a.memories@[q as int]);
                    assert(opt_int(owners@[q as int]) == memory_owner(*a, dv, a.memories@[q as int]));
                }
                if owners[q] == Some(i) {
                    let ghost before = own@;
                    own.push(a.memories[q].name.clone());
                    proof { assert(texts(own@) =~= texts(before).push(a.memories@[q as int].name@)); }
                }
                q += 1;
            }
            proof { assert(a.memories@.take(a.memories@.len() as int) =~= a.memories@); }
            memories.push(own);
        }
        i += 1;
    }
    ScopeTable { names, domains, parents, children, processors, memories, owners }
}

} // verus!

verus! {

pub open spec fn outputs_view(v: Seq<Option<String>>) -> Seq<Option<Seq<char>>> {
    v.map_values(|o: Option<String>| match o { Some(s) => Some(s@), None => None })
}

pub open spec fn carried_view(v: Seq<Vec<String>>) -> Seq<Seq<Seq<char>>> {
    v.map_values(|x: Vec<String>| texts(x@))
}

fn rank_of_memory(a: &Architecture, n: &str) -> (r: usize)
    ensures
        r as nat == rank_of(*a, n@),
{
    let ms = &a.memories;
    let mut i: usize = 0;
    proof { assert(ms@.skip(0) =~= ms@); }
    while i < ms.len()
        invariant
            i <= ms@.len(),
            *ms == a.memories,
            crate::mlir::export::first_memory(ms@, n@) == crate::mlir::export::first_memory(ms@.skip(i as int), n@),
        decreases ms.len() - i,
    {
        proof { assert(ms@.skip(i as int).drop_first() =~= ms@.skip(i + 1)); }
        if str_eq(ms[i].name.as_str(), n) {
            return ms[i].axes.len();
        }
        i += 1;
    }
    proof { assert(ms@.skip(i as int) =~= Seq::<MemoryArray>::empty()); }
    0
}

fn handle_or_empty(em: &Emitter, n: &str, rank: usize) -> (r: String)
    ensures
        r@ == or_empty(lookup(em@.handles, (n@, rank as nat))),
{
    match crate::mlir::export::find_keyed(&em.memory_handle_ssa, n, rank) {
        Some(i) => em.memory_handle_ssa[i].1.clone(),
        None => String::new(),
    }
}

/// Emits the dimensions of `axes` in order; returns their SSA values.
pub fn emit_dimensions(em: &mut Emitter, axes: &Vec<Axis>) -> (r: Vec<String>)
    ensures
        (final(em)@, texts(r@)) == crate::mlir::export::dimensions_step(old(em)@, axes@),
{
    let mut out: Vec<String> = Vec::new();
    let mut j: usize = 0;
    proof { assert(axes@.take(0) =~= Seq::<Axis>::empty()); assert(texts(out@) =~= Seq::<Seq<char>>::empty()); }
    while j < axes.len()
        invariant
            j <= axes@.len(),
            (em@, texts(out@)) == crate::mlir::export::dimensions_step(old(em)@, axes@.take(j as int)),
        decreases axes.len() - j,
    {
        proof {
            assert(axes@.take(j + 1).drop_last() =~= axes@.take(j as int));
            assert(axes@.take(j + 1).last() == axes@[j as int]);
        }
        let v = em.emit_dimension(axes[j].name.as_str(), axes[j].extent);
        let ghost before = out@;
        out.push(v);
        proof { assert(texts(out@) =~= texts(before).push(out@.last()@)); }
        j += 1;
    }
    proof { assert(axes@.take(axes@.len() as int) =~= axes@); }
    out
}

fn push_compose(em: &mut Emitter, v: &str, name: &str, values: &Vec<String>, mems: &Vec<String>)
    ensures
        final(em)@ == (EmitterModel { body: old(em)@.body + compose_line(v@, name@, texts(values@), texts(mems@)), ..old(em)@ }),
{
    let ghost b0 = em.body@;
    push_str(&mut em.body, v);
    push_str(&mut em.body, " = adl.arch.compose \"");
    let p = prefixed("arch", name);
    push_str(&mut em.body, p.as_str());
    push_str(&mut em.body, "\", arch[");
    push_join(&mut em.body, values, ", ");
    push_str(&mut em.body, "], mem[");
    push_join(&mut em.body, mems, ", ");
    push_str(&mut em.body, "]\n");
    proof {
        reveal_strlit(" = adl.arch.compose \"");
        reveal_strlit("arch");
        reveal_strlit("\", arch[");
        reveal_strlit("], mem[");
        reveal_strlit("]\n");
        assert(em.body@ =~= b0 + compose_line(v@, name@, texts(values@), texts(mems@)));
    }
}

fn push_scale(em: &mut Emitter, v: &str, name: &str, dims: &Vec<String>, element: &str, clause: &str)
    ensures
        final(em)@ == (EmitterModel { body: old(em)@.body + scale_line(v@, name@, texts(dims@), element@, clause@), ..old(em)@ }),
{
    let ghost b0 = em.body@;
    push_str(&mut em.body, v);
    push_str(&mut em.body, " = adl.arch.scale \"");
    let p = prefixed("arch", name);
    push_str(&mut em.body, p.as_str());
    push_str(&mut em.body, "\", [");
    push_join(&mut em.body, dims, ", ");
    push_str(&mut em.body, "] of ");
    push_str(&mut em.body, element);
    push_str(&mut em.body, clause);
    push_str(&mut em.body, "\n");
    proof {
        reveal_strlit(" = adl.arch.scale \"");
        reveal_strlit("arch");
        reveal_strlit("\", [");
        reveal_strlit("] of ");
        reveal_strlit("\n");
        assert(em.body@ =~= b0 + scale_line(v@, name@, texts(dims@), element@, clause@));
    }
}

proof fn lemma_region_sticky(a: Architecture, ds: Seq<Seq<Axis>>, h: Seq<((Seq<char>, nat), Seq<char>)>, ms: Seq<MemoryArray>, idx: int, rank: nat, k: int)
    requires
        0 <= k <= ms.len(),
        region_memories(a, ds, h, ms.take(k), idx, rank) is Err,
    ensures
        region_memories(a, ds, h, ms, idx, rank) == region_memories(a, ds, h, ms.take(k), idx, rank),
    decreases ms.len(),
{
    if k == ms.len() {
        assert(ms.take(k) =~= ms);
    } else {
        assert(ms.drop_last().take(k) =~= ms.take(k));
        lemma_region_sticky(a, ds, h, ms.drop_last(), idx, rank, k);
    }
}

fn region_of(em: &Emitter, a: &Architecture, t: &ScopeTable, idx: usize, rank: usize, Ghost(ds): Ghost<Seq<Seq<Axis>>>, Ghost(es): Ghost<Seq<EmittedModel>>)
    -> (r: Result<Vec<String>, AdlExportError>)
    requires
        table_ok(*t, *a, ds, es),
    ensures
        match r {
            Ok(v) => region_memories(*a, ds, em@.handles, a.memories@, idx as int, rank as nat) == Ok::<Seq<Seq<char>>, ExportErrorModel>(texts(v@)),
            Err(e) => region_memories(*a, ds, em@.handles, a.memories@, idx as int, rank as nat) == Err::<Seq<Seq<char>>, ExportErrorModel>(e@),
        },
{
    let ghost ms = a.memories@;
    let mut out: Vec<String> = Vec::new();
    let mut k: usize = 0;
    proof { assert(ms.take(0) =~= Seq::<MemoryArray>::empty()); assert(texts(out@) =~= Seq::<Seq<char>>::empty()); }
    while k < a.memories.len()
        invariant
            k <= ms.len(),
            ms == a.memories@,
            table_ok(*t, *a, ds, es),
            region_memories(*a, ds, em@.handles, ms.take(k as int), idx as int, rank as nat) == Ok::<Seq<Seq<char>>, ExportErrorModel>(texts(out@)),
        decreases a.memories.len() - k,
    {
        proof {
            assert(ms.take(k + 1).drop_last() =~= ms.take(k as int));
            assert(ms.take(k + 1).last() == ms[k as int]);
            assert(opt_int(t.owners@[k as int]) == memory_owner(*a, ds, ms[k as int]));
        }
        if t.owners[k] == Some(idx) {
            match crate::mlir::export::find_keyed(&em.memory_handle_ssa, a.memories[k].name.as_str(), rank) {
                Some(i) => {
                    let ghost before = out@;
                    out.push(em.memory_handle_ssa[i].1.clone());
                    proof { assert(texts(out@) =~= texts(before).push(em.memory_handle_ssa@[i as int].1@)); }
                },
                None => {
                    proof { lemma_region_sticky(*a, ds, em@.handles, ms, idx as int, rank as nat, k + 1); }
                    return Err(AdlExportError::UnsupportedScopeMemory { memory: a.memories[k].name.clone(), rank });
                },
            }
        }
        k += 1;
    }
    proof { assert(ms.take(ms.len() as int) =~= ms); }
    Ok(out)
}

} // verus!

verus! {

fn scope_values(t: &ScopeTable, outputs: &Vec<Option<String>>, idx: usize, Ghost(n): Ghost<int>) -> (r: Vec<String>)
    requires
        idx < n,
        t.children@.len() == n,
        t.processors@.len() == n,
        outputs@.len() == n,
        forall|i: int, j: int| 0 <= i < n && 0 <= j < t.children@[i]@.len() ==> (#[trigger] t.children@[i]@[j]) < n,
    ensures
        texts(r@) == ints(t.children@[idx as int]@).map_values(|c: int| or_empty(outputs_view(outputs@)[c]))
            + texts(t.processors@[idx as int]@),
{
    let cs = &t.children[idx];
    let ghost ov = outputs_view(outputs@);
    let ghost ci = ints(cs@);
    let mut out: Vec<String> = Vec::new();
    let mut j: usize = 0;
    proof { assert(texts(out@) =~= ci.take(0).map_values(|c: int| or_empty(ov[c]))); }
    while j < cs.len()
        invariant
            j <= cs@.len(),
            *cs == t.children@[idx as int],
            ci == ints(cs@),
            ov == outputs_view(outputs@),
            outputs@.len() == n,
            forall|q: int| 0 <= q < cs@.len() ==> (#[trigger] cs@[q]) < n,
            texts(out@) == ci.take(j as int).map_values(|c: int| or_empty(ov[c])),
        decreases cs.len() - j,
    {
        let c = cs[j];
        let v = match &outputs[c] {
            Some(s) => s.clone(),
            None => String::new(),
        };
        let ghost before = out@;
        out.push(v);
        proof {
            assert(ov[c as int] == match outputs@[c as int] { Some(s) => Some(s@), None => None::<Seq<char>> });
            assert(texts(out@) =~= texts(before).push(or_empty(ov[c as int])));
            assert(ci.take(j + 1).map_values(|c: int| or_empty(ov[c])) =~= ci.take(j as int).map_values(|c: int| or_empty(ov[c])).push(or_empty(ov[ci[j as int]])));
        }
        j += 1;
    }
    proof { assert(ci.take(ci.len() as int) =~= ci); }
    let ps = &t.processors[idx];
    let ghost mid = out@;
    let mut k: usize = 0;
    while k < ps.len()
        invariant
            k <= ps@.len(),
            *ps == t.processors@[idx as int],
            texts(out@) == texts(mid) + texts(ps@).take(k as int),
        decreases ps.len() - k,
    {
        let ghost before = out@;
        out.push(ps[k].clone());
        proof {
            assert(texts(out@) =~= texts(before).push(ps@[k as int]@));
            assert(texts(ps@).take(k + 1) =~= texts(ps@).take(k as int).push(ps@[k as int]@));
        }
        k += 1;
    }
    proof { assert(texts(ps@).take(ps@.len() as int) =~= texts(ps@)); }
    out
}

fn scope_memory_values(em: &Emitter, a: &Architecture, t: &ScopeTable, carried: &Vec<Vec<String>>, idx: usize, Ghost(n): Ghost<int>) -> (r: Vec<String>)
    requires
        idx < n,
        t.children@.len() == n,
        t.memories@.len() == n,
        carried@.len() == n,
        forall|i: int, j: int| 0 <= i < n && 0 <= j < t.children@[i]@.len() ==> (#[trigger] t.children@[i]@[j]) < n,
    ensures
        texts(r@) == own_memory_values(*a, em@.handles, texts(t.memories@[idx as int]@))
            + carried_of(carried_view(carried@), ints(t.children@[idx as int]@)),
{
    let ms = &t.memories[idx];
    let ghost mv = texts(ms@);
    let mut out: Vec<String> = Vec::new();
    let mut j: usize = 0;
    proof { assert(texts(out@) =~= own_memory_values(*a, em@.handles, mv.take(0))); }
    while j < ms.len()
        invariant
            j <= ms@.len(),
            *ms == t.memories@[idx as int],
            mv == texts(ms@),
            texts(out@) == own_memory_values(*a, em@.handles, mv.take(j as int)),
        decreases ms.len() - j,
    {
        let rank = rank_of_memory(a, ms[j].as_str());
        let v = handle_or_empty(em, ms[j].as_str(), rank);
        let ghost before = out@;
        out.push(v);
        proof {
            assert(texts(out@) =~= texts(before).push(v@));
            assert(mv.take(j + 1) =~= mv.take(j as int).push(mv[j as int]));
            assert(own_memory_values(*a, em@.handles, mv.take(j + 1)) =~= own_memory_values(*a, em@.handles, mv.take(j as int)).push(v@));
        }
        j += 1;
    }
    proof { assert(mv.take(mv.len() as int) =~= mv); }
    let cs = &t.children[idx];
    let ghost ci = ints(cs@);
    let ghost cv = carried_view(carried@);
    let ghost mid = texts(out@);
    let mut k: usize = 0;
    proof { assert(carried_of(cv, ci.take(0)) =~= Seq::<Seq<char>>::empty()); assert(texts(out@) =~= mid + carried_of(cv, ci.take(0))); }
    while k < cs.len()
        invariant
            k <= cs@.len(),
            *cs == t.children@[idx as int],
            ci == ints(cs@),
            cv == carried_view(carried@),
            carried@.len() == n,
            forall|q: int| 0 <= q < cs@.len() ==> (#[trigger] cs@[q]) < n,
            texts(out@) == mid + carried_of(cv, ci.take(k as int)),
        decreases cs.len() - k,
    {
        let c = cs[k];
        let x = &carried[c];
        let ghost b = texts(out@);
        let mut q: usize = 0;
        while q < x.len()
            invariant
                q <= x@.len(),
                *x == carried@[c as int],
                texts(out@) == b + texts(x@).take(q as int),
            decreases x.len() - q,
        {
            let ghost before = out@;
            out.push(x[q].clone());
            proof {
                assert(texts(out@) =~= texts(before).push(x@[q as int]@));
                assert(texts(x@).take(q + 1) =~= texts(x@).take(q as int).push(x@[q as int]@));
            }
            q += 1;
        }
        proof {
            assert(texts(x@).take(x@.len() as int) =~= texts(x@));
            assert(ci.take(k + 1).drop_last() =~= ci.take(k as int));
            assert(ci.take(k + 1).last() == c as int);
            assert(cv[c as int] == texts(x@));
            assert(texts(out@) =~= mid + carried_of(cv, ci.take(k + 1)));
        }
        k += 1;
    }
    proof { assert(ci.take(ci.len() as int) =~= ci); }
    out
}

/// Emits one scope: its composition, its scale, and its outputs and carried memories.
fn emit_scope(
    em: &mut Emitter,
    a: &Architecture,
    t: &ScopeTable,
    outputs: &mut Vec<Option<String>>,
    carried: &mut Vec<Vec<String>>,
    idx: usize,
    Ghost(ds): Ghost<Seq<Seq<Axis>>>,
    Ghost(es): Ghost<Seq<EmittedModel>>,
) -> (r: Result<(), AdlExportError>)
    requires
        table_ok(*t, *a, ds, es),
        idx < scope_count(*a, ds),
        old(outputs)@.len() == scope_count(*a, ds),
        old(carried)@.len() == scope_count(*a, ds),
    ensures
        final(outputs)@.len() == scope_count(*a, ds),
        final(carried)@.len() == scope_count(*a, ds),
        match r {
            Ok(()) => scope_step((old(em)@, outputs_view(old(outputs)@), carried_view(old(carried)@)), *a, ds, es, idx as int)
                == Ok::<HierarchyState, ExportErrorModel>((final(em)@, outputs_view(final(outputs)@), carried_view(final(carried)@))),
            Err(e) => scope_step((old(em)@, outputs_view(old(outputs)@), carried_view(old(carried)@)), *a, ds, es, idx as int)
                == Err::<HierarchyState, ExportErrorModel>(e@),
        },
{
    let ghost n = scope_count(*a, ds);
    let values = scope_values(t, outputs, idx, Ghost(n));
    let mems = scope_memory_values(em, a, t, carried, idx, Ghost(n));
    let name = &t.names[idx];
    let element = em.next_ssa();
    let ename = crate::text::concat(name.as_str(), "_element");
    proof { reveal_strlit("_element"); }
    push_compose(em, element.as_str(), ename.as_str(), &values, &mems);
    let d = &t.domains[idx];
    let pl: usize = match t.parents[idx] {
        Some(p) => t.domains[p].len(),
        None => 0,
    };
    let own = if pl <= d.len() {
        crate::mlir::adl_header::copy_axes(d.as_slice(), pl, d.len())
    } else {
        Vec::new()
    };
    proof {
        assert(opt_int(t.parents@[idx as int]) == scope_parent(*a, ds, idx as int));
        assert(pl as nat == parent_len(*a, ds, idx as int));
        assert(own@ =~= own_axes(*a, ds, idx as int));
    }
    let dims = emit_dimensions(em, &own);
    let region = region_of(em, a, t, idx, pl, Ghost(ds), Ghost(es))?;
    let clause = if region.len() == 1 {
        let mut c = crate::text::owned(", mem_region ");
        push_str(&mut c, region[0].as_str());
        proof { reveal_strlit(", mem_region "); }
        c
    } else {
        String::new()
    };
    let scaled = em.next_ssa();
    push_scale(em, scaled.as_str(), name.as_str(), &dims, element.as_str(), clause.as_str());
    let ghost ov = outputs_view(outputs@);
    let ghost sv = scaled@;
    outputs.set(idx, Some(scaled));
    proof { assert(outputs_view(outputs@) =~= ov.update(idx as int, Some(sv))); }
    if region.len() > 1 {
        let ghost cv = carried_view(carried@);
        let ghost rv = texts(region@);
        carried.set(idx, region);
        proof { assert(carried_view(carried@) =~= cv.update(idx as int, rv)); }
    }
    Ok(())
}

} // verus!

verus! {

proof fn lemma_scopes_sticky(st: HierarchyState, a: Architecture, ds: Seq<Seq<Axis>>, es: Seq<EmittedModel>, order: Seq<int>, k: int)
    requires
        0 <= k <= order.len(),
        scopes_step(st, a, ds, es, order.take(k)) is Err,
    ensures
        scopes_step(st, a, ds, es, order) == scopes_step(st, a, ds, es, order.take(k)),
    decreases order.len(),
{
    if k == order.len() {
        assert(order.take(k) =~= order);
    } else {
        assert(order.drop_last().take(k) =~= order.take(k));
        lemma_scopes_sticky(st, a, ds, es, order.drop_last(), k);
    }
}

fn root_values_of(t: &ScopeTable, outputs: &Vec<Option<String>>, es: &Vec<EmittedProcessor>, Ghost(a): Ghost<Architecture>, Ghost(ds): Ghost<Seq<Seq<Axis>>>)
    -> (r: Vec<String>)
    requires
        table_ok(*t, a, ds, emitted_views(es@)),
        outputs@.len() == scope_count(a, ds),
    ensures
        texts(r@) == root_values(a, ds, emitted_views(es@), outputs_view(outputs@), scope_count(a, ds))
            + loose_processors(a, ds, emitted_views(es@), emitted_views(es@)),
{
    let ghost ev = emitted_views(es@);
    let ghost ov = outputs_view(outputs@);
    let n = t.names.len();
    let mut out: Vec<String> = Vec::new();
    let mut i: usize = 0;
    proof { assert(texts(out@) =~= Seq::<Seq<char>>::empty()); }
    while i < n
        invariant
            i <= n,
            n == scope_count(a, ds),
            table_ok(*t, a, ds, ev),
            ev == emitted_views(es@),
            ov == outputs_view(outputs@),
            outputs@.len() == n,
            texts(out@) == root_values(a, ds, ev, ov, i as int),
        decreases n - i,
    {
        proof { assert(opt_int(t.parents@[i as int]) == scope_parent(a, ds, i as int)); }
        if t.parents[i].is_none() {
            let v = match &outputs[i] {
                Some(s) => s.clone(),
                None => String::new(),
            };
            let ghost before = out@;
            out.push(v);
            proof { assert(texts(out@) =~= texts(before).push(or_empty(ov[i as int]))); }
        }
        i += 1;
    }
    let ghost mid = texts(out@);
    let mut k: usize = 0;
    proof { assert(loose_processors(a, ds, ev, ev.take(0)) =~= Seq::<Seq<char>>::empty()); assert(texts(out@) =~= mid + loose_processors(a, ds, ev, ev.take(0))); }
    while k < es.len()
        invariant
            k <= es@.len(),
            n == scope_count(a, ds),
            table_ok(*t, a, ds, ev),
            ev == emitted_views(es@),
            texts(out@) == mid + loose_processors(a, ds, ev, ev.take(k as int)),
        decreases es.len() - k,
    {
        proof {
            assert(ev.take(k + 1).drop_last() =~= ev.take(k as int));
            assert(ev.take(k + 1).last() == emitted_view(es@[k as int]));
        }
        let mut found = false;
        let mut j: usize = 0;
        while j < n && !found
            invariant
                j <= n,
                n == scope_count(a, ds),
                table_ok(*t, a, ds, ev),
                k < es@.len(),
                found ==> held(a, ds, ev, es@[k as int].ssa@),
                !found ==> forall|q: int| 0 <= q < j ==> !scope_processors(a, ds, ev, q).contains(es@[k as int].ssa@),
            decreases n - j + (if found { 0int } else { 1int }),
        {
            proof { assert(texts(t.processors@[j as int]@) == scope_processors(a, ds, ev, j as int)); }
            if crate::mlir::adl_lower::contains_text(&t.processors[j], es[k].ssa.as_str()) {
                found = true;
            } else {
                j += 1;
            }
        }
        if !found {
            let ghost before = out@;
            out.push(es[k].ssa.clone());
            proof { assert(texts(out@) =~= texts(before).push(es@[k as int].ssa@)); }
        }
        k += 1;
    }
    proof { assert(ev.take(ev.len() as int) =~= ev); }
    out
}

fn root_memories_of(em: &Emitter, a: &Architecture, t: &ScopeTable, carried: &Vec<Vec<String>>, Ghost(ds): Ghost<Seq<Seq<Axis>>>, Ghost(es): Ghost<Seq<EmittedModel>>)
    -> (r: Vec<String>)
    requires
        table_ok(*t, *a, ds, es),
        carried@.len() == scope_count(*a, ds),
    ensures
        texts(r@) == root_memories(*a, ds, em@.handles, a.memories@) + root_carried(*a, ds, carried_view(carried@), scope_count(*a, ds)),
{
    let ghost ms = a.memories@;
    let mut out: Vec<String> = Vec::new();
    let mut k: usize = 0;
    proof { assert(ms.take(0) =~= Seq::<MemoryArray>::empty()); assert(texts(out@) =~= Seq::<Seq<char>>::empty()); }
    while k < a.memories.len()
        invariant
            k <= ms.len(),
            ms == a.memories@,
            table_ok(*t, *a, ds, es),
            texts(out@) == root_memories(*a, ds, em@.handles, ms.take(k as int)),
        decreases a.memories.len() - k,
    {
        proof {
            assert(ms.take(k + 1).drop_last() =~= ms.take(k as int));
            assert(ms.take(k + 1).last() == ms[k as int]);
            assert(opt_int(t.owners@[k as int]) == memory_owner(*a, ds, ms[k as int]));
        }
        if t.owners[k].is_none() {
            let v = handle_or_empty(em, a.memories[k].name.as_str(), 0);
            let ghost before = out@;
            out.push(v);
            proof { assert(texts(out@) =~= texts(before).push(v@)); }
        }
        k += 1;
    }
    proof { assert(ms.take(ms.len() as int) =~= ms); }
    let ghost mid = texts(out@);
    let ghost cv = carried_view(carried@);
    let n = t.names.len();
    let mut i: usize = 0;
    proof { assert(texts(out@) =~= mid + root_carried(*a, ds, cv, 0)); }
    while i < n
        invariant
            i <= n,
            n == scope_count(*a, ds),
            table_ok(*t, *a, ds, es),
            cv == carried_view(carried@),
            carried@.len() == n,
            texts(out@) == mid + root_carried(*a, ds, cv, i as int),
        decreases n - i,
    {
        proof { assert(opt_int(t.parents@[i as int]) == scope_parent(*a, ds, i as int)); }
        if t.parents[i].is_none() {
            let x = &carried[i];
            let ghost b = texts(out@);
            let mut q: usize = 0;
            while q < x.len()
                invariant
                    q <= x@.len(),
                    *x == carried@[i as int],
                    texts(out@) == b + texts(x@).take(q as int),
                decreases x.len() - q,
            {
                let ghost before = out@;
                out.push(x[q].clone());
                proof {
                    assert(texts(out@) =~= texts(before).push(x@[q as int]@));
                    assert(texts(x@).take(q + 1) =~= texts(x@).take(q as int).push(x@[q as int]@));
                }
                q += 1;
            }
            proof {
                assert(texts(x@).take(x@.len() as int) =~= texts(x@));
                assert(cv[i as int] == texts(x@));
                assert(texts(out@) =~= mid + root_carried(*a, ds, cv, i + 1));
            }
        }
        i += 1;
    }
    out
}

/// Emits the hierarchy after the processors: every scope, deeper first, then the root
/// composition of the architecture.
pub fn emit_architecture_hierarchy(em: &mut Emitter, a: &Architecture, ds: &Vec<Vec<Axis>>, es: &Vec<EmittedProcessor>)
    -> (r: Result<(), AdlExportError>)
    ensures
        match r {
            Ok(()) => hierarchy_emitted(old(em)@, *a, domains_view(ds@), emitted_views(es@)) == Ok::<EmitterModel, ExportErrorModel>(final(em)@),
            Err(e) => hierarchy_emitted(old(em)@, *a, domains_view(ds@), emitted_views(es@)) == Err::<EmitterModel, ExportErrorModel>(e@),
        },
{
    let ghost dv = domains_view(ds@);
    let ghost ev = emitted_views(es@);
    let ghost e0 = em@;
    let t = scope_table(a, ds, es);
    let n = t.names.len();
    let mut keys: Vec<usize> = Vec::new();
    let mut i: usize = 0;
    while i < n
        invariant
            i <= n,
            n == scope_count(*a, dv),
            table_ok(t, *a, dv, ev),
            keys@.len() == i,
            forall|j: int| 0 <= j < i ==> (#[trigger] keys@[j]) as int == scope_domain(*a, dv, j).len(),
        decreases n - i,
    {
        keys.push(t.domains[i].len());
        i += 1;
    }
    proof {
        assert(ints(keys@) =~= Seq::new(n as nat, |i: int| scope_domain(*a, dv, i).len() as int));
    }
    let order = order_by_decreasing(&keys);
    let ghost ord = ints(order@);
    let mut outputs: Vec<Option<String>> = Vec::new();
    let mut carried: Vec<Vec<String>> = Vec::new();
    let mut i: usize = 0;
    while i < n
        invariant
            i <= n,
            outputs@.len() == i && carried@.len() == i,
            forall|j: int| 0 <= j < i ==> (#[trigger] outputs@[j]) is None,
            forall|j: int| 0 <= j < i ==> (#[trigger] carried@[j])@.len() == 0,
        decreases n - i,
    {
        outputs.push(None);
        carried.push(Vec::new());
        i += 1;
    }
    let ghost st0: HierarchyState = (e0, Seq::new(n as nat, |i: int| None::<Seq<char>>), Seq::new(n as nat, |i: int| Seq::<Seq<char>>::empty()));
    proof {
        assert(outputs_view(outputs@) =~= st0.1);
        assert forall|j: int| 0 <= j < n implies carried_view(carried@)[j] == st0.2[j] by {
            assert(texts(carried@[j]@) =~= Seq::<Seq<char>>::empty());
        }
        assert(carried_view(carried@) =~= st0.2);
        assert(ord.take(0) =~= Seq::<int>::empty());
        assert(e0 == old(em)@);
    }
    let mut k: usize = 0;
    let mut failure: Option<AdlExportError> = None;
    while k < order.len() && failure.is_none()
        invariant
            k <= order@.len(),
            ord == ints(order@),
            ord == scope_order(*a, dv),
            n == scope_count(*a, dv),
            table_ok(t, *a, dv, ev),
            forall|q: int| 0 <= q < order@.len() ==> (#[trigger] order@[q]) < n,
            outputs@.len() == n,
            carried@.len() == n,
            failure is None ==> scopes_step(st0, *a, dv, ev, ord.take(k as int)) == Ok::<HierarchyState, ExportErrorModel>((em@, outputs_view(outputs@), carried_view(carried@))),
            failure matches Some(e) ==> scopes_step(st0, *a, dv, ev, ord) == Err::<HierarchyState, ExportErrorModel>(e@),
        decreases order.len() - k + (if failure is None { 1int } else { 0int }),
    {
        proof {
            assert(ord.take(k + 1).drop_last() =~= ord.take(k as int));
            assert(ord.take(k + 1).last() == order@[k as int] as int);
        }
        let ghost pre: HierarchyState = (em@, outputs_view(outputs@), carried_view(carried@));
        match emit_scope(em, a, &t, &mut outputs, &mut carried, order[k], Ghost(dv), Ghost(ev)) {
            Ok(()) => {
                k += 1;
            },
            Err(e) => {
                proof {
                    assert(scope_step(pre, *a, dv, ev, order@[k as int] as int) == Err::<HierarchyState, ExportErrorModel>(e@));
                    assert(scopes_step(st0, *a, dv, ev, ord.take(k + 1)) == Err::<HierarchyState, ExportErrorModel>(e@));
                    lemma_scopes_sticky(st0, *a, dv, ev, ord, k + 1);
                }
                failure = Some(e);
            },
        }
    }
    proof {
        let m = scope_count(*a, dv);
        let st1: HierarchyState = (old(em)@, Seq::new(m as nat, |i: int| None::<Seq<char>>), Seq::new(m as nat, |i: int| Seq::<Seq<char>>::empty()));
        assert(st1.1 =~= st0.1);
        assert(st1.2 =~= st0.2);
        assert(st1 == st0);
    }
    match failure {
        Some(e) => { return Err(e); },
        None => {},
    }
    proof { assert(ord.take(ord.len() as int) =~= ord); }
    let values = root_values_of(&t, &outputs, es, Ghost(*a), Ghost(dv));
    let mems = root_memories_of(em, a, &t, &carried, Ghost(dv), Ghost(ev));
    let root = em.next_ssa();
    push_compose(em, root.as_str(), a.name.as_str(), &values, &mems);
    Ok(())
}

} // verus!

verus! {

// ---------------------------------------------------------------------------
// The module

/// The first memory definition named `n`.
pub open spec fn first_memdef(defs: Seq<MemoryDefinition>, n: Seq<char>) -> Option<MemoryDefinition>
    decreases defs.len(),
{
    if defs.len() == 0 { None } else if defs[0].name@ == n { Some(defs[0]) } else { first_memdef(defs.drop_first(), n) }
}

proof fn lemma_first_memdef_at(defs: Seq<MemoryDefinition>, n: Seq<char>, i: int)
    requires
        0 <= i < defs.len(),
        defs[i].name@ == n,
        forall|j: int| 0 <= j < i ==> defs[j].name@ != n,
    ensures
        first_memdef(defs, n) == Some(defs[i]),
    decreases i,
{
    if i > 0 {
        assert(defs[0].name@ != n);
        assert forall|j: int| 0 <= j < i - 1 implies defs.drop_first()[j].name@ != n by {
            assert(defs.drop_first()[j] == defs[j + 1]);
        }
        lemma_first_memdef_at(defs.drop_first(), n, i - 1);
    }
}

/// The memories emitted in turn, each with its definition.
pub open spec fn memories_step(m: EmitterModel, a: Architecture, ms: Seq<MemoryArray>) -> Result<EmitterModel, ExportErrorModel>
    decreases ms.len(),
{
    if ms.len() == 0 {
        Ok(m)
    } else {
        match memories_step(m, a, ms.drop_last()) {
            Err(e) => Err(e),
            Ok(m1) => match memory_step(m1, ms.last(), first_memdef(a.memory_definitions@, ms.last().definition@)->Some_0) {
                Err(e) => Err(e),
                Ok((m2, _)) => Ok(m2),
            },
        }
    }
}

/// The resources emitted in turn.
pub open spec fn resources_step(m: EmitterModel, rs: Seq<Resource>) -> EmitterModel
    decreases rs.len(),
{
    if rs.len() == 0 { m } else { resource_step(resources_step(m, rs.drop_last()), rs.last()).0 }
}

/// The symbol of the exported module, the one the dataflow exploration drivers look for.
pub open spec fn module_header() -> Seq<char> {
    "module @arch_system {\n"@
}

pub open spec fn indented2(s: Seq<char>) -> Seq<char> {
    crate::mlir::export::indented_from(s, 0, crate::mlir::export::spaces(2))
}

/// The processor modules, each after a blank line.
pub open spec fn modules_text(mods: Seq<Seq<char>>) -> Seq<char>
    decreases mods.len(),
{
    if mods.len() == 0 { Seq::empty() } else { modules_text(mods.drop_last()) + "\n"@ + indented2(mods.last()) }
}

/// What is exported: the architecture module alone, and the same with the processors'
/// modules in it.
pub open spec fn generated(a: Architecture) -> Result<(Seq<char>, Seq<char>), ExportErrorModel> {
    match crate::mlir::export::processors_error(a, a.processors@) {
        Some(e) => Err(e),
        None => {
            let m0 = EmitterModel { counter: 0, body: Seq::empty(), dims: Seq::empty(), handles: Seq::empty(), symbols: Seq::empty(), resources: Seq::empty() };
            let m1 = crate::mlir::export::dimensions_step(m0, a.axes@).0;
            match memories_step(m1, a, a.memories@) {
                Err(e) => Err(e),
                Ok(m2) => {
                    let m3 = resources_step(m2, a.resources@);
                    match processors_step(m3, a, processor_order(a)) {
                        Err(e) => Err(e),
                        Ok((m4, es, mods)) => match hierarchy_emitted(m4, a, export_domains(a), es) {
                            Err(e) => Err(e),
                            Ok(m5) => Ok((
                                module_header() + indented2(m5.body) + "}\n"@,
                                module_header() + indented2(m5.body) + modules_text(mods) + "}\n"@,
                            )),
                        },
                    }
                },
            }
        },
    }
}

/// The `adl.*` MLIR module of an architecture, processor functionality included.
pub open spec fn adl_text(a: Architecture) -> Result<Seq<char>, ExportErrorModel> {
    match generated(a) {
        Ok((_, complete)) => Ok(complete),
        Err(e) => Err(e),
    }
}

/// Every memory names a memory definition.
pub open spec fn memories_resolved(a: Architecture) -> bool {
    forall|i: int| 0 <= i < a.memories@.len() ==> #[trigger] has_mdef(a, i)
}

/// What the export reads by name is there: the definitions of memories and processors,
/// and, for explicit scopes, their axes, processors, memories and parents, each parent
/// over fewer axes than its children.
pub open spec fn export_ready(a: Architecture) -> bool {
    &&& crate::mlir::export::definitions_resolved(a)
    &&& memories_resolved(a)
    &&& forall|i: int| 0 <= i < a.scopes@.len() ==> #[trigger] scope_ready(a, i)
}

/// Some processor array is named `n`.
pub open spec fn has_processor(ps: Seq<ProcessorArray>, n: Seq<char>) -> bool {
    exists|j: int| 0 <= j < ps.len() && (#[trigger] ps[j]).name@ == n
}

/// Memory `q` names a memory definition.
pub open spec fn has_mdef(a: Architecture, q: int) -> bool {
    exists|j: int| 0 <= j < a.memory_definitions@.len() && (#[trigger] a.memory_definitions@[j]).name@ == a.memories@[q].definition@
}

/// Scope `i` names known axes, processors and memories, and a parent over fewer axes.
pub open spec fn scope_ready(a: Architecture, i: int) -> bool {
    let s = a.scopes@[i];
    &&& forall|k: int| 0 <= k < s.axes@.len() ==> (#[trigger] first_axis(a.axes@, s.axes@[k]@)) is Some
    &&& forall|k: int| 0 <= k < s.processors@.len() ==> #[trigger] has_processor(a.processors@, s.processors@[k]@)
    &&& forall|k: int| 0 <= k < s.memories@.len() ==> (#[trigger] crate::mlir::export::first_memory(a.memories@, s.memories@[k]@)) is Some
    &&& (s.parent matches Some(p) ==> scope_index(a.scopes@, p@) matches Some(q) && a.scopes@[q].axes@.len() < s.axes@.len())
}

/// The two texts of an export.
pub struct GeneratedMlir {
    /// The architecture module alone.
    pub adl_only: String,
    /// The module with each processor's functionality appended.
    pub complete: String,
}

fn emit_memories(em: &mut Emitter, a: &Architecture) -> (r: Result<(), AdlExportError>)
    requires
        memories_resolved(*a),
    ensures
        match r {
            Ok(()) => memories_step(old(em)@, *a, a.memories@) == Ok::<EmitterModel, ExportErrorModel>(final(em)@),
            Err(e) => memories_step(old(em)@, *a, a.memories@) == Err::<EmitterModel, ExportErrorModel>(e@),
        },
{
    let ghost ms = a.memories@;
    let ghost e0 = em@;
    let mut i: usize = 0;
    let mut failure: Option<AdlExportError> = None;
    proof { assert(ms.take(0) =~= Seq::<MemoryArray>::empty()); }
    while i < a.memories.len() && failure.is_none()
        invariant
            i <= ms.len(),
            ms == a.memories@,
            memories_resolved(*a),
            failure is None ==> memories_step(e0, *a, ms.take(i as int)) == Ok::<EmitterModel, ExportErrorModel>(em@),
            failure matches Some(e) ==> memories_step(e0, *a, ms) == Err::<EmitterModel, ExportErrorModel>(e@),
        decreases ms.len() - i + (if failure is None { 1int } else { 0int }),
    {
        proof {
            assert(ms.take(i + 1).drop_last() =~= ms.take(i as int));
            assert(ms.take(i + 1).last() == ms[i as int]);
        }
        let mem = &a.memories[i];
        let d = match a.memory_definition(mem) {
            Some(d) => d,
            None => {
                proof {
                    assert(has_mdef(*a, i as int));
                    let j = choose|j: int| 0 <= j < a.memory_definitions@.len()
                        && (#[trigger] a.memory_definitions@[j]).name@ == a.memories@[i as int].definition@;
                    assert(!((|d: MemoryDefinition| d.name@ == mem.definition@)(a.memory_definitions@[j])));
                }
                return vstd::pervasive::unreached();
            },
        };
        proof {
            let defs = a.memory_definitions@;
            let k = choose|k: int| first_where(defs, |x: MemoryDefinition| x.name@ == mem.definition@, k) && defs[k] == *d;
            assert forall|j: int| 0 <= j < k implies defs[j].name@ != mem.definition@ by {
                assert(!((|x: MemoryDefinition| x.name@ == mem.definition@)(defs[j])));
            }
            lemma_first_memdef_at(defs, mem.definition@, k);
        }
        match em.emit_memory(mem, d) {
            Ok(_) => {
                i += 1;
            },
            Err(e) => {
                proof { lemma_memories_sticky(e0, *a, ms, i + 1); }
                failure = Some(e);
            },
        }
    }
    match failure {
        Some(e) => Err(e),
        None => {
            proof { assert(ms.take(ms.len() as int) =~= ms); }
            Ok(())
        },
    }
}

proof fn lemma_memories_sticky(m: EmitterModel, a: Architecture, ms: Seq<MemoryArray>, k: int)
    requires
        0 <= k <= ms.len(),
        memories_step(m, a, ms.take(k)) is Err,
    ensures
        memories_step(m, a, ms) == memories_step(m, a, ms.take(k)),
    decreases ms.len(),
{
    if k == ms.len() {
        assert(ms.take(k) =~= ms);
    } else {
        assert(ms.drop_last().take(k) =~= ms.take(k));
        lemma_memories_sticky(m, a, ms.drop_last(), k);
    }
}

proof fn lemma_processors_sticky(m: EmitterModel, a: Architecture, qs: Seq<ProcessorArray>, k: int)
    requires
        0 <= k <= qs.len(),
        processors_step(m, a, qs.take(k)) is Err,
    ensures
        processors_step(m, a, qs) == processors_step(m, a, qs.take(k)),
    decreases qs.len(),
{
    if k == qs.len() {
        assert(qs.take(k) =~= qs);
    } else {
        assert(qs.drop_last().take(k) =~= qs.take(k));
        lemma_processors_sticky(m, a, qs.drop_last(), k);
    }
}

fn emit_processors(em: &mut Emitter, a: &Architecture) -> (r: Result<(Vec<EmittedProcessor>, Vec<String>), AdlExportError>)
    requires
        crate::mlir::export::definitions_resolved(*a),
    ensures
        match r {
            Ok((es, mods)) => processors_step(old(em)@, *a, processor_order(*a))
                == Ok::<(EmitterModel, Seq<EmittedModel>, Seq<Seq<char>>), ExportErrorModel>((final(em)@, emitted_views(es@), texts(mods@))),
            Err(e) => processors_step(old(em)@, *a, processor_order(*a)) == Err::<(EmitterModel, Seq<EmittedModel>, Seq<Seq<char>>), ExportErrorModel>(e@),
        },
{
    let mut keys: Vec<usize> = Vec::new();
    let mut i: usize = 0;
    while i < a.processors.len()
        invariant
            i <= a.processors@.len(),
            keys@.len() == i,
            forall|j: int| 0 <= j < i ==> (#[trigger] keys@[j]) as int == a.processors@[j].axes@.len(),
        decreases a.processors.len() - i,
    {
        keys.push(a.processors[i].axes.len());
        i += 1;
    }
    proof { assert(ints(keys@) =~= a.processors@.map_values(|q: ProcessorArray| q.axes@.len() as int)); }
    let order = order_by_decreasing(&keys);
    let ghost qs = processor_order(*a);
    proof {
        assert(qs.len() == order@.len());
        assert forall|k: int| 0 <= k < order@.len() implies qs[k] == a.processors@[order@[k] as int] by {
            assert(ints(order@)[k] == order@[k] as int);
        }
    }
    let ghost e0 = em@;
    let mut es: Vec<EmittedProcessor> = Vec::new();
    let mut mods: Vec<String> = Vec::new();
    let mut failure: Option<AdlExportError> = None;
    let mut k: usize = 0;
    proof {
        assert(qs.take(0) =~= Seq::<ProcessorArray>::empty());
        assert(emitted_views(es@) =~= Seq::<EmittedModel>::empty());
        assert(texts(mods@) =~= Seq::<Seq<char>>::empty());
    }
    while k < order.len() && failure.is_none()
        invariant
            k <= order@.len(),
            qs == processor_order(*a),
            qs.len() == order@.len(),
            forall|q: int| 0 <= q < order@.len() ==> (#[trigger] order@[q]) < a.processors@.len(),
            forall|q: int| 0 <= q < order@.len() ==> qs[q] == a.processors@[order@[q] as int],
            crate::mlir::export::definitions_resolved(*a),
            failure is None ==> processors_step(e0, *a, qs.take(k as int))
                == Ok::<(EmitterModel, Seq<EmittedModel>, Seq<Seq<char>>), ExportErrorModel>((em@, emitted_views(es@), texts(mods@))),
            failure matches Some(e) ==> processors_step(e0, *a, qs) == Err::<(EmitterModel, Seq<EmittedModel>, Seq<Seq<char>>), ExportErrorModel>(e@),
        decreases order.len() - k + (if failure is None { 1int } else { 0int }),
    {
        let q = &a.processors[order[k]];
        proof {
            assert(qs.take(k + 1).drop_last() =~= qs.take(k as int));
            assert(qs.take(k + 1).last() == *q);
            let i = order@[k as int] as int;
            assert(a.processors@[i] == *q);
            assert(crate::mlir::export::processor_defined(*a, i));
        }
        match emit_processor(em, a, q) {
            Ok((e, module)) => {
                let ghost eb = es@;
                let ghost mb = mods@;
                es.push(e);
                mods.push(module);
                proof {
                    assert(emitted_views(es@) =~= emitted_views(eb).push(emitted_view(es@.last())));
                    assert(texts(mods@) =~= texts(mb).push(mods@.last()@));
                }
                k += 1;
            },
            Err(e) => {
                proof { lemma_processors_sticky(e0, *a, qs, k + 1); }
                failure = Some(e);
            },
        }
    }
    match failure {
        Some(e) => Err(e),
        None => {
            proof { assert(qs.take(qs.len() as int) =~= qs); }
            Ok((es, mods))
        },
    }
}

} // verus!

verus! {

fn emit_resources(em: &mut Emitter, rs: &Vec<Resource>)
    ensures
        final(em)@ == resources_step(old(em)@, rs@),
{
    let mut i: usize = 0;
    proof { assert(rs@.take(0) =~= Seq::<Resource>::empty()); }
    while i < rs.len()
        invariant
            i <= rs@.len(),
            em@ == resources_step(old(em)@, rs@.take(i as int)),
        decreases rs.len() - i,
    {
        proof {
            assert(rs@.take(i + 1).drop_last() =~= rs@.take(i as int));
            assert(rs@.take(i + 1).last() == rs@[i as int]);
        }
        em.emit_resource(&rs[i]);
        i += 1;
    }
    proof { assert(rs@.take(rs@.len() as int) =~= rs@); }
}

/// Both texts of the export of an architecture to `adl.*` MLIR: the architecture module
/// alone, and the same module with each processor's lowered source appended.
///
/// Processors are checked first. Then the module holds the axes as spatial dimensions,
/// each memory as a bank with its arrays, the resources, the processors (more axes
/// first), and the hierarchy of scopes that composes them under the architecture's root.
pub fn emit_architecture_mlir(architecture: &Architecture) -> (r: Result<GeneratedMlir, AdlExportError>)
    requires
        export_ready(*architecture),
    ensures
        match r {
            Ok(g) => generated(*architecture) == Ok::<(Seq<char>, Seq<char>), ExportErrorModel>((g.adl_only@, g.complete@)),
            Err(e) => generated(*architecture) == Err::<(Seq<char>, Seq<char>), ExportErrorModel>(e@),
        },
{
    crate::mlir::export::validate_processors(architecture)?;
    let mut em = Emitter::new();
    let _dims = emit_dimensions(&mut em, &architecture.axes);
    let domains = export_scope_domains(architecture);
    emit_memories(&mut em, architecture)?;
    emit_resources(&mut em, &architecture.resources);
    let (es, mods) = emit_processors(&mut em, architecture)?;
    emit_architecture_hierarchy(&mut em, architecture, &domains, &es)?;
    let body = crate::mlir::export::indent(em.body.as_str(), 2);
    let mut adl_only = crate::text::owned("module @arch_system {\n");
    push_str(&mut adl_only, body.as_str());
    push_str(&mut adl_only, "}\n");
    let mut complete = crate::text::owned("module @arch_system {\n");
    push_str(&mut complete, body.as_str());
    let ghost head = complete@;
    let mut i: usize = 0;
    proof { assert(texts(mods@).take(0) =~= Seq::<Seq<char>>::empty()); }
    while i < mods.len()
        invariant
            i <= mods@.len(),
            complete@ == head + modules_text(texts(mods@).take(i as int)),
        decreases mods.len() - i,
    {
        push_str(&mut complete, "\n");
        let m = crate::mlir::export::indent(mods[i].as_str(), 2);
        push_str(&mut complete, m.as_str());
        proof {
            reveal_strlit("\n");
            assert(texts(mods@).take(i + 1).drop_last() =~= texts(mods@).take(i as int));
            assert(texts(mods@).take(i + 1).last() == mods@[i as int]@);
        }
        i += 1;
    }
    push_str(&mut complete, "}\n");
    proof {
        reveal_strlit("module @arch_system {\n");
        reveal_strlit("}\n");
        assert(texts(mods@).take(mods@.len() as int) =~= texts(mods@));
    }
    Ok(GeneratedMlir { adl_only, complete })
}

/// The export of an architecture to `adl.*` MLIR, processor functionality included,
/// without running the outside validators on it.
pub fn architecture_to_mlir_unchecked(architecture: &Architecture) -> (r: Result<String, AdlExportError>)
    requires
        export_ready(*architecture),
    ensures
        match r {
            Ok(s) => adl_text(*architecture) == Ok::<Seq<char>, ExportErrorModel>(s@),
            Err(e) => adl_text(*architecture) == Err::<Seq<char>, ExportErrorModel>(e@),
        },
{
    let g = emit_architecture_mlir(architecture)?;
    Ok(g.complete)
}

} // verus!

verus! {

fn has_processor_named(ps: &Vec<ProcessorArray>, n: &str) -> (r: bool)
    ensures
        r == has_processor(ps@, n@),
{
    let mut j: usize = 0;
    while j < ps.len()
        invariant
            j <= ps@.len(),
            forall|k: int| 0 <= k < j ==> ps@[k].name@ != n@,
        decreases ps.len() - j,
    {
        if str_eq(ps[j].name.as_str(), n) {
            return true;
        }
        j += 1;
    }
    false
}

fn has_memory_named(ms: &Vec<MemoryArray>, n: &str) -> (r: bool)
    ensures
        r == crate::mlir::export::first_memory(ms@, n@) is Some,
{
    let mut i: usize = 0;
    proof { assert(ms@.skip(0) =~= ms@); }
    while i < ms.len()
        invariant
            i <= ms@.len(),
            crate::mlir::export::first_memory(ms@, n@) == crate::mlir::export::first_memory(ms@.skip(i as int), n@),
        decreases ms.len() - i,
    {
        proof { assert(ms@.skip(i as int).drop_first() =~= ms@.skip(i + 1)); }
        if str_eq(ms[i].name.as_str(), n) {
            return true;
        }
        i += 1;
    }
    proof { assert(ms@.skip(i as int) =~= Seq::<MemoryArray>::empty()); }
    false
}

fn scope_ready_check(a: &Architecture, i: usize) -> (r: bool)
    requires
        i < a.scopes@.len(),
    ensures
        r == scope_ready(*a, i as int),
{
    let s = &a.scopes[i];
    let mut k: usize = 0;
    while k < s.axes.len()
        invariant
            k <= s.axes@.len(),
            *s == a.scopes@[i as int],
            forall|x: int| 0 <= x < k ==> (#[trigger] first_axis(a.axes@, s.axes@[x]@)) is Some,
        decreases s.axes.len() - k,
    {
        if find_axis(&a.axes, s.axes[k].as_str()).is_none() {
            proof { assert(first_axis(a.axes@, s.axes@[k as int]@) is None); }
            return false;
        }
        k += 1;
    }
    let mut k: usize = 0;
    while k < s.processors.len()
        invariant
            k <= s.processors@.len(),
            *s == a.scopes@[i as int],
            forall|x: int| 0 <= x < s.axes@.len() ==> (#[trigger] first_axis(a.axes@, s.axes@[x]@)) is Some,
            forall|x: int| 0 <= x < k ==> #[trigger] has_processor(a.processors@, s.processors@[x]@),
        decreases s.processors.len() - k,
    {
        if !has_processor_named(&a.processors, s.processors[k].as_str()) {
            proof { assert(!has_processor(a.processors@, s.processors@[k as int]@)); }
            return false;
        }
        k += 1;
    }
    let mut k: usize = 0;
    while k < s.memories.len()
        invariant
            k <= s.memories@.len(),
            *s == a.scopes@[i as int],
            forall|x: int| 0 <= x < s.axes@.len() ==> (#[trigger] first_axis(a.axes@, s.axes@[x]@)) is Some,
            forall|x: int| 0 <= x < s.processors@.len() ==> #[trigger] has_processor(a.processors@, s.processors@[x]@),
            forall|x: int| 0 <= x < k ==> (#[trigger] crate::mlir::export::first_memory(a.memories@, s.memories@[x]@)) is Some,
        decreases s.memories.len() - k,
    {
        if !has_memory_named(&a.memories, s.memories[k].as_str()) {
            proof { assert(crate::mlir::export::first_memory(a.memories@, s.memories@[k as int]@) is None); }
            return false;
        }
        k += 1;
    }
    match &s.parent {
        Some(p) => match find_scope(&a.scopes, p.as_str()) {
            Some(x) => a.scopes[x].axes.len() < s.axes.len(),
            None => false,
        },
        None => true,
    }
}

/// Whether an architecture can be exported: whether what the export reads by name is
/// there.
pub fn is_export_ready(a: &Architecture) -> (r: bool)
    ensures
        r == export_ready(*a),
{
    let mut i: usize = 0;
    while i < a.processors.len()
        invariant
            i <= a.processors@.len(),
            forall|q: int| 0 <= q < i ==> #[trigger] crate::mlir::export::processor_defined(*a, q),
        decreases a.processors.len() - i,
    {
        match a.processor_definition(a.processors[i].definition.as_str()) {
            None => {
                proof {
                    assert forall|j: int| 0 <= j < a.processor_definitions@.len() implies a.processor_definitions@[j].name@ != a.processors@[i as int].definition@ by {
                        assert(!((|d: ProcessorDefinition| d.name@ == a.processors@[i as int].definition@)(a.processor_definitions@[j])));
                    }
                    assert(!crate::mlir::export::processor_defined(*a, i as int));
                }
                return false;
            },
            Some(d) => {
                proof {
                    let k = choose|k: int| first_where(a.processor_definitions@, |x: ProcessorDefinition| x.name@ == a.processors@[i as int].definition@, k)
                        && a.processor_definitions@[k] == *d;
                    assert(a.processor_definitions@[k].name@ == a.processors@[i as int].definition@);
                    assert(crate::mlir::export::processor_defined(*a, i as int));
                }
            },
        }
        i += 1;
    }
    let mut i: usize = 0;
    while i < a.memories.len()
        invariant
            i <= a.memories@.len(),
            crate::mlir::export::definitions_resolved(*a),
            forall|q: int| 0 <= q < i ==> #[trigger] has_mdef(*a, q),
        decreases a.memories.len() - i,
    {
        match a.memory_definition(&a.memories[i]) {
            None => {
                proof {
                    assert forall|j: int| 0 <= j < a.memory_definitions@.len() implies a.memory_definitions@[j].name@ != a.memories@[i as int].definition@ by {
                        assert(!((|d: MemoryDefinition| d.name@ == a.memories@[i as int].definition@)(a.memory_definitions@[j])));
                    }
                    assert(!has_mdef(*a, i as int));
                }
                return false;
            },
            Some(d) => {
                proof {
                    let k = choose|k: int| first_where(a.memory_definitions@, |x: MemoryDefinition| x.name@ == a.memories@[i as int].definition@, k)
                        && a.memory_definitions@[k] == *d;
                    assert(a.memory_definitions@[k].name@ == a.memories@[i as int].definition@);
                    assert(has_mdef(*a, i as int));
                }
            },
        }
        i += 1;
    }
    let mut i: usize = 0;
    while i < a.scopes.len()
        invariant
            i <= a.scopes@.len(),
            crate::mlir::export::definitions_resolved(*a),
            memories_resolved(*a),
            forall|q: int| 0 <= q < i ==> #[trigger] scope_ready(*a, q),
        decreases a.scopes.len() - i,
    {
        if !scope_ready_check(a, i) {
            return false;
        }
        i += 1;
    }
    true
}

} // verus!
