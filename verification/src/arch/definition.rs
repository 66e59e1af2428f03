//! Processor definitions built from native MLIR: matching performance models to the
//! functions of the source, and checking that the operation models agree with it.
use vstd::prelude::*;

use super::checks::{distinct_names, lemma_first_dup_distinct, validate_unique};
use super::perf::{model_syms, symbols_problem, FuncPerfModel};
use super::processor::{OperationModel, ProcessorDefinition};
use super::resolve::{first_index, lemma_first_index, lemma_first_index_is_first};
use vstd::pervasive::VecAdditionalExecFns;
use crate::math::expr::{names, Sym};
use crate::mlir::func::{details_model, func_model, pairs_model, FuncModel, MlirFunc, MlirFuncDetails};
use crate::mlir::module::{module_text, shape_syms};
use crate::mlir::ops::{dims_model, syms_model, texts_model, MlirBroadcastDim, MlirCopyOp, MlirGatherOp};
use crate::text::str_texts;

verus! {

// ---------------------------------------------------------------------------
// Comparing function interfaces

fn texts_eq(a: &Vec<String>, b: &Vec<String>) -> (r: bool)
    ensures
        r == (texts_model(a@) == texts_model(b@)),
{
    if a.len() != b.len() {
        proof { assert(texts_model(a@).len() != texts_model(b@).len()); }
        return false;
    }
    let mut i: usize = 0;
    while i < a.len()
        invariant
            i <= a@.len() == b@.len(),
            forall|k: int| 0 <= k < i ==> a@[k]@ == b@[k]@,
        decreases a.len() - i,
    {
        if !crate::text::str_eq(a[i].as_str(), b[i].as_str()) {
            proof { assert(texts_model(a@)[i as int] != texts_model(b@)[i as int]); }
            return false;
        }
        i += 1;
    }
    proof { assert(texts_model(a@) =~= texts_model(b@)); }
    true
}

fn pairs_eq(a: &Vec<(String, String)>, b: &Vec<(String, String)>) -> (r: bool)
    ensures
        r == (pairs_model(a@) == pairs_model(b@)),
{
    if a.len() != b.len() {
        proof { assert(pairs_model(a@).len() != pairs_model(b@).len()); }
        return false;
    }
    let mut i: usize = 0;
    while i < a.len()
        invariant
            i <= a@.len() == b@.len(),
            forall|k: int| 0 <= k < i ==> a@[k].0@ == b@[k].0@ && a@[k].1@ == b@[k].1@,
        decreases a.len() - i,
    {
        if !(crate::text::str_eq(a[i].0.as_str(), b[i].0.as_str()) && crate::text::str_eq(a[i].1.as_str(), b[i].1.as_str())) {
            proof { assert(pairs_model(a@)[i as int] != pairs_model(b@)[i as int]); }
            return false;
        }
        i += 1;
    }
    proof { assert(pairs_model(a@) =~= pairs_model(b@)); }
    true
}

fn syms_eq(a: &Vec<Sym>, b: &Vec<Sym>) -> (r: bool)
    ensures
        r == (syms_model(a@) == syms_model(b@)),
{
    if a.len() != b.len() {
        proof { assert(syms_model(a@).len() != syms_model(b@).len()); }
        return false;
    }
    let mut i: usize = 0;
    while i < a.len()
        invariant
            i <= a@.len() == b@.len(),
            forall|k: int| 0 <= k < i ==> a@[k]@ == b@[k]@,
        decreases a.len() - i,
    {
        if !crate::text::str_eq(a[i].as_str(), b[i].as_str()) {
            proof { assert(syms_model(a@)[i as int] != syms_model(b@)[i as int]); }
            return false;
        }
        i += 1;
    }
    proof { assert(syms_model(a@) =~= syms_model(b@)); }
    true
}

fn dims_eq(a: &Vec<MlirBroadcastDim>, b: &Vec<MlirBroadcastDim>) -> (r: bool)
    ensures
        r == (dims_model(a@) == dims_model(b@)),
{
    if a.len() != b.len() {
        proof { assert(dims_model(a@).len() != dims_model(b@).len()); }
        return false;
    }
    let mut i: usize = 0;
    while i < a.len()
        invariant
            i <= a@.len() == b@.len(),
            forall|k: int| 0 <= k < i ==> a@[k]@ == b@[k]@,
        decreases a.len() - i,
    {
        let same = match (&a[i], &b[i]) {
            (MlirBroadcastDim::Const(x), MlirBroadcastDim::Const(y)) => *x == *y,
            (MlirBroadcastDim::Sym(x), MlirBroadcastDim::Sym(y)) => crate::text::str_eq(x.as_str(), y.as_str()),
            _ => false,
        };
        if !same {
            proof { assert(dims_model(a@)[i as int] != dims_model(b@)[i as int]); }
            return false;
        }
        i += 1;
    }
    proof { assert(dims_model(a@) =~= dims_model(b@)); }
    true
}

fn copies_eq(a: &Vec<MlirCopyOp>, b: &Vec<MlirCopyOp>) -> (r: bool)
    ensures
        r == (a@.map_values(|c: MlirCopyOp| c@) == b@.map_values(|c: MlirCopyOp| c@)),
{
    let ghost ma = a@.map_values(|c: MlirCopyOp| c@);
    let ghost mb = b@.map_values(|c: MlirCopyOp| c@);
    if a.len() != b.len() {
        proof { assert(ma.len() != mb.len()); }
        return false;
    }
    let mut i: usize = 0;
    while i < a.len()
        invariant
            i <= a@.len() == b@.len(),
            ma == a@.map_values(|c: MlirCopyOp| c@),
            mb == b@.map_values(|c: MlirCopyOp| c@),
            forall|k: int| 0 <= k < i ==> ma[k] == mb[k],
        decreases a.len() - i,
    {
        let x = &a[i];
        let y = &b[i];
        let same = crate::text::str_eq(x.src.as_str(), y.src.as_str())
            && crate::text::str_eq(x.src_region.as_str(), y.src_region.as_str())
            && x.src_mem_kind == y.src_mem_kind
            && crate::text::str_eq(x.dst.as_str(), y.dst.as_str())
            && crate::text::str_eq(x.dst_region.as_str(), y.dst_region.as_str())
            && x.dst_mem_kind == y.dst_mem_kind
            && dims_eq(&x.broadcast, &y.broadcast);
        if !same {
            proof { assert(ma[i as int] != mb[i as int]); }
            return false;
        }
        i += 1;
    }
    proof { assert(ma =~= mb); }
    true
}

fn gathers_eq(a: &Vec<MlirGatherOp>, b: &Vec<MlirGatherOp>) -> (r: bool)
    ensures
        r == (a@.map_values(|g: MlirGatherOp| g@) == b@.map_values(|g: MlirGatherOp| g@)),
{
    let ghost ma = a@.map_values(|g: MlirGatherOp| g@);
    let ghost mb = b@.map_values(|g: MlirGatherOp| g@);
    if a.len() != b.len() {
        proof { assert(ma.len() != mb.len()); }
        return false;
    }
    let mut i: usize = 0;
    while i < a.len()
        invariant
            i <= a@.len() == b@.len(),
            ma == a@.map_values(|g: MlirGatherOp| g@),
            mb == b@.map_values(|g: MlirGatherOp| g@),
            forall|k: int| 0 <= k < i ==> ma[k] == mb[k],
        decreases a.len() - i,
    {
        let x = &a[i];
        let y = &b[i];
        let same = crate::text::str_eq(x.src.as_str(), y.src.as_str())
            && crate::text::str_eq(x.dst.as_str(), y.dst.as_str())
            && dims_eq(&x.area, &y.area);
        if !same {
            proof { assert(ma[i as int] != mb[i as int]); }
            return false;
        }
        i += 1;
    }
    proof { assert(ma =~= mb); }
    true
}

fn memref_bindings_eq(a: &Vec<crate::mlir::ops::MlirMemrefSymbolBinding>, b: &Vec<crate::mlir::ops::MlirMemrefSymbolBinding>) -> (r: bool)
    ensures
        r == (a@.map_values(|x: crate::mlir::ops::MlirMemrefSymbolBinding| (x.memref@, syms_model(x.symbols@)))
            == b@.map_values(|x: crate::mlir::ops::MlirMemrefSymbolBinding| (x.memref@, syms_model(x.symbols@)))),
{
    let ghost ma = a@.map_values(|x: crate::mlir::ops::MlirMemrefSymbolBinding| (x.memref@, syms_model(x.symbols@)));
    let ghost mb = b@.map_values(|x: crate::mlir::ops::MlirMemrefSymbolBinding| (x.memref@, syms_model(x.symbols@)));
    if a.len() != b.len() {
        proof { assert(ma.len() != mb.len()); }
        return false;
    }
    let mut i: usize = 0;
    while i < a.len()
        invariant
            i <= a@.len() == b@.len(),
            ma == a@.map_values(|x: crate::mlir::ops::MlirMemrefSymbolBinding| (x.memref@, syms_model(x.symbols@))),
            mb == b@.map_values(|x: crate::mlir::ops::MlirMemrefSymbolBinding| (x.memref@, syms_model(x.symbols@))),
            forall|k: int| 0 <= k < i ==> ma[k] == mb[k],
        decreases a.len() - i,
    {
        if !(crate::text::str_eq(a[i].memref.as_str(), b[i].memref.as_str()) && syms_eq(&a[i].symbols, &b[i].symbols)) {
            proof { assert(ma[i as int] != mb[i as int]); }
            return false;
        }
        i += 1;
    }
    proof { assert(ma =~= mb); }
    true
}

fn tensor_bindings_eq(a: &Vec<crate::mlir::ops::MlirTensorSymbolBinding>, b: &Vec<crate::mlir::ops::MlirTensorSymbolBinding>) -> (r: bool)
    ensures
        r == (a@.map_values(|x: crate::mlir::ops::MlirTensorSymbolBinding| (x.tensor@, syms_model(x.symbols@)))
            == b@.map_values(|x: crate::mlir::ops::MlirTensorSymbolBinding| (x.tensor@, syms_model(x.symbols@)))),
{
    let ghost ma = a@.map_values(|x: crate::mlir::ops::MlirTensorSymbolBinding| (x.tensor@, syms_model(x.symbols@)));
    let ghost mb = b@.map_values(|x: crate::mlir::ops::MlirTensorSymbolBinding| (x.tensor@, syms_model(x.symbols@)));
    if a.len() != b.len() {
        proof { assert(ma.len() != mb.len()); }
        return false;
    }
    let mut i: usize = 0;
    while i < a.len()
        invariant
            i <= a@.len() == b@.len(),
            ma == a@.map_values(|x: crate::mlir::ops::MlirTensorSymbolBinding| (x.tensor@, syms_model(x.symbols@))),
            mb == b@.map_values(|x: crate::mlir::ops::MlirTensorSymbolBinding| (x.tensor@, syms_model(x.symbols@))),
            forall|k: int| 0 <= k < i ==> ma[k] == mb[k],
        decreases a.len() - i,
    {
        if !(crate::text::str_eq(a[i].tensor.as_str(), b[i].tensor.as_str()) && syms_eq(&a[i].symbols, &b[i].symbols)) {
            proof { assert(ma[i as int] != mb[i as int]); }
            return false;
        }
        i += 1;
    }
    proof { assert(ma =~= mb); }
    true
}

fn regions_eq(a: &Vec<crate::mlir::ops::MlirMemRegionBinding>, b: &Vec<crate::mlir::ops::MlirMemRegionBinding>) -> (r: bool)
    ensures
        r == (a@.map_values(|x: crate::mlir::ops::MlirMemRegionBinding| (x.memref@, x.region@))
            == b@.map_values(|x: crate::mlir::ops::MlirMemRegionBinding| (x.memref@, x.region@))),
{
    let ghost ma = a@.map_values(|x: crate::mlir::ops::MlirMemRegionBinding| (x.memref@, x.region@));
    let ghost mb = b@.map_values(|x: crate::mlir::ops::MlirMemRegionBinding| (x.memref@, x.region@));
    if a.len() != b.len() {
        proof { assert(ma.len() != mb.len()); }
        return false;
    }
    let mut i: usize = 0;
    while i < a.len()
        invariant
            i <= a@.len() == b@.len(),
            ma == a@.map_values(|x: crate::mlir::ops::MlirMemRegionBinding| (x.memref@, x.region@)),
            mb == b@.map_values(|x: crate::mlir::ops::MlirMemRegionBinding| (x.memref@, x.region@)),
            forall|k: int| 0 <= k < i ==> ma[k] == mb[k],
        decreases a.len() - i,
    {
        if !(crate::text::str_eq(a[i].memref.as_str(), b[i].memref.as_str()) && crate::text::str_eq(a[i].region.as_str(), b[i].region.as_str())) {
            proof { assert(ma[i as int] != mb[i as int]); }
            return false;
        }
        i += 1;
    }
    proof { assert(ma =~= mb); }
    true
}

/// Whether two function interfaces read alike: the same arguments, bindings and
/// operations, and as many classified operations.
fn same_interface(a: &Option<MlirFuncDetails>, b: &Option<MlirFuncDetails>) -> (r: bool)
    ensures
        r == (match (a, b) {
            (Some(x), Some(y)) => details_model(*x) == details_model(*y),
            (None, None) => true,
            _ => false,
        }),
{
    match (a, b) {
        (None, None) => true,
        (Some(x), Some(y)) => {
            texts_eq(&x.tensor_args, &y.tensor_args)
                && texts_eq(&x.memref_args, &y.memref_args)
                && pairs_eq(&x.memref_arg_types, &y.memref_arg_types)
                && pairs_eq(&x.memref_memory_requirements, &y.memref_memory_requirements)
                && texts_eq(&x.output_tensors, &y.output_tensors)
                && texts_eq(&x.source_memrefs, &y.source_memrefs)
                && texts_eq(&x.target_memrefs, &y.target_memrefs)
                && memref_bindings_eq(&x.memref_symbol_bindings, &y.memref_symbol_bindings)
                && tensor_bindings_eq(&x.tensor_symbol_bindings, &y.tensor_symbol_bindings)
                && regions_eq(&x.mem_region_bindings, &y.mem_region_bindings)
                && copies_eq(&x.copy_ops, &y.copy_ops)
                && gathers_eq(&x.gather_ops, &y.gather_ops)
                && texts_eq(&x.linalg_ops, &y.linalg_ops)
                && x.operations.len() == y.operations.len()
        },
        _ => false,
    }
}

// ---------------------------------------------------------------------------
// Validation

/// What `OperationModel::validate` accepts: identifier symbols without repeats, and a
/// model that declares every symbol that it or the function's shapes use.
pub open spec fn operation_ok(op: OperationModel) -> bool {
    &&& symbols_problem(op.perf.symbols@) is None
    &&& symbols_problem(op.func.symbols@) is None
    &&& (shape_syms(op.func) + model_syms(op.perf)).difference(names(op.perf.symbols@)).is_empty()
}

fn check_operation(op: &OperationModel) -> (r: Result<(), String>)
    ensures
        r is Ok <==> operation_ok(*op),
{
    op.validate()
}

/// The names of the functions of a list of operation models.
pub open spec fn op_names(ops: Seq<OperationModel>) -> Seq<Seq<char>> {
    ops.map_values(|o: OperationModel| o.func.name@)
}

/// The names of a list of read functions.
pub open spec fn model_names(fs: Seq<FuncModel>) -> Seq<Seq<char>> {
    fs.map_values(|f: FuncModel| f.name)
}

/// Whether a read function is named `n`.
pub open spec fn fm_named(n: Seq<char>) -> spec_fn(FuncModel) -> bool {
    |f: FuncModel| f.name == n
}

/// The source holds only whitespace.
pub open spec fn source_blank(s: Seq<char>) -> bool {
    crate::text::trimmed(s, 0, s.len() as int).0 == crate::text::trimmed(s, 0, s.len() as int).1
}

/// An operation model agrees with the function of its name in the source: the same
/// interface, and its symbols are those of the source and of its performance model.
pub open spec fn agrees_with_source(o: OperationModel, f: FuncModel) -> bool {
    &&& f.details == func_model(o.func).details
    &&& f.symbols.to_set() + names(o.perf.symbols@) == names(o.func.symbols@)
}

/// What `ProcessorDefinition::validate` accepts: distinct valid operation models and, unless
/// the source is blank, a source whose functions are distinct, are the modelled functions,
/// and agree with their models.
pub open spec fn definition_ok(d: ProcessorDefinition) -> bool {
    &&& distinct_names(op_names(d.functions@))
    &&& forall|i: int| 0 <= i < d.functions@.len() ==> operation_ok(#[trigger] d.functions@[i])
    &&& !source_blank(d.source@) ==> match module_text(d.source@) {
        Err(_) => false,
        Ok((_, fs)) => {
            &&& distinct_names(model_names(fs))
            &&& op_names(d.functions@).to_set() == model_names(fs).to_set()
            &&& forall|i: int| 0 <= i < d.functions@.len() ==> agrees_with_source(#[trigger] d.functions@[i],
                fs[first_index(fs, fm_named(d.functions@[i].func.name@))])
        },
    }
}

proof fn lemma_syms_set(v: Seq<Sym>)
    ensures
        syms_model(v).to_set() == names(v),
{
    assert forall|n: Seq<char>| syms_model(v).to_set().contains(n) <==> names(v).contains(n) by {
        if syms_model(v).to_set().contains(n) {
            let i = choose|i: int| 0 <= i < syms_model(v).len() && syms_model(v)[i] == n;
            assert(v[i]@ == n);
        }
        if names(v).contains(n) {
            let i = choose|i: int| 0 <= i < v.len() && #[trigger] v[i]@ == n;
            assert(syms_model(v)[i] == n);
        }
    }
    assert(syms_model(v).to_set() =~= names(v));
}

fn push_sorted_names(m: &mut String, v: &Vec<&str>, open: &str, close: &str)
    requires
        distinct_names(str_texts(v@)),
    ensures
        exists|s: Seq<Sym>| {
            &&& crate::math::expr::sorted_names(s)
            &&& names(s) == str_texts(v@).to_set()
            &&& final(m)@ == old(m)@ + open@ + crate::text::quoted_items(#[trigger] syms_model(s)) + close@
        },
{
    let mut syms: Vec<Sym> = Vec::new();
    let mut i: usize = 0;
    while i < v.len()
        invariant
            i <= v@.len(),
            distinct_names(str_texts(v@)),
            syms@.len() == i,
            forall|k: int| 0 <= k < i ==> (#[trigger] syms@[k])@ == v@[k]@,
        decreases v.len() - i,
    {
        syms.push(Sym::new(v[i]));
        i += 1;
    }
    proof {
        assert forall|a: int, b: int| 0 <= a < b < syms@.len() implies syms@[a]@ != syms@[b]@ by {
            assert(str_texts(v@)[a] == syms@[a]@ && str_texts(v@)[b] == syms@[b]@);
        }
        assert forall|n: Seq<char>| names(syms@).contains(n) <==> str_texts(v@).to_set().contains(n) by {
            if names(syms@).contains(n) {
                let k = choose|k: int| 0 <= k < syms@.len() && #[trigger] syms@[k]@ == n;
                assert(str_texts(v@)[k] == n);
            }
            if str_texts(v@).to_set().contains(n) {
                let k = choose|k: int| 0 <= k < str_texts(v@).len() && str_texts(v@)[k] == n;
                assert(syms@[k]@ == n);
            }
        }
        assert(names(syms@) =~= str_texts(v@).to_set());
    }
    let sorted = crate::math::expr::sort_symbols(syms);
    let ghost t = syms_model(sorted@);
    crate::text::push_str(m, open);
    let ghost start = m@;
    let mut k: usize = 0;
    proof { assert(crate::text::quoted_items(t.take(0)) =~= Seq::<char>::empty()); }
    while k < sorted.len()
        invariant
            k <= sorted@.len(),
            t == syms_model(sorted@),
            m@ == start + crate::text::quoted_items(t.take(k as int)),
        decreases sorted.len() - k,
    {
        proof {
            assert(t.take(k + 1).drop_last() =~= t.take(k as int));
            assert(t.take(k + 1).last() == sorted@[k as int]@);
        }
        if k > 0 {
            crate::text::push_str(m, ", \"");
        } else {
            crate::text::push_str(m, "\"");
        }
        crate::text::push_str(m, sorted[k].as_str());
        crate::text::push_str(m, "\"");
        proof {
            if k == 0 {
                assert(t.take(1)[0] == sorted@[0]@);
            }
            assert(m@ =~= start + crate::text::quoted_items(t.take(k + 1)));
        }
        k += 1;
    }
    proof { assert(t.take(t.len() as int) =~= t); }
    crate::text::push_str(m, close);
    proof {
        assert(m@ =~= old(m)@ + open@ + crate::text::quoted_items(syms_model(sorted@)) + close@);
    }
}

fn op_name_list(ops: &Vec<OperationModel>) -> (r: Vec<&str>)
    ensures
        str_texts(r@) == op_names(ops@),
{
    let mut out: Vec<&str> = Vec::new();
    let mut i: usize = 0;
    while i < ops.len()
        invariant
            i <= ops@.len(),
            out@.len() == i,
            forall|k: int| 0 <= k < i ==> (#[trigger] out@[k])@ == ops@[k].func.name@,
        decreases ops.len() - i,
    {
        out.push(ops[i].func.name.as_str());
        i += 1;
    }
    proof { assert(str_texts(out@) =~= op_names(ops@)); }
    out
}

fn func_name_list(fs: &Vec<MlirFunc>) -> (r: Vec<&str>)
    ensures
        str_texts(r@) == model_names(fs@.map_values(|f: MlirFunc| func_model(f))),
{
    let mut out: Vec<&str> = Vec::new();
    let mut i: usize = 0;
    while i < fs.len()
        invariant
            i <= fs@.len(),
            out@.len() == i,
            forall|k: int| 0 <= k < i ==> (#[trigger] out@[k])@ == fs@[k].name@,
        decreases fs.len() - i,
    {
        out.push(fs[i].name.as_str());
        i += 1;
    }
    proof { assert(str_texts(out@) =~= model_names(fs@.map_values(|f: MlirFunc| func_model(f)))); }
    out
}

fn contains_text(v: &Vec<&str>, s: &str) -> (r: bool)
    ensures
        r == str_texts(v@).contains(s@),
{
    let mut k: usize = 0;
    while k < v.len()
        invariant
            k <= v@.len(),
            forall|x: int| 0 <= x < k ==> v@[x]@ != s@,
        decreases v.len() - k,
    {
        if crate::text::str_eq(v[k], s) {
            proof { assert(str_texts(v@)[k as int] == s@); }
            return true;
        }
        k += 1;
    }
    proof {
        if str_texts(v@).contains(s@) {
            let x = choose|x: int| 0 <= x < v@.len() && str_texts(v@)[x] == s@;
            assert(v@[x]@ == s@);
        }
    }
    false
}

fn subset_texts(a: &Vec<&str>, b: &Vec<&str>) -> (r: bool)
    ensures
        r == str_texts(a@).to_set().subset_of(str_texts(b@).to_set()),
{
    let mut k: usize = 0;
    while k < a.len()
        invariant
            k <= a@.len(),
            forall|x: int| 0 <= x < k ==> str_texts(b@).contains(#[trigger] a@[x]@),
        decreases a.len() - k,
    {
        if !contains_text(b, a[k]) {
            proof { assert(str_texts(a@).to_set().contains(a@[k as int]@)) by { assert(str_texts(a@)[k as int] == a@[k as int]@); } }
            return false;
        }
        k += 1;
    }
    proof {
        assert forall|n: Seq<char>| str_texts(a@).to_set().contains(n) implies str_texts(b@).to_set().contains(n) by {
            let x = choose|x: int| 0 <= x < str_texts(a@).len() && str_texts(a@)[x] == n;
            assert(str_texts(b@).contains(a@[x]@));
        }
    }
    true
}

fn symbols_agree(o: &OperationModel, f: &MlirFunc) -> (r: bool)
    ensures
        r == (syms_model(f.symbols@).to_set() + names(o.perf.symbols@) == names(o.func.symbols@)),
{
    proof { lemma_syms_set(f.symbols@); }
    let ghost lhs = names(f.symbols@) + names(o.perf.symbols@);
    let ghost rhs = names(o.func.symbols@);
    let mut k: usize = 0;
    while k < o.func.symbols.len()
        invariant
            k <= o.func.symbols@.len(),
            lhs == names(f.symbols@) + names(o.perf.symbols@),
            rhs == names(o.func.symbols@),
            syms_model(f.symbols@).to_set() == names(f.symbols@),
            forall|x: int| 0 <= x < k ==> lhs.contains(#[trigger] o.func.symbols@[x]@),
        decreases o.func.symbols.len() - k,
    {
        let s = &o.func.symbols[k];
        if !crate::math::expr::contains_name(&f.symbols, s) && !crate::math::expr::contains_name(&o.perf.symbols, s) {
            proof { assert(rhs.contains(s@)); assert(!lhs.contains(s@)); }
            return false;
        }
        k += 1;
    }
    let mut k: usize = 0;
    while k < f.symbols.len()
        invariant
            k <= f.symbols@.len(),
            lhs == names(f.symbols@) + names(o.perf.symbols@),
            rhs == names(o.func.symbols@),
            syms_model(f.symbols@).to_set() == names(f.symbols@),
            forall|x: int| 0 <= x < k ==> rhs.contains(#[trigger] f.symbols@[x]@),
        decreases f.symbols.len() - k,
    {
        if !crate::math::expr::contains_name(&o.func.symbols, &f.symbols[k]) {
            proof { assert(names(f.symbols@).contains(f.symbols@[k as int]@)); assert(lhs.contains(f.symbols@[k as int]@)); }
            return false;
        }
        k += 1;
    }
    let mut k: usize = 0;
    while k < o.perf.symbols.len()
        invariant
            k <= o.perf.symbols@.len(),
            lhs == names(f.symbols@) + names(o.perf.symbols@),
            rhs == names(o.func.symbols@),
            syms_model(f.symbols@).to_set() == names(f.symbols@),
            forall|x: int| 0 <= x < k ==> rhs.contains(#[trigger] o.perf.symbols@[x]@),
        decreases o.perf.symbols.len() - k,
    {
        if !crate::math::expr::contains_name(&o.func.symbols, &o.perf.symbols[k]) {
            proof { assert(names(o.perf.symbols@).contains(o.perf.symbols@[k as int]@)); assert(lhs.contains(o.perf.symbols@[k as int]@)); }
            return false;
        }
        k += 1;
    }
    proof {
        assert forall|n: Seq<char>| lhs.contains(n) <==> rhs.contains(n) by {
            if rhs.contains(n) {
                let x = choose|x: int| 0 <= x < o.func.symbols@.len() && #[trigger] o.func.symbols@[x]@ == n;
            }
            if names(f.symbols@).contains(n) {
                let x = choose|x: int| 0 <= x < f.symbols@.len() && #[trigger] f.symbols@[x]@ == n;
            }
            if names(o.perf.symbols@).contains(n) {
                let x = choose|x: int| 0 <= x < o.perf.symbols@.len() && #[trigger] o.perf.symbols@[x]@ == n;
            }
        }
        assert(lhs =~= rhs);
    }
    true
}

/// The position of the first function with the given name, or the length of the list.
fn find_parsed(fs: &Vec<MlirFunc>, name: &str) -> (r: usize)
    ensures
        r <= fs@.len(),
        r < fs@.len() ==> r as int == first_index(fs@.map_values(|f: MlirFunc| func_model(f)), fm_named(name@)),
        r == fs@.len() ==> first_index(fs@.map_values(|f: MlirFunc| func_model(f)), fm_named(name@)) == -1,
{
    let ghost m = fs@.map_values(|f: MlirFunc| func_model(f));
    let ghost p = fm_named(name@);
    let mut k: usize = 0;
    while k < fs.len()
        invariant
            k <= fs@.len() == m.len(),
            m == fs@.map_values(|f: MlirFunc| func_model(f)),
            p == fm_named(name@),
            forall|j: int| 0 <= j < k ==> !p(#[trigger] m[j]),
        decreases fs.len() - k,
    {
        proof { assert(m[k as int].name == fs@[k as int].name@); }
        if crate::text::str_eq(fs[k].name.as_str(), name) {
            proof { lemma_first_index(m, p, k as int); }
            return k;
        }
        k += 1;
    }
    proof { lemma_first_index(m, p, k as int); }
    k
}

impl ProcessorDefinition {
    /// Checks the definition: distinct valid operation models and, unless the source is
    /// blank, a source whose functions are distinct, are exactly the modelled functions,
    /// and have the interfaces of their models and the symbols of source and model
    /// together.
    pub fn validate(&self) -> (r: Result<(), String>)
        ensures
            r is Ok <==> definition_ok(*self),
    {
        let ops = &self.functions;
        let mut i: usize = 0;
        while i < ops.len()
            invariant
                i <= ops@.len(),
                *ops == self.functions,
                forall|a: int, b: int| 0 <= a < b < i ==> op_names(ops@)[a] != op_names(ops@)[b],
                forall|k: int| 0 <= k < i ==> operation_ok(#[trigger] ops@[k]),
            decreases ops.len() - i,
        {
            let mut k: usize = 0;
            while k < i
                invariant
                    k <= i < ops@.len(),
                    *ops == self.functions,
                    forall|a: int| 0 <= a < k ==> ops@[a].func.name@ != ops@[i as int].func.name@,
                decreases i - k,
            {
                if crate::text::str_eq(ops[k].func.name.as_str(), ops[i].func.name.as_str()) {
                    proof { assert(op_names(ops@)[k as int] == op_names(ops@)[i as int]); }
                    let mut m = crate::text::owned("processor definition '");
                    crate::text::push_str(&mut m, self.name.as_str());
                    crate::text::push_str(&mut m, "' has duplicate function '");
                    crate::text::push_str(&mut m, ops[i].func.name.as_str());
                    crate::text::push_str(&mut m, "'");
                    return Err(m);
                }
                k += 1;
            }
            if let Err(m) = check_operation(&ops[i]) {
                proof { assert(!operation_ok(self.functions@[i as int])); }
                return Err(m);
            }
            i += 1;
        }
        let cs = crate::text::chars_of(self.source.as_str());
        let (lo, hi) = crate::text::trim_range(cs.as_slice(), 0, cs.len());
        if lo == hi {
            return Ok(());
        }
        let parsed = crate::mlir::func::MlirModule::from_mlir_source(self.source.as_str())?;
        let ghost fs = parsed.functions@.map_values(|f: MlirFunc| func_model(f));
        let pnames = func_name_list(&parsed.functions);
        proof { lemma_first_dup_distinct(model_names(fs)); }
        if let Err(e) = validate_unique(&pnames, "source function") {
            let name = match e {
                super::architecture::ArchitectureError::DuplicateName { kind: _, name } => name,
                _ => crate::text::owned(""),
            };
            let mut m = crate::text::owned("duplicate source function '");
            crate::text::push_str(&mut m, name.as_str());
            crate::text::push_str(&mut m, "'");
            return Err(m);
        }
        let cnames = op_name_list(ops);
        let c_in_p = subset_texts(&cnames, &pnames);
        let p_in_c = subset_texts(&pnames, &cnames);
        if !(c_in_p && p_in_c) {
            proof {
                if op_names(ops@).to_set() == model_names(fs).to_set() {
                    assert(str_texts(cnames@).to_set().subset_of(str_texts(pnames@).to_set()));
                    assert(str_texts(pnames@).to_set().subset_of(str_texts(cnames@).to_set()));
                }
                assert(distinct_names(str_texts(cnames@)));
            }
            let mut m = crate::text::owned("processor definition '");
            crate::text::push_str(&mut m, self.name.as_str());
            crate::text::push_str(&mut m, "' source functions disagree with its operation models: source=");
            push_sorted_names(&mut m, &pnames, "{", "}");
            crate::text::push_str(&mut m, ", models=");
            push_sorted_names(&mut m, &cnames, "{", "}");
            return Err(m);
        }
        proof {
            assert(op_names(ops@).to_set() =~= model_names(fs).to_set()) by {
                assert(str_texts(cnames@).to_set().subset_of(str_texts(pnames@).to_set()));
                assert(str_texts(pnames@).to_set().subset_of(str_texts(cnames@).to_set()));
            }
        }
        let mut i: usize = 0;
        while i < ops.len()
            invariant
                i <= ops@.len(),
                *ops == self.functions,
                fs == parsed.functions@.map_values(|f: MlirFunc| func_model(f)),
                op_names(ops@).to_set() == model_names(fs).to_set(),
                !source_blank(self.source@),
                module_text(self.source@) is Ok && module_text(self.source@)->Ok_0.1 == fs,
                forall|k: int| 0 <= k < i ==> agrees_with_source(#[trigger] ops@[k], fs[first_index(fs, fm_named(ops@[k].func.name@))]),
            decreases ops.len() - i,
        {
            let o = &ops[i];
            let ghost p = fm_named(o.func.name@);
            proof {
                assert(op_names(ops@).to_set().contains(o.func.name@)) by { assert(op_names(ops@)[i as int] == o.func.name@); }
                assert(model_names(fs).to_set().contains(o.func.name@));
                let w = choose|w: int| 0 <= w < model_names(fs).len() && model_names(fs)[w] == o.func.name@;
                assert(p(fs[w]));
                lemma_first_index_is_first(fs, p);
            }
            let k = find_parsed(&parsed.functions, o.func.name.as_str());
            proof { lemma_first_index_is_first(fs, p); }
            if k == parsed.functions.len() {
                return Err(crate::text::owned("unreachable"));
            }
            let f = &parsed.functions[k];
            proof { assert(fs[k as int] == func_model(*f)); }
            if !same_interface(&o.func.mlir_details, &f.mlir_details) {
                proof { assert(!agrees_with_source(self.functions@[i as int], fs[first_index(fs, fm_named(self.functions@[i as int].func.name@))])); }
                let mut m = crate::text::owned("processor definition '");
                crate::text::push_str(&mut m, self.name.as_str());
                crate::text::push_str(&mut m, "' function '");
                crate::text::push_str(&mut m, o.func.name.as_str());
                crate::text::push_str(&mut m, "' interface or operations disagree with its source");
                return Err(m);
            }
            if !symbols_agree(o, f) {
                proof { assert(!agrees_with_source(self.functions@[i as int], fs[first_index(fs, fm_named(self.functions@[i as int].func.name@))])); }
                let mut m = crate::text::owned("processor definition '");
                crate::text::push_str(&mut m, self.name.as_str());
                crate::text::push_str(&mut m, "' function '");
                crate::text::push_str(&mut m, o.func.name.as_str());
                crate::text::push_str(&mut m, "' symbols disagree with its source and performance model");
                return Err(m);
            }
            i += 1;
        }
        Ok(())
    }
}

// ---------------------------------------------------------------------------
// Building from native MLIR

/// The function names of performance models.
pub open spec fn perf_names(p: Seq<(String, FuncPerfModel)>) -> Seq<Seq<char>> {
    p.map_values(|x: (String, FuncPerfModel)| x.0@)
}

/// Whether a name is `n`.
pub open spec fn name_is(n: Seq<char>) -> spec_fn(Seq<char>) -> bool {
    |x: Seq<char>| x == n
}

/// Each function of the source has exactly one performance model and each model one
/// function: distinct function names, distinct model names, and the same names.
pub open spec fn models_match(fs: Seq<FuncModel>, perf: Seq<(String, FuncPerfModel)>) -> bool {
    &&& distinct_names(perf_names(perf))
    &&& distinct_names(model_names(fs))
    &&& model_names(fs).to_set() == perf_names(perf).to_set()
}

fn find_text(v: &Vec<&str>, s: &str) -> (r: Option<usize>)
    ensures
        match r {
            Some(i) => i as int == first_index(str_texts(v@), name_is(s@)),
            None => first_index(str_texts(v@), name_is(s@)) == -1,
        },
{
    let ghost t = str_texts(v@);
    let ghost p = name_is(s@);
    let mut k: usize = 0;
    while k < v.len()
        invariant
            k <= v@.len() == t.len(),
            t == str_texts(v@),
            p == name_is(s@),
            forall|j: int| 0 <= j < k ==> !p(#[trigger] t[j]),
        decreases v.len() - k,
    {
        if crate::text::str_eq(v[k], s) {
            proof { lemma_first_index(t, p, k as int); }
            return Some(k);
        }
        k += 1;
    }
    proof { lemma_first_index(t, p, k as int); }
    None
}

impl ProcessorDefinition {
    /// A definition from native MLIR and one performance model per function of it, matched
    /// by function name; the source's functions become the operation models, in order.
    pub fn from_mlir_source(name: &str, source: &str, performance: Vec<(String, FuncPerfModel)>) -> (r: Result<ProcessorDefinition, String>)
        ensures
            match r {
                Ok(d) => {
                    let fs = module_text(source@)->Ok_0.1;
                    &&& module_text(source@) is Ok
                    &&& models_match(fs, performance@)
                    &&& d.name@ == name@
                    &&& d.source@ == source@
                    &&& d.processor_type is None
                    &&& d.resources@.len() == 0
                    &&& d.functions@.len() == fs.len()
                    &&& forall|i: int| 0 <= i < fs.len() ==> func_model((#[trigger] d.functions@[i]).func) == fs[i]
                        && d.functions@[i].perf == performance@[first_index(perf_names(performance@), name_is(fs[i].name))].1
                    &&& forall|i: int| 0 <= i < d.functions@.len() ==> (#[trigger] d.functions@[i]).func.sym_map is None
                },
                Err(_) => !(module_text(source@) is Ok && models_match(module_text(source@)->Ok_0.1, performance@)),
            },
    {
        let module = crate::mlir::func::MlirModule::from_mlir_source(source)?;
        let ghost fs = module.functions@.map_values(|f: MlirFunc| func_model(f));
        let ghost perf0 = performance@;
        let ghost pn = perf_names(perf0);
        let mut owned_names: Vec<String> = Vec::new();
        let mut i: usize = 0;
        while i < performance.len()
            invariant
                i <= performance@.len(),
                owned_names@.len() == i,
                forall|k: int| 0 <= k < i ==> (#[trigger] owned_names@[k])@ == performance@[k].0@,
            decreases performance.len() - i,
        {
            owned_names.push(performance[i].0.clone());
            i += 1;
        }
        let mut pnames: Vec<&str> = Vec::new();
        let mut i: usize = 0;
        while i < owned_names.len()
            invariant
                i <= owned_names@.len(),
                pnames@.len() == i,
                forall|k: int| 0 <= k < i ==> (#[trigger] pnames@[k])@ == owned_names@[k]@,
            decreases owned_names.len() - i,
        {
            pnames.push(owned_names[i].as_str());
            i += 1;
        }
        proof {
            assert(str_texts(pnames@) =~= pn);
            lemma_first_dup_distinct(pn);
        }
        if let Err(e) = validate_unique(&pnames, "performance model") {
            let dup = match e {
                super::architecture::ArchitectureError::DuplicateName { kind: _, name } => name,
                _ => crate::text::owned(""),
            };
            let mut m = crate::text::owned("duplicate performance model for function '");
            crate::text::push_str(&mut m, dup.as_str());
            crate::text::push_str(&mut m, "'");
            return Err(m);
        }
        // Which model each function takes, in order; a second function of one name finds its
        // model taken.
        let nf = module.functions.len();
        let np = pnames.len();
        let mut used: Vec<bool> = Vec::new();
        let mut i: usize = 0;
        while i < np
            invariant
                i <= np,
                used@.len() == i,
                forall|k: int| 0 <= k < i ==> !used@[k],
            decreases np - i,
        {
            used.push(false);
            i += 1;
        }
        let mut k: usize = 0;
        while k < nf
            invariant
                k <= nf == fs.len(),
                np == pn.len() == used@.len(),
                module_text(source@) is Ok && module_text(source@)->Ok_0.1 == fs,
                pn == perf_names(performance@),
                fs == module.functions@.map_values(|f: MlirFunc| func_model(f)),
                pn == str_texts(pnames@),
                distinct_names(pn),
                forall|a: int| 0 <= a < k ==> {
                    let j = first_index(pn, name_is(#[trigger] fs[a].name));
                    j >= 0 && used@[j]
                },
                forall|j: int| 0 <= j < np && #[trigger] used@[j] ==> exists|a: int| 0 <= a < k && pn[j] == fs[a].name,
                forall|a: int, b: int| 0 <= a < b < k ==> fs[a].name != fs[b].name,
            decreases nf - k,
        {
            let fname = module.functions[k].name.as_str();
            proof {
                assert(fs[k as int].name == fname@);
                lemma_first_index_is_first(pn, name_is(fname@));
            }
            let j = match find_text(&pnames, fname) {
                Some(j) => j,
                None => {
                    proof {
                        if model_names(fs).to_set() == pn.to_set() {
                            assert(model_names(fs)[k as int] == fname@);
                            assert(pn.to_set().contains(fname@));
                            let w = choose|w: int| 0 <= w < pn.len() && pn[w] == fname@;
                            assert(name_is(fname@)(pn[w]));
                        }
                    }
                    let mut m = crate::text::owned("no performance model was supplied for function '");
                    crate::text::push_str(&mut m, fname);
                    crate::text::push_str(&mut m, "'");
                    return Err(m);
                },
            };
            if used[j] {
                proof {
                    let a = choose|a: int| 0 <= a < k && pn[j as int] == fs[a].name;
                    assert(model_names(fs)[a] == model_names(fs)[k as int]);
                }
                let mut m = crate::text::owned("no performance model was supplied for function '");
                crate::text::push_str(&mut m, fname);
                crate::text::push_str(&mut m, "'");
                return Err(m);
            }
            proof {
                assert forall|a: int| 0 <= a < k implies fs[a].name != fs[k as int].name by {
                    if fs[a].name == fs[k as int].name {
                        assert(first_index(pn, name_is(fs[a].name)) == j as int);
                    }
                }
            }
            let ghost used_before = used@;
            used.set(j, true);
            proof {
                assert(fs[k as int].name == fname@);
                assert forall|a: int| 0 <= a < k + 1 implies {
                    let jj = first_index(pn, name_is(#[trigger] fs[a].name));
                    jj >= 0 && used@[jj]
                } by {
                    lemma_first_index_is_first(pn, name_is(fs[a].name));
                    if a < k {
                        let jj = first_index(pn, name_is(fs[a].name));
                        assert(used_before[jj]);
                    }
                }
                assert forall|x: int| 0 <= x < np && #[trigger] used@[x] implies exists|a: int| 0 <= a < k + 1 && pn[x] == fs[a].name by {
                    if x != j {
                        assert(used_before[x]);
                        let a = choose|a: int| 0 <= a < k && pn[x] == fs[a].name;
                    } else {
                        lemma_first_index_is_first(pn, name_is(fname@));
                        assert(pn[x] == fs[k as int].name);
                    }
                }
            }
            k += 1;
        }
        let mut unused: Vec<&str> = Vec::new();
        let ghost mut idx: Seq<int> = Seq::empty();
        let mut j: usize = 0;
        while j < np
            invariant
                j <= np == pn.len() == used@.len() == pnames@.len(),
                pn == str_texts(pnames@),
                nf == fs.len(),
                module_text(source@) is Ok && module_text(source@)->Ok_0.1 == fs,
                pn == perf_names(performance@),
                forall|a: int| 0 <= a < nf ==> {
                    let j = first_index(pn, name_is(#[trigger] fs[a].name));
                    j >= 0 && used@[j]
                },
                forall|x: int| 0 <= x < np && #[trigger] used@[x] ==> exists|a: int| 0 <= a < nf && pn[x] == fs[a].name,
                forall|a: int, b: int| 0 <= a < b < nf ==> fs[a].name != fs[b].name,
                distinct_names(pn),
                unused@.len() == 0 ==> forall|x: int| 0 <= x < j ==> #[trigger] used@[x],
                unused@.len() > 0 ==> exists|x: int| 0 <= x < j && !#[trigger] used@[x],
                distinct_names(str_texts(unused@)),
                idx.len() == unused@.len(),
                forall|y: int| 0 <= y < unused@.len() ==> 0 <= #[trigger] idx[y] < j && unused@[y]@ == pn[idx[y]],
            decreases np - j,
        {
            let ghost before_all = unused@;
            if !used[j] {
                proof {
                    assert forall|y: int| 0 <= y < unused@.len() implies unused@[y]@ != pn[j as int] by {
                        assert(0 <= idx[y] < j && unused@[y]@ == pn[idx[y]]);
                    }
                }
                let ghost before = unused@;
                unused.push(pnames[j]);
                proof {
                    idx = idx.push(j as int);
                    assert forall|a: int, b: int| 0 <= a < b < unused@.len() implies str_texts(unused@)[a] != str_texts(unused@)[b] by {
                        if b < before.len() {
                            assert(str_texts(before)[a] == str_texts(unused@)[a]);
                            assert(str_texts(before)[b] == str_texts(unused@)[b]);
                        }
                    }
                }
            }
            j += 1;
        }
        if unused.len() > 0 {
            proof {
                let x = choose|x: int| 0 <= x < np && !used@[x];
                if model_names(fs).to_set() == pn.to_set() {
                    assert(pn.to_set().contains(pn[x]));
                    let w = choose|w: int| 0 <= w < fs.len() && model_names(fs)[w] == pn[x];
                    assert(first_index(pn, name_is(fs[w].name)) >= 0);
                    lemma_first_index_is_first(pn, name_is(fs[w].name));
                    assert(first_index(pn, name_is(fs[w].name)) == x) by {
                        let y = first_index(pn, name_is(fs[w].name));
                        if y != x {
                            assert(pn[y] == pn[x]);
                        }
                    }
                }
            }
            let mut m = crate::text::owned("performance models refer to unknown MLIR functions: ");
            push_sorted_names(&mut m, &unused, "[", "]");
            return Err(m);
        }
        proof {
            assert(model_names(fs).to_set() =~= pn.to_set()) by {
                assert forall|n: Seq<char>| model_names(fs).to_set().contains(n) implies pn.to_set().contains(n) by {
                    let a = choose|a: int| 0 <= a < model_names(fs).len() && model_names(fs)[a] == n;
                    let j = first_index(pn, name_is(fs[a].name));
                    lemma_first_index_is_first(pn, name_is(fs[a].name));
                }
                assert forall|n: Seq<char>| pn.to_set().contains(n) implies model_names(fs).to_set().contains(n) by {
                    let x = choose|x: int| 0 <= x < pn.len() && pn[x] == n;
                    assert(used@[x]);
                    let a = choose|a: int| 0 <= a < nf && pn[x] == fs[a].name;
                    assert(model_names(fs)[a] == n);
                }
            }
            assert(distinct_names(model_names(fs))) by {
                assert forall|a: int, b: int| 0 <= a < b < fs.len() implies model_names(fs)[a] != model_names(fs)[b] by {}
            }
        }
        proof {
            assert forall|a: int| 0 <= a < module.functions@.len() implies first_index(pn, name_is(#[trigger] module.functions@[a].name@)) >= 0 by {
                assert(fs[a].name == module.functions@[a].name@);
            }
        }
        let ops = build_operations(module.functions, performance, Ghost(pn));
        Ok(ProcessorDefinition {
            name: crate::text::owned(name),
            processor_type: None,
            source: crate::text::owned(source),
            functions: ops,
            resources: Vec::new(),
        })
    }
}

fn position_of_name(names: &Vec<String>, s: &str) -> (r: usize)
    ensures
        r <= names@.len(),
        forall|j: int| 0 <= j < r ==> names@[j]@ != s@,
        r < names@.len() ==> names@[r as int]@ == s@,
{
    let mut k: usize = 0;
    while k < names.len()
        invariant
            k <= names@.len(),
            forall|j: int| 0 <= j < k ==> names@[j]@ != s@,
        decreases names.len() - k,
    {
        if crate::text::str_eq(names[k].as_str(), s) {
            return k;
        }
        k += 1;
    }
    k
}

/// Pairs each function with the performance model of its name.
fn build_operations(functions: Vec<MlirFunc>, performance: Vec<(String, FuncPerfModel)>, Ghost(pn): Ghost<Seq<Seq<char>>>) -> (r: Vec<OperationModel>)
    requires
        pn == perf_names(performance@),
        distinct_names(pn),
        distinct_names(model_names(functions@.map_values(|f: MlirFunc| func_model(f)))),
        forall|a: int| 0 <= a < functions@.len() ==> first_index(pn, name_is(#[trigger] functions@[a].name@)) >= 0,
    ensures
        r@.len() == functions@.len(),
        forall|i: int| 0 <= i < functions@.len() ==> (#[trigger] r@[i]).func == functions@[i]
            && r@[i].perf == performance@[first_index(pn, name_is(functions@[i].name@))].1,
{
    let ghost perf0 = performance@;
    let ghost f0 = functions@;
    let mut performance = performance;
    let mut names: Vec<String> = Vec::new();
    let mut slots: Vec<Option<FuncPerfModel>> = Vec::new();
    while performance.len() > 0
        invariant
            performance@.len() + names@.len() == perf0.len(),
            names@.len() == slots@.len(),
            forall|k: int| 0 <= k < performance@.len() ==> #[trigger] performance@[k] == perf0[k],
            forall|k: int| 0 <= k < names@.len() ==> (#[trigger] names@[k])@ == perf0[performance@.len() + k].0@,
            forall|k: int| 0 <= k < slots@.len() ==> #[trigger] slots@[k] == Some(perf0[performance@.len() + k].1),
        decreases performance.len(),
    {
        let (n, m) = performance.pop().unwrap();
        names.insert(0, n);
        slots.insert(0, Some(m));
    }
    let mut functions = functions;
    let mut out: Vec<OperationModel> = Vec::new();
    proof {
        assert forall|k: int| 0 <= k < names@.len() implies (#[trigger] names@[k])@ == pn[k] by {}
        assert forall|a: int| 0 <= a < functions@.len() implies slots@[first_index(pn, name_is(#[trigger] f0[a].name@))] is Some by {
            lemma_first_index_is_first(pn, name_is(f0[a].name@));
        }
    }
    while functions.len() > 0
        invariant
            functions@.len() + out@.len() == f0.len(),
            names@.len() == slots@.len() == perf0.len(),
            pn == perf_names(perf0),
            distinct_names(pn),
            distinct_names(model_names(f0.map_values(|f: MlirFunc| func_model(f)))),
            forall|a: int| 0 <= a < f0.len() ==> first_index(pn, name_is(#[trigger] f0[a].name@)) >= 0,
            forall|k: int| 0 <= k < functions@.len() ==> #[trigger] functions@[k] == f0[k],
            forall|k: int| 0 <= k < names@.len() ==> (#[trigger] names@[k])@ == pn[k],
            forall|k: int| 0 <= k < slots@.len() ==> (#[trigger] slots@[k] is Some ==> slots@[k] == Some(perf0[k].1)),
            forall|a: int| 0 <= a < functions@.len() ==> slots@[first_index(pn, name_is(#[trigger] f0[a].name@))] is Some,
            forall|i: int| 0 <= i < out@.len() ==> (#[trigger] out@[i]).func == f0[functions@.len() + i]
                && out@[i].perf == perf0[first_index(pn, name_is(f0[functions@.len() + i].name@))].1,
        decreases functions.len(),
    {
        let f = functions.pop().unwrap();
        let ghost a = functions@.len() as int;
        proof {
            assert(f == f0[a]);
            lemma_first_index_is_first(pn, name_is(f.name@));
        }
        let j = position_of_name(&names, f.name.as_str());
        proof {
            assert forall|x: int| 0 <= x < j implies !name_is(f.name@)(#[trigger] pn[x]) by {
                assert(names@[x]@ == pn[x]);
            }
            if j < names@.len() {
                assert(names@[j as int]@ == pn[j as int]);
            }
        }
        proof { lemma_first_index(pn, name_is(f.name@), j as int); }
        let mut taken: Option<FuncPerfModel> = None;
        if j < slots.len() {
            slots.set_and_swap(j, &mut taken);
        }
        let m = taken.unwrap();
        proof {
            assert forall|b: int| 0 <= b < functions@.len() implies slots@[first_index(pn, name_is(#[trigger] f0[b].name@))] is Some by {
                lemma_first_index_is_first(pn, name_is(f0[b].name@));
                if first_index(pn, name_is(f0[b].name@)) == j as int {
                    assert(model_names(f0.map_values(|f: MlirFunc| func_model(f)))[b] == model_names(f0.map_values(|f: MlirFunc| func_model(f)))[a]);
                }
            }
        }
        let op = OperationModel::new(f, m);
        out.insert(0, op);
    }
    out
}

} // verus!
