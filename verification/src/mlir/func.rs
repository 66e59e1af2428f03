//! MLIR functions and modules, and the reading of one `func.func` into its interface.
use vstd::prelude::*;

use crate::math::expr::Sym;
use crate::schedule::schedule::SymbolicMapping;
use crate::text::is_space;
use super::lex::{lines_model, range_text, ssa_at, starts, trimmed_lines};
use super::ops::{
    bind_mem, bind_shape, dim_syms, loom_copy, loom_gather, memref_copy, return_operands, sym_decl,
    syms_model, texts_model, CopyModel, GatherModel, MlirCopyOp, MlirGatherOp, MlirMemRegionBinding,
    MlirMemrefSymbolBinding, MlirTensorSymbolBinding,
};
use super::scan::{add_name, add_names, code_of, func_header, linalg_names, mlir_split, outs_from};

verus! {

/// The kind of one operation in a function body.
#[derive(Debug, PartialEq, Eq, Hash)]
pub enum MlirOperationKind {
    Copy,
    Broadcast,
    Gather,
    Linalg(String),
    UnsupportedLoom(String),
}

/// Interface metadata read from one MLIR function.
#[derive(Debug, PartialEq, Eq, Hash)]
pub struct MlirFuncDetails {
    /// Tensor argument names of the signature, without `%`.
    pub tensor_args: Vec<String>,
    /// Memref argument names of the signature, without `%`.
    pub memref_args: Vec<String>,
    /// Each memref argument with its type, whitespace removed.
    pub memref_arg_types: Vec<(String, String)>,
    /// Memory technologies that memref arguments require, where a front end states them.
    pub memref_memory_requirements: Vec<(String, String)>,
    /// Tensor operands written by `outs(..)` or returned.
    pub output_tensors: Vec<String>,
    /// Memref arguments read by a copy or gather.
    pub source_memrefs: Vec<String>,
    /// Memref arguments written by a copy or gather.
    pub target_memrefs: Vec<String>,
    pub memref_symbol_bindings: Vec<MlirMemrefSymbolBinding>,
    pub tensor_symbol_bindings: Vec<MlirTensorSymbolBinding>,
    pub mem_region_bindings: Vec<MlirMemRegionBinding>,
    pub copy_ops: Vec<MlirCopyOp>,
    pub gather_ops: Vec<MlirGatherOp>,
    /// The `linalg.*` operations named in the body, each once.
    pub linalg_ops: Vec<String>,
    /// Body operations by kind, where a front end lists them.
    pub operations: Vec<MlirOperationKind>,
}

/// One MLIR function: its name, its symbols, its interface and the symbol mapping of one
/// call site.
#[derive(Debug, PartialEq, Eq)]
pub struct MlirFunc {
    pub name: String,
    pub symbols: Vec<Sym>,
    pub mlir_details: Option<MlirFuncDetails>,
    pub sym_map: Option<SymbolicMapping>,
}

/// An MLIR module: where it came from, its symbol name, and its functions.
#[derive(Debug, PartialEq, Eq)]
pub struct MlirModule {
    pub path: Option<String>,
    pub module_name: Option<String>,
    pub functions: Vec<MlirFunc>,
}

/// `(name, symbols)` of a shape binding.
pub type BindingModel = (Seq<char>, Seq<Seq<char>>);

/// Model of [`MlirFuncDetails`].
pub ghost struct DetailsModel {
    pub tensor_args: Seq<Seq<char>>,
    pub memref_args: Seq<Seq<char>>,
    pub memref_arg_types: Seq<(Seq<char>, Seq<char>)>,
    pub memref_memory_requirements: Seq<(Seq<char>, Seq<char>)>,
    pub output_tensors: Seq<Seq<char>>,
    pub source_memrefs: Seq<Seq<char>>,
    pub target_memrefs: Seq<Seq<char>>,
    pub memref_symbol_bindings: Seq<BindingModel>,
    pub tensor_symbol_bindings: Seq<BindingModel>,
    pub mem_region_bindings: Seq<(Seq<char>, Seq<char>)>,
    pub copy_ops: Seq<CopyModel>,
    pub gather_ops: Seq<GatherModel>,
    pub linalg_ops: Seq<Seq<char>>,
    pub operations_len: nat,
}

/// Model of an [`MlirFunc`] read from text.
pub ghost struct FuncModel {
    pub name: Seq<char>,
    pub symbols: Seq<Seq<char>>,
    pub details: Option<DetailsModel>,
}

pub open spec fn pairs_model(v: Seq<(String, String)>) -> Seq<(Seq<char>, Seq<char>)> {
    v.map_values(|p: (String, String)| (p.0@, p.1@))
}

pub open spec fn details_model(d: MlirFuncDetails) -> DetailsModel {
    DetailsModel {
        tensor_args: texts_model(d.tensor_args@),
        memref_args: texts_model(d.memref_args@),
        memref_arg_types: pairs_model(d.memref_arg_types@),
        memref_memory_requirements: pairs_model(d.memref_memory_requirements@),
        output_tensors: texts_model(d.output_tensors@),
        source_memrefs: texts_model(d.source_memrefs@),
        target_memrefs: texts_model(d.target_memrefs@),
        memref_symbol_bindings: d.memref_symbol_bindings@.map_values(|b: MlirMemrefSymbolBinding| (b.memref@, syms_model(b.symbols@))),
        tensor_symbol_bindings: d.tensor_symbol_bindings@.map_values(|b: MlirTensorSymbolBinding| (b.tensor@, syms_model(b.symbols@))),
        mem_region_bindings: d.mem_region_bindings@.map_values(|b: MlirMemRegionBinding| (b.memref@, b.region@)),
        copy_ops: d.copy_ops@.map_values(|c: MlirCopyOp| c@),
        gather_ops: d.gather_ops@.map_values(|g: MlirGatherOp| g@),
        linalg_ops: texts_model(d.linalg_ops@),
        operations_len: d.operations@.len(),
    }
}

pub open spec fn func_model(f: MlirFunc) -> FuncModel {
    FuncModel {
        name: f.name@,
        symbols: syms_model(f.symbols@),
        details: match f.mlir_details {
            Some(d) => Some(details_model(d)),
            None => None,
        },
    }
}

// ---------------------------------------------------------------------------
// The arguments of the signature

/// `%name : type` of one trimmed argument: the name and the type without surrounding
/// whitespace.
pub open spec fn func_arg(piece: Seq<char>) -> Option<(Seq<char>, Seq<char>)> {
    match ssa_at(piece, 0) {
        None => None,
        Some(e) => {
            let q = crate::arch::index_parser::skip_ws(piece, e);
            if !crate::arch::index_parser::char_at(piece, q, ':') {
                None
            } else {
                let (lo, hi) = crate::text::trimmed(piece, q + 1, piece.len() as int);
                Some((piece.subrange(1, e), piece.subrange(lo, hi)))
            }
        },
    }
}

/// The `%`-arguments of the pieces, in order, or the first malformed one.
pub open spec fn args_of(pieces: Seq<Seq<char>>, fname: Seq<char>) -> Result<Seq<(Seq<char>, Seq<char>)>, Seq<char>>
    decreases pieces.len(),
{
    if pieces.len() == 0 {
        Ok(Seq::empty())
    } else {
        match args_of(pieces.drop_last(), fname) {
            Err(e) => Err(e),
            Ok(v) => {
                let p = pieces.last();
                if p.len() == 0 || p[0] != '%' {
                    Ok(v)
                } else {
                    match func_arg(p) {
                        Some(a) => Ok(v.push(a)),
                        None => Err("invalid argument syntax in '"@ + fname + "': "@ + p),
                    }
                }
            },
        }
    }
}

/// The characters of a type that are not whitespace.
pub open spec fn normalize(ty: Seq<char>) -> Seq<char> {
    ty.filter(|c: char| !is_space(c))
}

/// The names of the arguments whose type starts with `prefix`, skipping those that an
/// earlier prefix of `before` claims.
pub open spec fn args_with(args: Seq<(Seq<char>, Seq<char>)>, prefix: Seq<char>, before: Seq<Seq<char>>) -> Seq<Seq<char>>
    decreases args.len(),
{
    if args.len() == 0 {
        Seq::empty()
    } else {
        let a = args.last();
        let claimed = exists|k: int| 0 <= k < before.len() && starts(a.1, #[trigger] before[k]);
        args_with(args.drop_last(), prefix, before) + if starts(a.1, prefix) && !claimed { seq![a.0] } else { Seq::empty() }
    }
}

/// The normalized type of the last argument named `n`.
pub open spec fn arg_type(args: Seq<(Seq<char>, Seq<char>)>, n: Seq<char>) -> Option<Seq<char>>
    decreases args.len(),
{
    if args.len() == 0 {
        None
    } else if args.last().0 == n {
        Some(normalize(args.last().1))
    } else {
        arg_type(args.drop_last(), n)
    }
}

// ---------------------------------------------------------------------------
// The body, line by line

pub open spec fn loom_syms(ls: Seq<Seq<char>>) -> Seq<Seq<char>>
    decreases ls.len(),
{
    if ls.len() == 0 {
        Seq::empty()
    } else {
        loom_syms(ls.drop_last()) + match sym_decl(ls.last()) {
            Some(n) => seq![n],
            None => Seq::empty(),
        }
    }
}

pub type ShapeModel = (Seq<char>, Seq<Seq<char>>, Seq<char>);

pub open spec fn bind_shapes(ls: Seq<Seq<char>>) -> Result<Seq<ShapeModel>, Seq<char>>
    decreases ls.len(),
{
    if ls.len() == 0 {
        Ok(Seq::empty())
    } else {
        match bind_shapes(ls.drop_last()) {
            Err(e) => Err(e),
            Ok(v) => {
                let l = ls.last();
                if !starts(l, "loom.bind_shape "@) {
                    Ok(v)
                } else {
                    match bind_shape(l) {
                        Some(b) => Ok(v.push(b)),
                        None => Err("invalid loom.bind_shape syntax: "@ + l),
                    }
                }
            },
        }
    }
}

pub type MemModel = (Seq<char>, Seq<char>, Seq<char>);

pub open spec fn bind_mems(ls: Seq<Seq<char>>) -> Result<Seq<MemModel>, Seq<char>>
    decreases ls.len(),
{
    if ls.len() == 0 {
        Ok(Seq::empty())
    } else {
        match bind_mems(ls.drop_last()) {
            Err(e) => Err(e),
            Ok(v) => {
                let l = ls.last();
                if !starts(l, "loom.bind_mem "@) {
                    Ok(v)
                } else {
                    match bind_mem(l) {
                        Some(b) => Ok(v.push(b)),
                        None => Err("invalid loom.bind_mem syntax: "@ + l),
                    }
                }
            },
        }
    }
}

pub open spec fn copies(ls: Seq<Seq<char>>) -> Result<Seq<CopyModel>, Seq<char>>
    decreases ls.len(),
{
    if ls.len() == 0 {
        Ok(Seq::empty())
    } else {
        match copies(ls.drop_last()) {
            Err(e) => Err(e),
            Ok(v) => {
                let l = ls.last();
                if !starts(l, "loom.copy "@) {
                    Ok(v)
                } else {
                    match loom_copy(l) {
                        Some(c) => Ok(v.push(c)),
                        None => Err("invalid loom.copy syntax: "@ + l),
                    }
                }
            },
        }
    }
}

pub open spec fn gathers(ls: Seq<Seq<char>>) -> Result<Seq<GatherModel>, Seq<char>>
    decreases ls.len(),
{
    if ls.len() == 0 {
        Ok(Seq::empty())
    } else {
        match gathers(ls.drop_last()) {
            Err(e) => Err(e),
            Ok(v) => {
                let l = ls.last();
                if !starts(l, "loom.gather "@) {
                    Ok(v)
                } else {
                    match loom_gather(l) {
                        Some(g) => Ok(v.push(g)),
                        None => Err("invalid loom.gather syntax: "@ + l),
                    }
                }
            },
        }
    }
}

pub open spec fn memref_copies(ls: Seq<Seq<char>>) -> Result<Seq<(Seq<char>, Seq<char>)>, Seq<char>>
    decreases ls.len(),
{
    if ls.len() == 0 {
        Ok(Seq::empty())
    } else {
        match memref_copies(ls.drop_last()) {
            Err(e) => Err(e),
            Ok(v) => {
                let l = ls.last();
                if !starts(l, "memref.copy "@) {
                    Ok(v)
                } else {
                    match memref_copy(l) {
                        Some(c) => Ok(v.push(c)),
                        None => Err("invalid memref.copy syntax: "@ + l),
                    }
                }
            },
        }
    }
}

/// The operands of every `return`, in order.
pub open spec fn returned(ls: Seq<Seq<char>>) -> Seq<Seq<char>>
    decreases ls.len(),
{
    if ls.len() == 0 {
        Seq::empty()
    } else {
        returned(ls.drop_last()) + match return_operands(ls.last()) {
            Some(v) => v,
            None => Seq::empty(),
        }
    }
}

/// The `linalg.*` operations of all lines, each once.
pub open spec fn linalg_of(ls: Seq<Seq<char>>) -> Seq<Seq<char>>
    decreases ls.len(),
{
    if ls.len() == 0 {
        Seq::empty()
    } else {
        add_names(linalg_of(ls.drop_last()), linalg_names(code_of(ls.last()), 0))
    }
}

// ---------------------------------------------------------------------------
// Checks and assembly

/// The message for a binding whose type disagrees with the argument's.
pub open spec fn mismatch_text(kind: Seq<char>, name: Seq<char>, expected: Seq<char>, got: Seq<char>) -> Seq<char> {
    kind + " type mismatch for '%"@ + name + "': expected '"@ + expected + "', got '"@ + got + "'"@
}

/// The first shape binding whose type disagrees with its argument's.
pub open spec fn shape_mismatch(bs: Seq<ShapeModel>, args: Seq<(Seq<char>, Seq<char>)>) -> Option<Seq<char>>
    decreases bs.len(),
{
    if bs.len() == 0 {
        None
    } else {
        match arg_type(args, bs[0].0) {
            Some(t) => if t != normalize(bs[0].2) {
                Some(mismatch_text("loom.bind_shape"@, bs[0].0, t, normalize(bs[0].2)))
            } else {
                shape_mismatch(bs.drop_first(), args)
            },
            None => shape_mismatch(bs.drop_first(), args),
        }
    }
}

/// The first memory binding whose type disagrees with its argument's.
pub open spec fn mem_mismatch(bs: Seq<MemModel>, args: Seq<(Seq<char>, Seq<char>)>) -> Option<Seq<char>>
    decreases bs.len(),
{
    if bs.len() == 0 {
        None
    } else {
        match arg_type(args, bs[0].0) {
            Some(t) => if t != normalize(bs[0].2) {
                Some(mismatch_text("loom.bind_mem"@, bs[0].0, t, normalize(bs[0].2)))
            } else {
                mem_mismatch(bs.drop_first(), args)
            },
            None => mem_mismatch(bs.drop_first(), args),
        }
    }
}

/// The shape bindings of the operands in `names`.
pub open spec fn bindings_of(bs: Seq<ShapeModel>, names: Seq<Seq<char>>) -> Seq<BindingModel>
    decreases bs.len(),
{
    if bs.len() == 0 {
        Seq::empty()
    } else {
        bindings_of(bs.drop_last(), names) + if names.contains(bs.last().0) { seq![(bs.last().0, bs.last().1)] } else { Seq::empty() }
    }
}

/// `names` extended by each of `more` that `within` holds, each once.
pub open spec fn add_within(names: Seq<Seq<char>>, more: Seq<Seq<char>>, within: Seq<Seq<char>>) -> Seq<Seq<char>>
    decreases more.len(),
{
    if more.len() == 0 {
        names
    } else {
        add_within(if within.contains(more[0]) { add_name(names, more[0]) } else { names }, more.drop_first(), within)
    }
}

pub open spec fn firsts<A, B>(v: Seq<(A, B)>) -> Seq<A> {
    v.map_values(|p: (A, B)| p.0)
}

pub open spec fn seconds<A, B>(v: Seq<(A, B)>) -> Seq<B> {
    v.map_values(|p: (A, B)| p.1)
}

pub open spec fn copy_srcs(v: Seq<CopyModel>) -> Seq<Seq<char>> {
    v.map_values(|c: CopyModel| c.src)
}

pub open spec fn copy_dsts(v: Seq<CopyModel>) -> Seq<Seq<char>> {
    v.map_values(|c: CopyModel| c.dst)
}

pub open spec fn gather_srcs(v: Seq<GatherModel>) -> Seq<Seq<char>> {
    v.map_values(|g: GatherModel| g.src)
}

pub open spec fn gather_dsts(v: Seq<GatherModel>) -> Seq<Seq<char>> {
    v.map_values(|g: GatherModel| g.dst)
}

/// The symbols of every copy area, in order.
pub open spec fn copy_syms(v: Seq<CopyModel>) -> Seq<Seq<char>>
    decreases v.len(),
{
    if v.len() == 0 { Seq::empty() } else { copy_syms(v.drop_last()) + dim_syms(v.last().dims) }
}

/// The symbols of every gather area, in order.
pub open spec fn gather_syms(v: Seq<GatherModel>) -> Seq<Seq<char>>
    decreases v.len(),
{
    if v.len() == 0 { Seq::empty() } else { gather_syms(v.drop_last()) + dim_syms(v.last().area) }
}

/// The names of `v` that `within` holds, in order.
pub open spec fn only_within(v: Seq<Seq<char>>, within: Seq<Seq<char>>) -> Seq<Seq<char>> {
    v.filter(|x: Seq<char>| within.contains(x))
}

/// The memref arguments with their normalized types.
pub open spec fn typed_memrefs(memrefs: Seq<Seq<char>>, args: Seq<(Seq<char>, Seq<char>)>) -> Seq<(Seq<char>, Seq<char>)> {
    memrefs.map_values(|m: Seq<char>| (m, match arg_type(args, m) { Some(t) => t, None => Seq::empty() }))
}

/// What reading the text `t` of one `func.func` (already trimmed) gives.
#[verifier::opaque]
pub open spec fn read_func(t: Seq<char>) -> Result<FuncModel, Seq<char>> {
    match func_header(t) {
        None => Err("missing 'func.func @' declaration"@),
        Some((name, lo, hi)) => {
            let pieces = super::lex::range_texts(t, mlir_split(t, lo, lo, hi, 0, 0, 0));
            match args_of(pieces, name) {
                Err(e) => Err(e),
                Ok(args) => read_body(t, name, args),
            }
        },
    }
}

/// The body part of [`read_func`], once the arguments are known.
pub open spec fn read_body(t: Seq<char>, name: Seq<char>, args: Seq<(Seq<char>, Seq<char>)>) -> Result<FuncModel, Seq<char>> {
    let ls = trimmed_lines(t);
    let sym_args = args_with(args, "loom.sym"@, Seq::empty());
    let tensors = args_with(args, "tensor<"@, seq!["loom.sym"@]);
    let memrefs = args_with(args, "memref<"@, seq!["loom.sym"@, "tensor<"@]);
    match bind_shapes(ls) {
        Err(e) => Err(e),
        Ok(shapes) => if shape_mismatch(shapes, args) is Some {
            Err(shape_mismatch(shapes, args)->0)
        } else {
            match memref_copies(ls) {
                Err(e) => Err(e),
                Ok(pairs) => match copies(ls) {
                    Err(e) => Err(e),
                    Ok(cops) => match gathers(ls) {
                        Err(e) => Err(e),
                        Ok(gops) => match bind_mems(ls) {
                            Err(e) => Err(e),
                            Ok(mems) => if mem_mismatch(mems, args) is Some {
                                Err(mem_mismatch(mems, args)->0)
                            } else {
                                match outs_from(t, 0, Seq::empty()) {
                                    Err(e) => Err(e),
                                    Ok(outs) => Ok(FuncModel {
                                        name,
                                        symbols: add_names(add_names(sym_args + loom_syms(ls), copy_syms(cops)), gather_syms(gops)),
                                        details: Some(DetailsModel {
                                            tensor_args: tensors,
                                            memref_args: memrefs,
                                            memref_arg_types: typed_memrefs(memrefs, args),
                                            memref_memory_requirements: Seq::empty(),
                                            output_tensors: only_within(add_names(outs, returned(ls)), tensors),
                                            source_memrefs: add_within(add_within(add_within(Seq::empty(), firsts(pairs), memrefs),
                                                copy_srcs(cops), memrefs), gather_srcs(gops), memrefs),
                                            target_memrefs: add_within(add_within(add_within(Seq::empty(), seconds(pairs), memrefs),
                                                copy_dsts(cops), memrefs), gather_dsts(gops), memrefs),
                                            memref_symbol_bindings: bindings_of(shapes, memrefs),
                                            tensor_symbol_bindings: bindings_of(shapes, tensors),
                                            mem_region_bindings: mems.map_values(|m: MemModel| (m.0, m.1)),
                                            copy_ops: cops,
                                            gather_ops: gops,
                                            linalg_ops: linalg_of(ls),
                                            operations_len: 0,
                                        }),
                                    }),
                                }
                            },
                        },
                    },
                },
            }
        },
    }
}

} // verus!
