//! Reading one `func.func` text into an [`MlirFunc`], stage by stage, each stage proved
//! equal to its part of [`read_func`].
use vstd::prelude::*;

use crate::math::expr::Sym;
use crate::text::is_space;
use super::func::{
    add_within, arg_type, args_of, args_with, bind_mems, bind_shapes, bindings_of, copies,
    copy_dsts, copy_srcs, copy_syms, details_model, firsts, func_arg, func_model, gather_dsts,
    gather_srcs, gather_syms, gathers, linalg_of, loom_syms, mem_mismatch, memref_copies, normalize,
    only_within, pairs_model, read_body, read_func, returned, seconds, shape_mismatch, typed_memrefs,
    BindingModel, FuncModel, MemModel, MlirFunc, MlirFuncDetails, ShapeModel,
};
use super::lex::{lines_model, range_text, range_texts, ssa_at, starts, x_ssa_at, x_starts};
use super::ops::{
    dim_syms, dims_symbols, syms_model, texts_model, x_bind_mem, x_bind_shape, x_loom_copy,
    x_loom_gather, x_memref_copy, x_return_operands, x_sym_decl, CopyModel, GatherModel, MlirCopyOp,
    MlirGatherOp, MlirMemRegionBinding, MlirMemrefSymbolBinding, MlirTensorSymbolBinding,
};
use super::scan::{add_name, add_names, add_text, code_of, linalg_names, ranges_model, x_line_linalg, x_mlir_split};

verus! {

pub proof fn lemma_range_texts(s: Seq<char>, rs: Seq<(int, int)>)
    ensures
        range_texts(s, rs).len() == rs.len(),
        forall|i: int| 0 <= i < rs.len() ==> #[trigger] range_texts(s, rs)[i] == range_text(s, rs[i]),
    decreases rs.len(),
{
    if rs.len() > 0 {
        lemma_range_texts(s, rs.drop_first());
        assert forall|i: int| 0 <= i < rs.len() implies #[trigger] range_texts(s, rs)[i] == range_text(s, rs[i]) by {
            if i > 0 {
                assert(range_texts(s, rs)[i] == range_texts(s, rs.drop_first())[i - 1]);
            }
        }
    }
}

/// Whether a list of strings holds `x`.
pub fn contains_text(v: &Vec<String>, x: &str) -> (r: bool)
    ensures
        r == texts_model(v@).contains(x@),
{
    let mut i: usize = 0;
    while i < v.len()
        invariant
            i <= v@.len(),
            forall|k: int| 0 <= k < i ==> v@[k]@ != x@,
        decreases v.len() - i,
    {
        if crate::text::str_eq(v[i].as_str(), x) {
            proof { assert(texts_model(v@)[i as int] == x@); }
            return true;
        }
        i += 1;
    }
    proof {
        if texts_model(v@).contains(x@) {
            let k = choose|k: int| 0 <= k < texts_model(v@).len() && texts_model(v@)[k] == x@;
            assert(v@[k]@ == x@);
        }
    }
    false
}

/// Adds a symbol unless one of that name is there already.
fn add_sym_name(v: &mut Vec<Sym>, s: &Sym)
    ensures
        syms_model(final(v)@) == add_name(syms_model(old(v)@), s@),
{
    let mut i: usize = 0;
    while i < v.len()
        invariant
            i <= v@.len(),
            forall|k: int| 0 <= k < i ==> v@[k]@ != s@,
        decreases v.len() - i,
    {
        if crate::text::str_eq(v[i].as_str(), s.as_str()) {
            proof { assert(syms_model(v@)[i as int] == s@); }
            return;
        }
        i += 1;
    }
    proof {
        if syms_model(v@).contains(s@) {
            let k = choose|k: int| 0 <= k < syms_model(v@).len() && syms_model(v@)[k] == s@;
            assert(v@[k]@ == s@);
        }
    }
    let ghost before = v@;
    v.push(s.clone());
    proof { assert(syms_model(v@) =~= syms_model(before).push(s@)); }
}

/// Adds each symbol of `more` that `v` does not hold yet.
fn add_sym_names(v: &mut Vec<Sym>, more: &Vec<Sym>)
    ensures
        syms_model(final(v)@) == add_names(syms_model(old(v)@), syms_model(more@)),
{
    let mut i: usize = 0;
    proof { assert(syms_model(more@).skip(0) =~= syms_model(more@)); }
    while i < more.len()
        invariant
            i <= more@.len(),
            add_names(syms_model(old(v)@), syms_model(more@)) == add_names(syms_model(v@), syms_model(more@).skip(i as int)),
        decreases more.len() - i,
    {
        proof {
            assert(syms_model(more@).skip(i as int)[0] == more@[i as int]@);
            assert(syms_model(more@).skip(i as int).drop_first() =~= syms_model(more@).skip(i + 1));
        }
        add_sym_name(v, &more[i]);
        i += 1;
    }
}

/// Adds each name of `more` that `v` does not hold yet.
fn add_texts(v: &mut Vec<String>, more: &Vec<String>)
    ensures
        texts_model(final(v)@) == add_names(texts_model(old(v)@), texts_model(more@)),
{
    let mut i: usize = 0;
    proof { assert(texts_model(more@).skip(0) =~= texts_model(more@)); }
    while i < more.len()
        invariant
            i <= more@.len(),
            add_names(texts_model(old(v)@), texts_model(more@)) == add_names(texts_model(v@), texts_model(more@).skip(i as int)),
        decreases more.len() - i,
    {
        proof {
            assert(texts_model(more@).skip(i as int)[0] == more@[i as int]@);
            assert(texts_model(more@).skip(i as int).drop_first() =~= texts_model(more@).skip(i + 1));
        }
        add_text(v, more[i].as_str());
        i += 1;
    }
}

/// Adds each name of `more` that `within` holds and `v` does not.
fn add_texts_within(v: &mut Vec<String>, more: &Vec<String>, within: &Vec<String>)
    ensures
        texts_model(final(v)@) == add_within(texts_model(old(v)@), texts_model(more@), texts_model(within@)),
{
    let mut i: usize = 0;
    proof { assert(texts_model(more@).skip(0) =~= texts_model(more@)); }
    while i < more.len()
        invariant
            i <= more@.len(),
            add_within(texts_model(old(v)@), texts_model(more@), texts_model(within@))
                == add_within(texts_model(v@), texts_model(more@).skip(i as int), texts_model(within@)),
        decreases more.len() - i,
    {
        proof {
            assert(texts_model(more@).skip(i as int)[0] == more@[i as int]@);
            assert(texts_model(more@).skip(i as int).drop_first() =~= texts_model(more@).skip(i + 1));
        }
        if contains_text(within, more[i].as_str()) {
            add_text(v, more[i].as_str());
        }
        i += 1;
    }
}

/// The characters of `ty` that are not whitespace.
pub fn x_normalize(ty: &str) -> (r: String)
    ensures
        r@ == normalize(ty@),
{
    let c = crate::text::chars_of(ty);
    let mut out = String::new();
    let mut i: usize = 0;
    proof { reveal(Seq::filter); assert(c@.take(0) =~= Seq::<char>::empty()); }
    while i < c.len()
        invariant
            i <= c@.len(),
            c@ == ty@,
            out@ == normalize(c@.take(i as int)),
        decreases c.len() - i,
    {
        proof {
            reveal(Seq::filter);
            assert(c@.take(i + 1).drop_last() =~= c@.take(i as int));
            assert(c@.take(i + 1).last() == c@[i as int]);
        }
        if !crate::text::space(c[i]) {
            crate::text::push_chars(&mut out, vstd::slice::slice_subrange(c.as_slice(), i, i + 1));
            proof { assert(c@.subrange(i as int, i + 1) =~= seq![c@[i as int]]); }
        }
        i += 1;
    }
    proof { assert(c@.take(c@.len() as int) =~= c@); }
    out
}

pub open spec fn args_model(v: Seq<(String, String)>) -> Seq<(Seq<char>, Seq<char>)> {
    pairs_model(v)
}

fn x_func_arg(piece: &[char]) -> (r: Option<(String, String)>)
    ensures
        match r {
            Some((n, t)) => func_arg(piece@) == Some((n@, t@)),
            None => func_arg(piece@) is None,
        },
{
    let e = match x_ssa_at(piece, 0) {
        None => return None,
        Some(e) => e,
    };
    proof { super::lex::lemma_ends(piece@, e as int); }
    let q = crate::arch::index_parser::x_skip_ws(piece, e);
    if !(q < piece.len() && piece[q] == ':') {
        return None;
    }
    let (lo, hi) = crate::text::trim_range(piece, q + 1, piece.len());
    Some((crate::text::from_char_range(piece, 1, e), crate::text::from_char_range(piece, lo, hi)))
}

/// The `%`-arguments of the range `s[lo..hi)` of a signature.
fn x_args(s: &[char], lo: usize, hi: usize, fname: &str) -> (r: Result<Vec<(String, String)>, String>)
    requires
        lo <= hi <= s@.len(),
    ensures
        match r {
            Ok(v) => args_of(range_texts(s@, mlir_split_of(s@, lo as int, hi as int)), fname@) == Ok::<Seq<(Seq<char>, Seq<char>)>, Seq<char>>(pairs_model(v@)),
            Err(m) => args_of(range_texts(s@, mlir_split_of(s@, lo as int, hi as int)), fname@) == Err::<Seq<(Seq<char>, Seq<char>)>, Seq<char>>(m@),
        },
{
    let rs = x_mlir_split(s, lo, hi);
    let ghost rm = ranges_model(rs@);
    let ghost pieces = range_texts(s@, rm);
    proof { lemma_range_texts(s@, rm); }
    let mut out: Vec<(String, String)> = Vec::new();
    let mut i: usize = 0;
    proof { assert(pieces.take(0) =~= Seq::<Seq<char>>::empty()); assert(pairs_model(out@) =~= Seq::<(Seq<char>, Seq<char>)>::empty()); }
    while i < rs.len()
        invariant
            i <= rs@.len(),
            rm == ranges_model(rs@),
            rm == super::scan::mlir_split(s@, lo as int, lo as int, hi as int, 0, 0, 0),
            pieces == range_texts(s@, rm),
            pieces.len() == rm.len(),
            forall|k: int| 0 <= k < rm.len() ==> #[trigger] pieces[k] == range_text(s@, rm[k]),
            forall|k: int| 0 <= k < rs@.len() ==> lo <= (#[trigger] rs@[k]).0 <= rs@[k].1 <= hi,
            hi <= s@.len(),
            args_of(pieces.take(i as int), fname@) == Ok::<Seq<(Seq<char>, Seq<char>)>, Seq<char>>(pairs_model(out@)),
        decreases rs.len() - i,
    {
        let (a, b) = rs[i];
        let (tl, th) = crate::text::trim_range(s, a, b);
        let piece = vstd::slice::slice_subrange(s, tl, th);
        proof {
            assert(piece@ == pieces[i as int]);
            assert(pieces.take(i + 1).drop_last() =~= pieces.take(i as int));
            assert(pieces.take(i + 1).last() == pieces[i as int]);
        }
        if piece.len() == 0 || piece[0] != '%' {
            i += 1;
            continue;
        }
        match x_func_arg(piece) {
            Some(arg) => {
                let ghost before = out@;
                out.push(arg);
                proof { assert(pairs_model(out@) =~= pairs_model(before).push((arg.0@, arg.1@))); }
            },
            None => {
                let mut m = crate::text::owned("invalid argument syntax in '");
                crate::text::push_str(&mut m, fname);
                crate::text::push_str(&mut m, "': ");
                crate::text::push_chars(&mut m, piece);
                proof {
                    assert(args_of(pieces.take(i + 1), fname@) == Err::<Seq<(Seq<char>, Seq<char>)>, Seq<char>>(m@));
                    lemma_args_err_sticky(pieces, i + 1, fname@);
                }
                return Err(m);
            },
        }
        i += 1;
    }
    proof { assert(pieces.take(rs@.len() as int) =~= pieces); }
    Ok(out)
}

pub open spec fn mlir_split_of(s: Seq<char>, lo: int, hi: int) -> Seq<(int, int)> {
    super::scan::mlir_split(s, lo, lo, hi, 0, 0, 0)
}

/// Once argument reading fails, it fails the same way on every longer prefix.
pub proof fn lemma_args_err_sticky(pieces: Seq<Seq<char>>, i: int, fname: Seq<char>)
    requires
        0 <= i <= pieces.len(),
        args_of(pieces.take(i), fname) is Err,
    ensures
        args_of(pieces, fname) == args_of(pieces.take(i), fname),
    decreases pieces.len() - i,
{
    if i < pieces.len() {
        assert(pieces.take(i + 1).drop_last() =~= pieces.take(i));
        lemma_args_err_sticky(pieces, i + 1, fname);
    } else {
        assert(pieces.take(i) =~= pieces);
    }
}


pub proof fn lemma_lines_step(v: Seq<Vec<char>>, i: int)
    requires
        0 <= i < v.len(),
    ensures
        lines_model(v).take(i + 1).drop_last() == lines_model(v).take(i),
        lines_model(v).take(i + 1).last() == v[i]@,
{
    assert(lines_model(v).take(i + 1).drop_last() =~= lines_model(v).take(i));
}

pub proof fn lemma_lines_all(v: Seq<Vec<char>>)
    ensures
        lines_model(v).take(v.len() as int) == lines_model(v),
{
    assert(lines_model(v).take(v.len() as int) =~= lines_model(v));
}

pub fn x_loom_syms(lines: &Vec<Vec<char>>) -> (r: Vec<Sym>)
    ensures
        syms_model(r@) == loom_syms(lines_model(lines@)),
{
    let mut out: Vec<Sym> = Vec::new();
    let mut i: usize = 0;
    proof { assert(syms_model(out@) =~= loom_syms(lines_model(lines@).take(0))); }
    while i < lines.len()
        invariant
            i <= lines@.len(),
            syms_model(out@) == loom_syms(lines_model(lines@).take(i as int)),
        decreases lines.len() - i,
    {
        proof { lemma_lines_step(lines@, i as int); }
        let ghost before = out@;
        match x_sym_decl(lines[i].as_slice()) {
            Some(n) => {
                out.push(Sym(n));
                proof { assert(syms_model(out@) =~= syms_model(before) + seq![n@]); }
            },
            None => {
                proof { assert(syms_model(out@) =~= syms_model(before) + Seq::<Seq<char>>::empty()); }
            },
        }
        i += 1;
    }
    proof { lemma_lines_all(lines@); }
    out
}

pub open spec fn shapes_model(v: Seq<(String, Vec<String>, String)>) -> Seq<ShapeModel> {
    v.map_values(|b: (String, Vec<String>, String)| (b.0@, texts_model(b.1@), b.2@))
}

pub open spec fn res_model<T, M>(r: Result<Vec<T>, String>, f: spec_fn(Seq<T>) -> Seq<M>) -> Result<Seq<M>, Seq<char>> {
    match r {
        Ok(v) => Ok(f(v@)),
        Err(m) => Err(m@),
    }
}

pub fn x_bind_shapes(lines: &Vec<Vec<char>>) -> (r: Result<Vec<(String, Vec<String>, String)>, String>)
    ensures
        match r {
            Ok(v) => bind_shapes(lines_model(lines@)) == Ok::<Seq<ShapeModel>, Seq<char>>(shapes_model(v@)),
            Err(m) => bind_shapes(lines_model(lines@)) == Err::<Seq<ShapeModel>, Seq<char>>(m@),
        },
{
    let mut out: Vec<(String, Vec<String>, String)> = Vec::new();
    let mut err: Option<String> = None;
    let mut i: usize = 0;
    proof { assert(shapes_model(out@) =~= Seq::<ShapeModel>::empty()); }
    while i < lines.len()
        invariant
            i <= lines@.len(),
            bind_shapes(lines_model(lines@).take(i as int)) == match err {
                Some(m) => Err::<Seq<ShapeModel>, Seq<char>>(m@),
                None => Ok(shapes_model(out@)),
            },
        decreases lines.len() - i,
    {
        proof { lemma_lines_step(lines@, i as int); }
        if err.is_none() {
            let l = lines[i].as_slice();
            if x_starts(l, "loom.bind_shape ") {
                match x_bind_shape(l) {
                    Some(b) => {
                        let ghost before = out@;
                        out.push(b);
                        proof { assert(shapes_model(out@) =~= shapes_model(before).push((b.0@, texts_model(b.1@), b.2@))); }
                    },
                    None => {
                        let mut m = crate::text::owned("invalid loom.bind_shape syntax: ");
                        crate::text::push_chars(&mut m, l);
                        err = Some(m);
                    },
                }
            }
        }
        i += 1;
    }
    proof { lemma_lines_all(lines@); }
    match err {
        Some(m) => Err(m),
        None => Ok(out),
    }
}

pub open spec fn mems_model(v: Seq<(String, String, String)>) -> Seq<MemModel> {
    v.map_values(|b: (String, String, String)| (b.0@, b.1@, b.2@))
}

pub fn x_bind_mems(lines: &Vec<Vec<char>>) -> (r: Result<Vec<(String, String, String)>, String>)
    ensures
        match r {
            Ok(v) => bind_mems(lines_model(lines@)) == Ok::<Seq<MemModel>, Seq<char>>(mems_model(v@)),
            Err(m) => bind_mems(lines_model(lines@)) == Err::<Seq<MemModel>, Seq<char>>(m@),
        },
{
    let mut out: Vec<(String, String, String)> = Vec::new();
    let mut err: Option<String> = None;
    let mut i: usize = 0;
    proof { assert(mems_model(out@) =~= Seq::<MemModel>::empty()); }
    while i < lines.len()
        invariant
            i <= lines@.len(),
            bind_mems(lines_model(lines@).take(i as int)) == match err {
                Some(m) => Err::<Seq<MemModel>, Seq<char>>(m@),
                None => Ok(mems_model(out@)),
            },
        decreases lines.len() - i,
    {
        proof { lemma_lines_step(lines@, i as int); }
        if err.is_none() {
            let l = lines[i].as_slice();
            if x_starts(l, "loom.bind_mem ") {
                match x_bind_mem(l) {
                    Some(b) => {
                        let ghost before = out@;
                        out.push(b);
                        proof { assert(mems_model(out@) =~= mems_model(before).push((b.0@, b.1@, b.2@))); }
                    },
                    None => {
                        let mut m = crate::text::owned("invalid loom.bind_mem syntax: ");
                        crate::text::push_chars(&mut m, l);
                        err = Some(m);
                    },
                }
            }
        }
        i += 1;
    }
    proof { lemma_lines_all(lines@); }
    match err {
        Some(m) => Err(m),
        None => Ok(out),
    }
}

pub open spec fn copies_model(v: Seq<MlirCopyOp>) -> Seq<CopyModel> {
    v.map_values(|c: MlirCopyOp| c@)
}

pub fn x_copies(lines: &Vec<Vec<char>>) -> (r: Result<Vec<MlirCopyOp>, String>)
    ensures
        match r {
            Ok(v) => copies(lines_model(lines@)) == Ok::<Seq<CopyModel>, Seq<char>>(copies_model(v@)),
            Err(m) => copies(lines_model(lines@)) == Err::<Seq<CopyModel>, Seq<char>>(m@),
        },
{
    let mut out: Vec<MlirCopyOp> = Vec::new();
    let mut err: Option<String> = None;
    let mut i: usize = 0;
    proof { assert(copies_model(out@) =~= Seq::<CopyModel>::empty()); }
    while i < lines.len()
        invariant
            i <= lines@.len(),
            copies(lines_model(lines@).take(i as int)) == match err {
                Some(m) => Err::<Seq<CopyModel>, Seq<char>>(m@),
                None => Ok(copies_model(out@)),
            },
        decreases lines.len() - i,
    {
        proof { lemma_lines_step(lines@, i as int); }
        if err.is_none() {
            let l = lines[i].as_slice();
            if x_starts(l, "loom.copy ") {
                match x_loom_copy(l) {
                    Some(c) => {
                        let ghost before = out@;
                        let ghost cm = c@;
                        out.push(c);
                        proof { assert(copies_model(out@) =~= copies_model(before).push(cm)); }
                    },
                    None => {
                        let mut m = crate::text::owned("invalid loom.copy syntax: ");
                        crate::text::push_chars(&mut m, l);
                        err = Some(m);
                    },
                }
            }
        }
        i += 1;
    }
    proof { lemma_lines_all(lines@); }
    match err {
        Some(m) => Err(m),
        None => Ok(out),
    }
}

pub open spec fn gathers_model(v: Seq<MlirGatherOp>) -> Seq<GatherModel> {
    v.map_values(|g: MlirGatherOp| g@)
}

pub fn x_gathers(lines: &Vec<Vec<char>>) -> (r: Result<Vec<MlirGatherOp>, String>)
    ensures
        match r {
            Ok(v) => gathers(lines_model(lines@)) == Ok::<Seq<GatherModel>, Seq<char>>(gathers_model(v@)),
            Err(m) => gathers(lines_model(lines@)) == Err::<Seq<GatherModel>, Seq<char>>(m@),
        },
{
    let mut out: Vec<MlirGatherOp> = Vec::new();
    let mut err: Option<String> = None;
    let mut i: usize = 0;
    proof { assert(gathers_model(out@) =~= Seq::<GatherModel>::empty()); }
    while i < lines.len()
        invariant
            i <= lines@.len(),
            gathers(lines_model(lines@).take(i as int)) == match err {
                Some(m) => Err::<Seq<GatherModel>, Seq<char>>(m@),
                None => Ok(gathers_model(out@)),
            },
        decreases lines.len() - i,
    {
        proof { lemma_lines_step(lines@, i as int); }
        if err.is_none() {
            let l = lines[i].as_slice();
            if x_starts(l, "loom.gather ") {
                match x_loom_gather(l) {
                    Some(g) => {
                        let ghost before = out@;
                        let ghost gm = g@;
                        out.push(g);
                        proof { assert(gathers_model(out@) =~= gathers_model(before).push(gm)); }
                    },
                    None => {
                        let mut m = crate::text::owned("invalid loom.gather syntax: ");
                        crate::text::push_chars(&mut m, l);
                        err = Some(m);
                    },
                }
            }
        }
        i += 1;
    }
    proof { lemma_lines_all(lines@); }
    match err {
        Some(m) => Err(m),
        None => Ok(out),
    }
}

pub fn x_memref_copies(lines: &Vec<Vec<char>>) -> (r: Result<Vec<(String, String)>, String>)
    ensures
        match r {
            Ok(v) => memref_copies(lines_model(lines@)) == Ok::<Seq<(Seq<char>, Seq<char>)>, Seq<char>>(pairs_model(v@)),
            Err(m) => memref_copies(lines_model(lines@)) == Err::<Seq<(Seq<char>, Seq<char>)>, Seq<char>>(m@),
        },
{
    let mut out: Vec<(String, String)> = Vec::new();
    let mut err: Option<String> = None;
    let mut i: usize = 0;
    proof { assert(pairs_model(out@) =~= Seq::<(Seq<char>, Seq<char>)>::empty()); }
    while i < lines.len()
        invariant
            i <= lines@.len(),
            memref_copies(lines_model(lines@).take(i as int)) == match err {
                Some(m) => Err::<Seq<(Seq<char>, Seq<char>)>, Seq<char>>(m@),
                None => Ok(pairs_model(out@)),
            },
        decreases lines.len() - i,
    {
        proof { lemma_lines_step(lines@, i as int); }
        if err.is_none() {
            let l = lines[i].as_slice();
            if x_starts(l, "memref.copy ") {
                match x_memref_copy(l) {
                    Some(c) => {
                        let ghost before = out@;
                        out.push(c);
                        proof { assert(pairs_model(out@) =~= pairs_model(before).push((c.0@, c.1@))); }
                    },
                    None => {
                        let mut m = crate::text::owned("invalid memref.copy syntax: ");
                        crate::text::push_chars(&mut m, l);
                        err = Some(m);
                    },
                }
            }
        }
        i += 1;
    }
    proof { lemma_lines_all(lines@); }
    match err {
        Some(m) => Err(m),
        None => Ok(out),
    }
}

pub fn x_returned(lines: &Vec<Vec<char>>) -> (r: Vec<String>)
    ensures
        texts_model(r@) == returned(lines_model(lines@)),
{
    let mut out: Vec<String> = Vec::new();
    let mut i: usize = 0;
    proof { assert(texts_model(out@) =~= returned(lines_model(lines@).take(0))); }
    while i < lines.len()
        invariant
            i <= lines@.len(),
            texts_model(out@) == returned(lines_model(lines@).take(i as int)),
        decreases lines.len() - i,
    {
        proof { lemma_lines_step(lines@, i as int); }
        let ghost before = out@;
        match x_return_operands(lines[i].as_slice()) {
            Some(mut v) => {
                let ghost vm = texts_model(v@);
                out.append(&mut v);
                proof { assert(texts_model(out@) =~= texts_model(before) + vm); }
            },
            None => {
                proof { assert(texts_model(out@) =~= texts_model(before) + Seq::<Seq<char>>::empty()); }
            },
        }
        i += 1;
    }
    proof { lemma_lines_all(lines@); }
    out
}

pub fn x_linalg(lines: &Vec<Vec<char>>) -> (r: Vec<String>)
    ensures
        texts_model(r@) == linalg_of(lines_model(lines@)),
{
    let mut out: Vec<String> = Vec::new();
    let mut i: usize = 0;
    proof { assert(texts_model(out@) =~= linalg_of(lines_model(lines@).take(0))); }
    while i < lines.len()
        invariant
            i <= lines@.len(),
            texts_model(out@) == linalg_of(lines_model(lines@).take(i as int)),
        decreases lines.len() - i,
    {
        proof { lemma_lines_step(lines@, i as int); }
        x_line_linalg(lines[i].as_slice(), &mut out);
        i += 1;
    }
    proof { lemma_lines_all(lines@); }
    out
}


/// The three kinds of argument: symbols, tensors and memrefs, by type prefix.
fn x_classify(args: &Vec<(String, String)>) -> (r: (Vec<String>, Vec<String>, Vec<String>))
    ensures
        texts_model(r.0@) == args_with(pairs_model(args@), "loom.sym"@, Seq::empty()),
        texts_model(r.1@) == args_with(pairs_model(args@), "tensor<"@, seq!["loom.sym"@]),
        texts_model(r.2@) == args_with(pairs_model(args@), "memref<"@, seq!["loom.sym"@, "tensor<"@]),
{
    let mut syms: Vec<String> = Vec::new();
    let mut tensors: Vec<String> = Vec::new();
    let mut memrefs: Vec<String> = Vec::new();
    let ghost am = pairs_model(args@);
    let mut i: usize = 0;
    proof {
        assert(texts_model(syms@) =~= args_with(am.take(0), "loom.sym"@, Seq::empty()));
        assert(texts_model(tensors@) =~= args_with(am.take(0), "tensor<"@, seq!["loom.sym"@]));
        assert(texts_model(memrefs@) =~= args_with(am.take(0), "memref<"@, seq!["loom.sym"@, "tensor<"@]));
    }
    while i < args.len()
        invariant
            i <= args@.len(),
            am == pairs_model(args@),
            texts_model(syms@) == args_with(am.take(i as int), "loom.sym"@, Seq::empty()),
            texts_model(tensors@) == args_with(am.take(i as int), "tensor<"@, seq!["loom.sym"@]),
            texts_model(memrefs@) == args_with(am.take(i as int), "memref<"@, seq!["loom.sym"@, "tensor<"@]),
        decreases args.len() - i,
    {
        let ghost a = am[i as int];
        proof {
            assert(am.take(i + 1).drop_last() =~= am.take(i as int));
            assert(am.take(i + 1).last() == a);
            assert(a == (args@[i as int].0@, args@[i as int].1@));
        }
        let ty = crate::text::chars_of(args[i].1.as_str());
        let is_sym = x_starts(ty.as_slice(), "loom.sym");
        let is_tensor = x_starts(ty.as_slice(), "tensor<");
        let is_memref = x_starts(ty.as_slice(), "memref<");
        let ghost sb = seq!["loom.sym"@];
        let ghost tb = seq!["loom.sym"@, "tensor<"@];
        proof {
            assert((exists|k: int| 0 <= k < sb.len() && starts(a.1, #[trigger] sb[k])) == is_sym) by {
                if is_sym { assert(starts(a.1, sb[0])); }
            }
            assert((exists|k: int| 0 <= k < tb.len() && starts(a.1, #[trigger] tb[k])) == (is_sym || is_tensor)) by {
                if is_sym { assert(starts(a.1, tb[0])); }
                if is_tensor { assert(starts(a.1, tb[1])); }
            }
            assert(!(exists|k: int| 0 <= k < Seq::<Seq<char>>::empty().len() && starts(a.1, #[trigger] Seq::<Seq<char>>::empty()[k])));
        }
        let ghost (s0, t0, m0) = (syms@, tensors@, memrefs@);
        if is_sym {
            syms.push(args[i].0.clone());
            proof {
                assert(texts_model(syms@) =~= texts_model(s0) + seq![a.0]);
                assert(texts_model(tensors@) =~= texts_model(t0) + Seq::<Seq<char>>::empty());
                assert(texts_model(memrefs@) =~= texts_model(m0) + Seq::<Seq<char>>::empty());
            }
        } else if is_tensor {
            tensors.push(args[i].0.clone());
            proof {
                assert(texts_model(syms@) =~= texts_model(s0) + Seq::<Seq<char>>::empty());
                assert(texts_model(tensors@) =~= texts_model(t0) + seq![a.0]);
                assert(texts_model(memrefs@) =~= texts_model(m0) + Seq::<Seq<char>>::empty());
            }
        } else if is_memref {
            memrefs.push(args[i].0.clone());
            proof {
                assert(texts_model(syms@) =~= texts_model(s0) + Seq::<Seq<char>>::empty());
                assert(texts_model(tensors@) =~= texts_model(t0) + Seq::<Seq<char>>::empty());
                assert(texts_model(memrefs@) =~= texts_model(m0) + seq![a.0]);
            }
        } else {
            proof {
                assert(texts_model(syms@) =~= texts_model(s0) + Seq::<Seq<char>>::empty());
                assert(texts_model(tensors@) =~= texts_model(t0) + Seq::<Seq<char>>::empty());
                assert(texts_model(memrefs@) =~= texts_model(m0) + Seq::<Seq<char>>::empty());
            }
        }
        i += 1;
    }
    proof { assert(am.take(args@.len() as int) =~= am); }
    (syms, tensors, memrefs)
}

/// The normalized type of the last argument named `n`.
fn x_arg_type(args: &Vec<(String, String)>, n: &str) -> (r: Option<String>)
    ensures
        match r {
            Some(t) => arg_type(pairs_model(args@), n@) == Some(t@),
            None => arg_type(pairs_model(args@), n@) is None,
        },
{
    let ghost am = pairs_model(args@);
    let mut i: usize = args.len();
    proof { assert(am.take(args@.len() as int) =~= am); }
    while i > 0
        invariant
            i <= args@.len(),
            am == pairs_model(args@),
            arg_type(am, n@) == arg_type(am.take(i as int), n@),
        decreases i,
    {
        proof {
            assert(am.take(i as int).drop_last() =~= am.take(i - 1));
            assert(am.take(i as int).last() == (args@[i - 1].0@, args@[i - 1].1@));
        }
        if crate::text::str_eq(args[i - 1].0.as_str(), n) {
            return Some(x_normalize(args[i - 1].1.as_str()));
        }
        i -= 1;
    }
    None
}

/// The message for a binding whose type disagrees with the argument's.
fn x_mismatch(kind: &str, name: &str, expected: &str, got: &str) -> (r: String)
    ensures
        r@ == super::func::mismatch_text(kind@, name@, expected@, got@),
{
    let mut m = crate::text::owned(kind);
    crate::text::push_str(&mut m, " type mismatch for '%");
    crate::text::push_str(&mut m, name);
    crate::text::push_str(&mut m, "': expected '");
    crate::text::push_str(&mut m, expected);
    crate::text::push_str(&mut m, "', got '");
    crate::text::push_str(&mut m, got);
    crate::text::push_str(&mut m, "'");
    m
}

fn x_shape_mismatch(shapes: &Vec<(String, Vec<String>, String)>, args: &Vec<(String, String)>) -> (r: Option<String>)
    ensures
        match r {
            Some(m) => shape_mismatch(shapes_model(shapes@), pairs_model(args@)) == Some(m@),
            None => shape_mismatch(shapes_model(shapes@), pairs_model(args@)) is None,
        },
{
    let ghost all = shapes_model(shapes@);
    let mut i: usize = 0;
    proof { assert(all.skip(0) =~= all); }
    while i < shapes.len()
        invariant
            i <= shapes@.len(),
            all == shapes_model(shapes@),
            shape_mismatch(all, pairs_model(args@)) == shape_mismatch(all.skip(i as int), pairs_model(args@)),
        decreases shapes.len() - i,
    {
        proof {
            assert(all.skip(i as int)[0] == all[i as int]);
            assert(all.skip(i as int).drop_first() =~= all.skip(i + 1));
        }
        match x_arg_type(args, shapes[i].0.as_str()) {
            Some(t) => {
                let got = x_normalize(shapes[i].2.as_str());
                if !crate::text::str_eq(t.as_str(), got.as_str()) {
                    return Some(x_mismatch("loom.bind_shape", shapes[i].0.as_str(), t.as_str(), got.as_str()));
                }
            },
            None => {},
        }
        i += 1;
    }
    None
}

fn x_mem_mismatch(mems: &Vec<(String, String, String)>, args: &Vec<(String, String)>) -> (r: Option<String>)
    ensures
        match r {
            Some(m) => mem_mismatch(mems_model(mems@), pairs_model(args@)) == Some(m@),
            None => mem_mismatch(mems_model(mems@), pairs_model(args@)) is None,
        },
{
    let ghost all = mems_model(mems@);
    let mut i: usize = 0;
    proof { assert(all.skip(0) =~= all); }
    while i < mems.len()
        invariant
            i <= mems@.len(),
            all == mems_model(mems@),
            mem_mismatch(all, pairs_model(args@)) == mem_mismatch(all.skip(i as int), pairs_model(args@)),
        decreases mems.len() - i,
    {
        proof {
            assert(all.skip(i as int)[0] == all[i as int]);
            assert(all.skip(i as int).drop_first() =~= all.skip(i + 1));
        }
        match x_arg_type(args, mems[i].0.as_str()) {
            Some(t) => {
                let got = x_normalize(mems[i].2.as_str());
                if !crate::text::str_eq(t.as_str(), got.as_str()) {
                    return Some(x_mismatch("loom.bind_mem", mems[i].0.as_str(), t.as_str(), got.as_str()));
                }
            },
            None => {},
        }
        i += 1;
    }
    None
}

/// Symbols with the given names, in order.
pub fn syms_of(v: &Vec<String>) -> (r: Vec<Sym>)
    ensures
        syms_model(r@) == texts_model(v@),
{
    let mut out: Vec<Sym> = Vec::new();
    let mut i: usize = 0;
    while i < v.len()
        invariant
            i <= v@.len(),
            out@.len() == i,
            forall|k: int| 0 <= k < i ==> (#[trigger] out@[k])@ == v@[k]@,
        decreases v.len() - i,
    {
        out.push(Sym(v[i].clone()));
        i += 1;
    }
    proof { assert(syms_model(out@) =~= texts_model(v@)); }
    out
}

pub open spec fn tensor_bindings_model(v: Seq<MlirTensorSymbolBinding>) -> Seq<BindingModel> {
    v.map_values(|b: MlirTensorSymbolBinding| (b.tensor@, syms_model(b.symbols@)))
}

pub open spec fn memref_bindings_model(v: Seq<MlirMemrefSymbolBinding>) -> Seq<BindingModel> {
    v.map_values(|b: MlirMemrefSymbolBinding| (b.memref@, syms_model(b.symbols@)))
}

fn x_tensor_bindings(shapes: &Vec<(String, Vec<String>, String)>, names: &Vec<String>) -> (r: Vec<MlirTensorSymbolBinding>)
    ensures
        tensor_bindings_model(r@) == bindings_of(shapes_model(shapes@), texts_model(names@)),
{
    let ghost all = shapes_model(shapes@);
    let mut out: Vec<MlirTensorSymbolBinding> = Vec::new();
    let mut i: usize = 0;
    proof { assert(tensor_bindings_model(out@) =~= bindings_of(all.take(0), texts_model(names@))); }
    while i < shapes.len()
        invariant
            i <= shapes@.len(),
            all == shapes_model(shapes@),
            tensor_bindings_model(out@) == bindings_of(all.take(i as int), texts_model(names@)),
        decreases shapes.len() - i,
    {
        proof {
            assert(all.take(i + 1).drop_last() =~= all.take(i as int));
            assert(all.take(i + 1).last() == all[i as int]);
        }
        let ghost before = out@;
        if contains_text(names, shapes[i].0.as_str()) {
            let b = MlirTensorSymbolBinding { tensor: shapes[i].0.clone(), symbols: syms_of(&shapes[i].1) };
            let ghost bm = (b.tensor@, syms_model(b.symbols@));
            out.push(b);
            proof { assert(tensor_bindings_model(out@) =~= tensor_bindings_model(before) + seq![bm]); }
        } else {
            proof { assert(tensor_bindings_model(out@) =~= tensor_bindings_model(before) + Seq::<BindingModel>::empty()); }
        }
        i += 1;
    }
    proof { assert(all.take(shapes@.len() as int) =~= all); }
    out
}

fn x_memref_bindings(shapes: &Vec<(String, Vec<String>, String)>, names: &Vec<String>) -> (r: Vec<MlirMemrefSymbolBinding>)
    ensures
        memref_bindings_model(r@) == bindings_of(shapes_model(shapes@), texts_model(names@)),
{
    let ghost all = shapes_model(shapes@);
    let mut out: Vec<MlirMemrefSymbolBinding> = Vec::new();
    let mut i: usize = 0;
    proof { assert(memref_bindings_model(out@) =~= bindings_of(all.take(0), texts_model(names@))); }
    while i < shapes.len()
        invariant
            i <= shapes@.len(),
            all == shapes_model(shapes@),
            memref_bindings_model(out@) == bindings_of(all.take(i as int), texts_model(names@)),
        decreases shapes.len() - i,
    {
        proof {
            assert(all.take(i + 1).drop_last() =~= all.take(i as int));
            assert(all.take(i + 1).last() == all[i as int]);
        }
        let ghost before = out@;
        if contains_text(names, shapes[i].0.as_str()) {
            let b = MlirMemrefSymbolBinding { memref: shapes[i].0.clone(), symbols: syms_of(&shapes[i].1) };
            let ghost bm = (b.memref@, syms_model(b.symbols@));
            out.push(b);
            proof { assert(memref_bindings_model(out@) =~= memref_bindings_model(before) + seq![bm]); }
        } else {
            proof { assert(memref_bindings_model(out@) =~= memref_bindings_model(before) + Seq::<BindingModel>::empty()); }
        }
        i += 1;
    }
    proof { assert(all.take(shapes@.len() as int) =~= all); }
    out
}

/// The names of `v` that `within` holds, in order.
fn x_only_within(v: &Vec<String>, within: &Vec<String>) -> (r: Vec<String>)
    ensures
        texts_model(r@) == only_within(texts_model(v@), texts_model(within@)),
{
    let ghost vm = texts_model(v@);
    let ghost wm = texts_model(within@);
    let mut out: Vec<String> = Vec::new();
    let mut i: usize = 0;
    proof { reveal(Seq::filter); assert(texts_model(out@) =~= only_within(vm.take(0), wm)); }
    while i < v.len()
        invariant
            i <= v@.len(),
            vm == texts_model(v@),
            wm == texts_model(within@),
            texts_model(out@) == only_within(vm.take(i as int), wm),
        decreases v.len() - i,
    {
        proof {
            reveal(Seq::filter);
            assert(vm.take(i + 1).drop_last() =~= vm.take(i as int));
            assert(vm.take(i + 1).last() == v@[i as int]@);
        }
        let ghost before = out@;
        if contains_text(within, v[i].as_str()) {
            out.push(v[i].clone());
            proof { assert(texts_model(out@) =~= texts_model(before).push(v@[i as int]@)); }
        }
        i += 1;
    }
    proof { assert(vm.take(v@.len() as int) =~= vm); }
    out
}

fn x_typed_memrefs(memrefs: &Vec<String>, args: &Vec<(String, String)>) -> (r: Vec<(String, String)>)
    ensures
        pairs_model(r@) == typed_memrefs(texts_model(memrefs@), pairs_model(args@)),
{
    let mut out: Vec<(String, String)> = Vec::new();
    let mut i: usize = 0;
    while i < memrefs.len()
        invariant
            i <= memrefs@.len(),
            out@.len() == i,
            forall|k: int| 0 <= k < i ==> (#[trigger] pairs_model(out@)[k]) == typed_memrefs(texts_model(memrefs@), pairs_model(args@))[k],
        decreases memrefs.len() - i,
    {
        let t = match x_arg_type(args, memrefs[i].as_str()) {
            Some(t) => t,
            None => String::new(),
        };
        let ghost before = out@;
        out.push((memrefs[i].clone(), t));
        proof {
            assert forall|k: int| 0 <= k < i + 1 implies (#[trigger] pairs_model(out@)[k]) == typed_memrefs(texts_model(memrefs@), pairs_model(args@))[k] by {
                if k < i {
                    assert(pairs_model(out@)[k] == pairs_model(before)[k]);
                }
            }
        }
        i += 1;
    }
    proof { assert(pairs_model(out@) =~= typed_memrefs(texts_model(memrefs@), pairs_model(args@))); }
    out
}

fn copy_names(v: &Vec<MlirCopyOp>, dst: bool) -> (r: Vec<String>)
    ensures
        texts_model(r@) == if dst { copy_dsts(copies_model(v@)) } else { copy_srcs(copies_model(v@)) },
{
    let mut out: Vec<String> = Vec::new();
    let mut i: usize = 0;
    while i < v.len()
        invariant
            i <= v@.len(),
            out@.len() == i,
            forall|k: int| 0 <= k < i ==> (#[trigger] out@[k])@ == if dst { v@[k].dst@ } else { v@[k].src@ },
        decreases v.len() - i,
    {
        if dst { out.push(v[i].dst.clone()); } else { out.push(v[i].src.clone()); }
        i += 1;
    }
    proof {
        assert(texts_model(out@) =~= if dst { copy_dsts(copies_model(v@)) } else { copy_srcs(copies_model(v@)) });
    }
    out
}

fn gather_names(v: &Vec<MlirGatherOp>, dst: bool) -> (r: Vec<String>)
    ensures
        texts_model(r@) == if dst { gather_dsts(gathers_model(v@)) } else { gather_srcs(gathers_model(v@)) },
{
    let mut out: Vec<String> = Vec::new();
    let mut i: usize = 0;
    while i < v.len()
        invariant
            i <= v@.len(),
            out@.len() == i,
            forall|k: int| 0 <= k < i ==> (#[trigger] out@[k])@ == if dst { v@[k].dst@ } else { v@[k].src@ },
        decreases v.len() - i,
    {
        if dst { out.push(v[i].dst.clone()); } else { out.push(v[i].src.clone()); }
        i += 1;
    }
    proof {
        assert(texts_model(out@) =~= if dst { gather_dsts(gathers_model(v@)) } else { gather_srcs(gathers_model(v@)) });
    }
    out
}

fn pair_names(v: &Vec<(String, String)>, second: bool) -> (r: Vec<String>)
    ensures
        texts_model(r@) == if second { seconds(pairs_model(v@)) } else { firsts(pairs_model(v@)) },
{
    let mut out: Vec<String> = Vec::new();
    let mut i: usize = 0;
    while i < v.len()
        invariant
            i <= v@.len(),
            out@.len() == i,
            forall|k: int| 0 <= k < i ==> (#[trigger] out@[k])@ == if second { v@[k].1@ } else { v@[k].0@ },
        decreases v.len() - i,
    {
        if second { out.push(v[i].1.clone()); } else { out.push(v[i].0.clone()); }
        i += 1;
    }
    proof {
        assert(texts_model(out@) =~= if second { seconds(pairs_model(v@)) } else { firsts(pairs_model(v@)) });
    }
    out
}

/// The symbols of every copy area, then those of every gather area, each added once.
fn x_area_symbols(symbols: &mut Vec<Sym>, cops: &Vec<MlirCopyOp>, gops: &Vec<MlirGatherOp>)
    ensures
        syms_model(final(symbols)@) == super::scan::add_names(super::scan::add_names(syms_model(old(symbols)@),
            copy_syms(copies_model(cops@))), gather_syms(gathers_model(gops@))),
{
    let ghost cm = copies_model(cops@);
    let ghost start = syms_model(symbols@);
    let mut i: usize = 0;
    proof { assert(cm.take(0) =~= Seq::<CopyModel>::empty()); }
    while i < cops.len()
        invariant
            i <= cops@.len(),
            cm == copies_model(cops@),
            syms_model(symbols@) == add_names(start, copy_syms(cm.take(i as int))),
        decreases cops.len() - i,
    {
        proof {
            assert(cm.take(i + 1).drop_last() =~= cm.take(i as int));
            assert(cm.take(i + 1).last() == cops@[i as int]@);
            lemma_add_names_concat(start, copy_syms(cm.take(i as int)), dim_syms(cops@[i as int]@.dims));
        }
        let more = cops[i].broadcast_symbols();
        add_sym_names(symbols, &more);
        i += 1;
    }
    proof { assert(cm.take(cops@.len() as int) =~= cm); }
    let ghost mid = syms_model(symbols@);
    let ghost gm = gathers_model(gops@);
    let mut j: usize = 0;
    proof { assert(gm.take(0) =~= Seq::<GatherModel>::empty()); }
    while j < gops.len()
        invariant
            j <= gops@.len(),
            gm == gathers_model(gops@),
            syms_model(symbols@) == add_names(mid, gather_syms(gm.take(j as int))),
        decreases gops.len() - j,
    {
        proof {
            assert(gm.take(j + 1).drop_last() =~= gm.take(j as int));
            assert(gm.take(j + 1).last() == gops@[j as int]@);
            lemma_add_names_concat(mid, gather_syms(gm.take(j as int)), dim_syms(gops@[j as int]@.area));
        }
        let more = gops[j].area_symbols();
        add_sym_names(symbols, &more);
        j += 1;
    }
    proof { assert(gm.take(gops@.len() as int) =~= gm); }
}

/// Adding two lists of names one after the other is adding their concatenation.
pub proof fn lemma_add_names_concat(acc: Seq<Seq<char>>, a: Seq<Seq<char>>, b: Seq<Seq<char>>)
    ensures
        add_names(add_names(acc, a), b) == add_names(acc, a + b),
    decreases a.len(),
{
    if a.len() == 0 {
        assert(a + b =~= b);
    } else {
        assert((a + b).drop_first() =~= a.drop_first() + b);
        assert((a + b)[0] == a[0]);
        lemma_add_names_concat(add_name(acc, a[0]), a.drop_first(), b);
    }
}


pub open spec fn regions_model(v: Seq<MlirMemRegionBinding>) -> Seq<(Seq<char>, Seq<char>)> {
    v.map_values(|b: MlirMemRegionBinding| (b.memref@, b.region@))
}

fn x_regions(mems: &Vec<(String, String, String)>) -> (r: Vec<MlirMemRegionBinding>)
    ensures
        regions_model(r@) == mems_model(mems@).map_values(|m: MemModel| (m.0, m.1)),
{
    let mut out: Vec<MlirMemRegionBinding> = Vec::new();
    let mut i: usize = 0;
    while i < mems.len()
        invariant
            i <= mems@.len(),
            out@.len() == i,
            forall|k: int| 0 <= k < i ==> (#[trigger] out@[k]).memref@ == mems@[k].0@ && out@[k].region@ == mems@[k].1@,
        decreases mems.len() - i,
    {
        out.push(MlirMemRegionBinding { memref: mems[i].0.clone(), region: mems[i].1.clone() });
        i += 1;
    }
    proof { assert(regions_model(out@) =~= mems_model(mems@).map_values(|m: MemModel| (m.0, m.1))); }
    out
}

/// The body part of reading: everything after the arguments.
fn x_read_body(t: &[char], name: String, args: &Vec<(String, String)>) -> (r: Result<MlirFunc, String>)
    ensures
        match r {
            Ok(f) => read_body(t@, name@, pairs_model(args@)) == Ok::<FuncModel, Seq<char>>(func_model(f)) && f.sym_map is None,
            Err(m) => read_body(t@, name@, pairs_model(args@)) == Err::<FuncModel, Seq<char>>(m@),
        },
{
    let lines = super::lex::x_trimmed_lines(t);
    let (sym_args, tensors, memrefs) = x_classify(args);
    let shapes = match x_bind_shapes(&lines) {
        Err(e) => return Err(e),
        Ok(v) => v,
    };
    match x_shape_mismatch(&shapes, args) {
        Some(m) => return Err(m),
        None => {},
    }
    let pairs = match x_memref_copies(&lines) {
        Err(e) => return Err(e),
        Ok(v) => v,
    };
    let cops = match x_copies(&lines) {
        Err(e) => return Err(e),
        Ok(v) => v,
    };
    let gops = match x_gathers(&lines) {
        Err(e) => return Err(e),
        Ok(v) => v,
    };
    let mems = match x_bind_mems(&lines) {
        Err(e) => return Err(e),
        Ok(v) => v,
    };
    match x_mem_mismatch(&mems, args) {
        Some(m) => return Err(m),
        None => {},
    }
    let outs = match super::scan::x_outs_operands(t) {
        Err(e) => return Err(e),
        Ok(v) => v,
    };
    let mut symbols = syms_of(&sym_args);
    let mut loom = x_loom_syms(&lines);
    let ghost s0 = syms_model(symbols@);
    let ghost l0 = syms_model(loom@);
    symbols.append(&mut loom);
    proof { assert(syms_model(symbols@) =~= s0 + l0); }
    x_area_symbols(&mut symbols, &cops, &gops);
    let mut outputs = outs;
    let rets = x_returned(&lines);
    add_texts(&mut outputs, &rets);
    let output_tensors = x_only_within(&outputs, &tensors);
    let mut sources: Vec<String> = Vec::new();
    let mut targets: Vec<String> = Vec::new();
    proof {
        assert(texts_model(sources@) =~= Seq::<Seq<char>>::empty());
        assert(texts_model(targets@) =~= Seq::<Seq<char>>::empty());
    }
    add_texts_within(&mut sources, &pair_names(&pairs, false), &memrefs);
    add_texts_within(&mut sources, &copy_names(&cops, false), &memrefs);
    add_texts_within(&mut sources, &gather_names(&gops, false), &memrefs);
    add_texts_within(&mut targets, &pair_names(&pairs, true), &memrefs);
    add_texts_within(&mut targets, &copy_names(&cops, true), &memrefs);
    add_texts_within(&mut targets, &gather_names(&gops, true), &memrefs);
    let memref_symbol_bindings = x_memref_bindings(&shapes, &memrefs);
    let tensor_symbol_bindings = x_tensor_bindings(&shapes, &tensors);
    let memref_arg_types = x_typed_memrefs(&memrefs, args);
    let mem_region_bindings = x_regions(&mems);
    let linalg_ops = x_linalg(&lines);
    let details = MlirFuncDetails {
        tensor_args: tensors,
        memref_args: memrefs,
        memref_arg_types,
        memref_memory_requirements: Vec::new(),
        output_tensors,
        source_memrefs: sources,
        target_memrefs: targets,
        memref_symbol_bindings,
        tensor_symbol_bindings,
        mem_region_bindings,
        copy_ops: cops,
        gather_ops: gops,
        linalg_ops,
        operations: Vec::new(),
    };
    let f = MlirFunc { name, symbols, mlir_details: Some(details), sym_map: None };
    proof {
        assert(pairs_model(f.mlir_details->0.memref_memory_requirements@) =~= Seq::<(Seq<char>, Seq<char>)>::empty());
        assert(details_model(f.mlir_details->0).copy_ops == copies_model(f.mlir_details->0.copy_ops@));
        assert(details_model(f.mlir_details->0).gather_ops == gathers_model(f.mlir_details->0.gather_ops@));
    }
    Ok(f)
}

impl MlirFunc {
    /// Reads one `func.func` definition: its name, its `loom.sym` symbols, and the interface
    /// that its signature, `loom.*` operations, `memref.copy`, `outs(..)` and `return`
    /// describe.
    pub fn from_mlir(func_mlir: &str) -> (r: Result<MlirFunc, String>)
        ensures
            match r {
                Ok(f) => read_func(trim_text(func_mlir@)) == Ok::<FuncModel, Seq<char>>(func_model(f)) && f.sym_map is None,
                Err(m) => read_func(trim_text(func_mlir@)) == Err::<FuncModel, Seq<char>>(m@),
            },
    {
        proof { reveal(read_func); }
        let all = crate::text::chars_of(func_mlir);
        let (lo, hi) = crate::text::trim_range(all.as_slice(), 0, all.len());
        let t = vstd::slice::slice_subrange(all.as_slice(), lo, hi);
        let (name, alo, ahi) = match super::scan::x_func_header(t) {
            None => return Err(crate::text::owned("missing 'func.func @' declaration")),
            Some(h) => h,
        };
        let args = match x_args(t, alo, ahi, name.as_str()) {
            Err(e) => return Err(e),
            Ok(a) => a,
        };
        x_read_body(t, name, &args)
    }
}

/// `s` without surrounding whitespace.
pub open spec fn trim_text(s: Seq<char>) -> Seq<char> {
    s.subrange(crate::text::trimmed(s, 0, s.len() as int).0, crate::text::trimmed(s, 0, s.len() as int).1)
}

} // verus!
