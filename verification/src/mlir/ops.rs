//! The Loom and native operations of an MLIR function body, one per line: symbol
//! declarations, shape and memory bindings, copies, gathers, `memref.copy` and `return`.
use vstd::prelude::*;

use crate::arch::index_parser::{char_at, skip_ws, x_char_at, x_skip_ws};
use crate::math::expr::Sym;
use super::lex::{
    comma_at, ident_at, lemma_ends, opt_pos, ssa_at, starts, sym_at, tag_at, u64_at, ws1,
    x_comma_at, x_ssa_at, x_starts, x_sym_at, x_tag_at, x_u64_at, x_ws1, ends,
};

verus! {

/// Symbols bound to the dimensions of a tensor argument by `loom.bind_shape`.
#[derive(Debug, PartialEq, Eq, Hash)]
pub struct MlirTensorSymbolBinding {
    pub tensor: String,
    pub symbols: Vec<Sym>,
}

/// Symbols bound to the dimensions of a memref argument by `loom.bind_shape`.
#[derive(Debug, PartialEq, Eq, Hash)]
pub struct MlirMemrefSymbolBinding {
    pub memref: String,
    pub symbols: Vec<Sym>,
}

/// A memref argument placed in a named memory region by `loom.bind_mem`.
#[derive(Debug, PartialEq, Eq, Hash)]
pub struct MlirMemRegionBinding {
    pub memref: String,
    pub region: String,
}

/// One dimension of a copy's broadcast area or of a gather area.
#[derive(Debug, PartialEq, Eq, Hash)]
pub enum MlirBroadcastDim {
    Const(u64),
    Sym(Sym),
}

/// `loom.copy %src, %dst src_mem_space @R [: kind] dst_mem_space @R [: kind], area: [..]`.
#[derive(Debug, PartialEq, Eq, Hash)]
pub struct MlirCopyOp {
    pub src: String,
    pub src_region: String,
    pub src_mem_kind: Option<u64>,
    pub dst: String,
    pub dst_region: String,
    pub dst_mem_kind: Option<u64>,
    /// `[1, 1]` is no broadcast, `[8, 8]` an 8x8 broadcast, `[@B, 8]` a symbolic one.
    pub broadcast: Vec<MlirBroadcastDim>,
}

/// `loom.gather %src, %dst [src_mem_space @R dst_mem_space @R] area: [..]`, or the older
/// `loom.gather ins(%src: ..) outs(%dst: ..) area: [..]`.
#[derive(Debug, PartialEq, Eq, Hash)]
pub struct MlirGatherOp {
    pub src: String,
    pub dst: String,
    pub area: Vec<MlirBroadcastDim>,
}

/// Model of one area dimension.
pub ghost enum DimModel {
    Const(int),
    Sym(Seq<char>),
}

impl View for MlirBroadcastDim {
    type V = DimModel;

    open spec fn view(&self) -> DimModel {
        match self {
            MlirBroadcastDim::Const(c) => DimModel::Const(*c as int),
            MlirBroadcastDim::Sym(s) => DimModel::Sym(s@),
        }
    }
}

pub open spec fn dims_model(v: Seq<MlirBroadcastDim>) -> Seq<DimModel> {
    v.map_values(|d: MlirBroadcastDim| d@)
}

pub open spec fn opt_u64(o: Option<u64>) -> Option<int> {
    match o {
        Some(v) => Some(v as int),
        None => None,
    }
}

/// Model of a copy.
pub ghost struct CopyModel {
    pub src: Seq<char>,
    pub src_region: Seq<char>,
    pub src_kind: Option<int>,
    pub dst: Seq<char>,
    pub dst_region: Seq<char>,
    pub dst_kind: Option<int>,
    pub dims: Seq<DimModel>,
}

impl View for MlirCopyOp {
    type V = CopyModel;

    open spec fn view(&self) -> CopyModel {
        CopyModel {
            src: self.src@,
            src_region: self.src_region@,
            src_kind: opt_u64(self.src_mem_kind),
            dst: self.dst@,
            dst_region: self.dst_region@,
            dst_kind: opt_u64(self.dst_mem_kind),
            dims: dims_model(self.broadcast@),
        }
    }
}

/// Model of a gather.
pub ghost struct GatherModel {
    pub src: Seq<char>,
    pub dst: Seq<char>,
    pub area: Seq<DimModel>,
}

impl View for MlirGatherOp {
    type V = GatherModel;

    open spec fn view(&self) -> GatherModel {
        GatherModel { src: self.src@, dst: self.dst@, area: dims_model(self.area@) }
    }
}

/// The names of the symbolic dimensions, in order.
pub open spec fn dim_syms(v: Seq<DimModel>) -> Seq<Seq<char>>
    decreases v.len(),
{
    if v.len() == 0 {
        Seq::empty()
    } else {
        dim_syms(v.drop_last()) + match v.last() {
            DimModel::Sym(n) => seq![n],
            DimModel::Const(_) => Seq::empty(),
        }
    }
}

impl MlirBroadcastDim {
    /// The symbol of a symbolic dimension.
    pub fn symbol(&self) -> (r: Option<&Sym>)
        ensures
            match self {
                MlirBroadcastDim::Sym(s) => r == Some(s),
                MlirBroadcastDim::Const(_) => r is None,
            },
    {
        match self {
            MlirBroadcastDim::Const(_) => None,
            MlirBroadcastDim::Sym(s) => Some(s),
        }
    }
}

pub open spec fn syms_model(v: Seq<Sym>) -> Seq<Seq<char>> {
    v.map_values(|s: Sym| s@)
}

/// The symbols of a list of dimensions, in order.
pub fn dims_symbols(v: &Vec<MlirBroadcastDim>) -> (r: Vec<Sym>)
    ensures
        syms_model(r@) == dim_syms(dims_model(v@)),
{
    let mut out: Vec<Sym> = Vec::new();
    let mut i: usize = 0;
    proof { assert(dims_model(v@).take(0) =~= Seq::<DimModel>::empty()); }
    while i < v.len()
        invariant
            i <= v@.len(),
            syms_model(out@) == dim_syms(dims_model(v@).take(i as int)),
        decreases v.len() - i,
    {
        let ghost before = out@;
        proof { assert(dims_model(v@).take(i + 1).drop_last() =~= dims_model(v@).take(i as int)); }
        match &v[i] {
            MlirBroadcastDim::Sym(s) => {
                out.push(s.clone());
                proof { assert(syms_model(out@) =~= syms_model(before) + seq![s@]); }
            },
            MlirBroadcastDim::Const(_) => {
                proof { assert(syms_model(out@) =~= syms_model(before) + Seq::<Seq<char>>::empty()); }
            },
        }
        i += 1;
    }
    proof { assert(dims_model(v@).take(v@.len() as int) =~= dims_model(v@)); }
    out
}

impl MlirCopyOp {
    /// The symbols of the broadcast area, in order.
    pub fn broadcast_symbols(&self) -> (r: Vec<Sym>)
        ensures
            syms_model(r@) == dim_syms(self@.dims),
    {
        dims_symbols(&self.broadcast)
    }
}

impl MlirGatherOp {
    /// The symbols of the gather area, in order.
    pub fn area_symbols(&self) -> (r: Vec<Sym>)
        ensures
            syms_model(r@) == dim_syms(self@.area),
    {
        dims_symbols(&self.area)
    }
}

// ---------------------------------------------------------------------------
// Lists

/// `ssa (, ssa)*` from `q`, as many as match: the names and the end.
pub open spec fn ssa_more(s: Seq<char>, q: int, acc: Seq<Seq<char>>) -> (Seq<Seq<char>>, int)
    decreases s.len() - q,
{
    match comma_at(s, q) {
        Some(c) => match ssa_at(s, c) {
            Some(e) => if e <= q || e > s.len() { (acc, q) } else { ssa_more(s, e, acc.push(s.subrange(c + 1, e))) },
            None => (acc, q),
        },
        None => (acc, q),
    }
}

pub open spec fn ssa_items(s: Seq<char>, q: int) -> (Seq<Seq<char>>, int) {
    match ssa_at(s, q) {
        Some(e) => ssa_more(s, e, seq![s.subrange(q + 1, e)]),
        None => (Seq::empty(), q),
    }
}

/// `[ %a, %b, ... ]`.
pub open spec fn ssa_list(s: Seq<char>, p: int) -> Option<(Seq<Seq<char>>, int)> {
    if !char_at(s, p, '[') {
        None
    } else {
        let (items, r) = ssa_items(s, skip_ws(s, p + 1));
        let t = skip_ws(s, r);
        if char_at(s, t, ']') { Some((items, t + 1)) } else { None }
    }
}

pub open spec fn texts_model(v: Seq<String>) -> Seq<Seq<char>> {
    v.map_values(|x: String| x@)
}

fn x_ssa_items(s: &[char], q: usize) -> (r: (Vec<String>, usize))
    requires
        q <= s@.len(),
    ensures
        (texts_model(r.0@), r.1 as int) == ssa_items(s@, q as int),
        q <= r.1 <= s@.len(),
{
    let mut out: Vec<String> = Vec::new();
    match x_ssa_at(s, q) {
        None => {
            proof { assert(texts_model(out@) =~= Seq::<Seq<char>>::empty()); }
            (out, q)
        },
        Some(e) => {
            out.push(crate::text::from_char_range(s, q + 1, e));
            proof { assert(texts_model(out@) =~= seq![s@.subrange(q + 1, e as int)]); }
            let mut p = e;
            loop
                invariant
                    q < p <= s@.len(),
                    ssa_items(s@, q as int) == ssa_more(s@, p as int, texts_model(out@)),
                decreases s@.len() - p,
            {
                match x_comma_at(s, p) {
                    None => return (out, p),
                    Some(c) => match x_ssa_at(s, c) {
                        None => return (out, p),
                        Some(e2) => {
                            if e2 <= p {
                                return (out, p);
                            }
                            let ghost before = out@;
                            out.push(crate::text::from_char_range(s, c + 1, e2));
                            proof { assert(texts_model(out@) =~= texts_model(before).push(s@.subrange(c + 1, e2 as int))); }
                            p = e2;
                        },
                    },
                }
            }
        },
    }
}

fn x_ssa_list(s: &[char], p: usize) -> (r: Option<(Vec<String>, usize)>)
    requires
        p <= s@.len(),
    ensures
        match r {
            Some((v, e)) => ssa_list(s@, p as int) == Some((texts_model(v@), e as int)) && e <= s@.len(),
            None => ssa_list(s@, p as int) is None,
        },
{
    if !(p < s.len() && s[p] == '[') {
        return None;
    }
    proof { lemma_ends(s@, p + 1); }
    let q = x_skip_ws(s, p + 1);
    let (items, r) = x_ssa_items(s, q);
    proof { lemma_ends(s@, r as int); }
    let t = x_skip_ws(s, r);
    if t < s.len() && s[t] == ']' { Some((items, t + 1)) } else { None }
}

/// One area dimension: `%sym`, `@sym` or a `u64`.
pub open spec fn dim_at(s: Seq<char>, p: int) -> Option<(DimModel, int)> {
    match ssa_at(s, p) {
        Some(e) => Some((DimModel::Sym(s.subrange(p + 1, e)), e)),
        None => match sym_at(s, p) {
            Some(e) => Some((DimModel::Sym(s.subrange(p + 1, e)), e)),
            None => match u64_at(s, p) {
                Some((v, e)) => Some((DimModel::Const(v), e)),
                None => None,
            },
        },
    }
}

pub open spec fn dim_more(s: Seq<char>, q: int, acc: Seq<DimModel>) -> (Seq<DimModel>, int)
    decreases s.len() - q,
{
    match comma_at(s, q) {
        Some(c) => match dim_at(s, c) {
            Some((d, e)) => if e <= q || e > s.len() { (acc, q) } else { dim_more(s, e, acc.push(d)) },
            None => (acc, q),
        },
        None => (acc, q),
    }
}

/// `[ d, d, ... ]` of area dimensions.
pub open spec fn dim_list(s: Seq<char>, p: int) -> Option<(Seq<DimModel>, int)> {
    if !char_at(s, p, '[') {
        None
    } else {
        let q = skip_ws(s, p + 1);
        let (items, r) = match dim_at(s, q) {
            Some((d, e)) => dim_more(s, e, seq![d]),
            None => (Seq::empty(), q),
        };
        let t = skip_ws(s, r);
        if char_at(s, t, ']') { Some((items, t + 1)) } else { None }
    }
}

fn x_dim_at(s: &[char], p: usize) -> (r: Option<(MlirBroadcastDim, usize)>)
    requires
        p <= s@.len(),
    ensures
        match r {
            Some((d, e)) => dim_at(s@, p as int) == Some((d@, e as int)) && p < e <= s@.len(),
            None => dim_at(s@, p as int) is None,
        },
{
    match x_ssa_at(s, p) {
        Some(e) => Some((MlirBroadcastDim::Sym(Sym(crate::text::from_char_range(s, p + 1, e))), e)),
        None => match x_sym_at(s, p) {
            Some(e) => Some((MlirBroadcastDim::Sym(Sym(crate::text::from_char_range(s, p + 1, e))), e)),
            None => match x_u64_at(s, p) {
                Some((v, e)) => Some((MlirBroadcastDim::Const(v), e)),
                None => None,
            },
        },
    }
}

fn x_dim_list(s: &[char], p: usize) -> (r: Option<(Vec<MlirBroadcastDim>, usize)>)
    requires
        p <= s@.len(),
    ensures
        match r {
            Some((v, e)) => dim_list(s@, p as int) == Some((dims_model(v@), e as int)) && e <= s@.len(),
            None => dim_list(s@, p as int) is None,
        },
{
    if !(p < s.len() && s[p] == '[') {
        return None;
    }
    proof { lemma_ends(s@, p + 1); }
    let q = x_skip_ws(s, p + 1);
    let mut out: Vec<MlirBroadcastDim> = Vec::new();
    let mut r = q;
    match x_dim_at(s, q) {
        None => {
            proof { assert(dims_model(out@) =~= Seq::<DimModel>::empty()); }
        },
        Some((d, e)) => {
            out.push(d);
            proof { assert(dims_model(out@) =~= seq![d@]); }
            let mut cur = e;
            let ghost target = dim_more(s@, e as int, seq![d@]);
            loop
                invariant
                    q < cur <= s@.len(),
                    target == dim_more(s@, cur as int, dims_model(out@)),
                ensures
                    q < cur <= s@.len(),
                    target == (dims_model(out@), cur as int),
                decreases s@.len() - cur,
            {
                match x_comma_at(s, cur) {
                    None => break,
                    Some(c) => match x_dim_at(s, c) {
                        None => break,
                        Some((d2, e2)) => {
                            if e2 <= cur {
                                break;
                            }
                            let ghost before = out@;
                            out.push(d2);
                            proof { assert(dims_model(out@) =~= dims_model(before).push(d2@)); }
                            cur = e2;
                        },
                    },
                }
            }
            r = cur;
        },
    }
    proof { lemma_ends(s@, r as int); }
    let t = x_skip_ws(s, r);
    if t < s.len() && s[t] == ']' { Some((out, t + 1)) } else { None }
}


// ---------------------------------------------------------------------------
// One line each

/// `%x = loom.sym @name ...`: the name.
pub open spec fn sym_decl(l: Seq<char>) -> Option<Seq<char>> {
    match ssa_at(l, 0) {
        None => None,
        Some(e1) => {
            let q = skip_ws(l, e1);
            if !char_at(l, q, '=') {
                None
            } else {
                match tag_at(l, skip_ws(l, q + 1), "loom.sym"@) {
                    None => None,
                    Some(t) => {
                        let u = skip_ws(l, t);
                        match sym_at(l, u) {
                            Some(e) => Some(l.subrange(u + 1, e)),
                            None => None,
                        }
                    },
                }
            }
        },
    }
}

pub fn x_sym_decl(l: &[char]) -> (r: Option<String>)
    ensures
        match r {
            Some(n) => sym_decl(l@) == Some(n@),
            None => sym_decl(l@) is None,
        },
{
    let e1 = match x_ssa_at(l, 0) {
        None => return None,
        Some(e) => e,
    };
    proof { lemma_ends(l@, e1 as int); }
    let q = x_skip_ws(l, e1);
    if !(q < l.len() && l[q] == '=') {
        return None;
    }
    proof { lemma_ends(l@, q + 1); }
    let q2 = x_skip_ws(l, q + 1);
    let t = match x_tag_at(l, q2, "loom.sym") {
        None => return None,
        Some(t) => t,
    };
    proof { lemma_ends(l@, t as int); }
    let u = x_skip_ws(l, t);
    match x_sym_at(l, u) {
        Some(e) => Some(crate::text::from_char_range(l, u + 1, e)),
        None => None,
    }
}

/// `: type` after `p`: the type without surrounding whitespace, if not empty.
pub open spec fn annotation(l: Seq<char>, p: int) -> Option<Seq<char>> {
    let q = skip_ws(l, p);
    if !char_at(l, q, ':') {
        None
    } else {
        let (lo, hi) = crate::text::trimmed(l, q + 1, l.len() as int);
        if lo >= hi { None } else { Some(l.subrange(lo, hi)) }
    }
}

fn x_annotation(l: &[char], p: usize) -> (r: Option<String>)
    requires
        p <= l@.len(),
    ensures
        match r {
            Some(t) => annotation(l@, p as int) == Some(t@),
            None => annotation(l@, p as int) is None,
        },
{
    proof { lemma_ends(l@, p as int); }
    let q = x_skip_ws(l, p);
    if !(q < l.len() && l[q] == ':') {
        return None;
    }
    let (lo, hi) = crate::text::trim_range(l, q + 1, l.len());
    if lo >= hi { None } else { Some(crate::text::from_char_range(l, lo, hi)) }
}

/// A type written as `memref<...>`, or also `tensor<...>` when `tensors` holds.
pub open spec fn shaped_type(ty: Seq<char>, tensors: bool) -> bool {
    (starts(ty, "memref<"@) || (tensors && starts(ty, "tensor<"@))) && ends(ty, '>')
}

fn x_shaped_type(ty: &str, tensors: bool) -> (r: bool)
    ensures
        r == shaped_type(ty@, tensors),
{
    let c = crate::text::chars_of(ty);
    (x_starts(c.as_slice(), "memref<") || (tensors && x_starts(c.as_slice(), "tensor<")))
        && c.len() > 0 && c[c.len() - 1] == '>'
}

/// `loom.bind_shape %x, [%a, %b] : type`: the operand, the symbols and the type.
pub open spec fn bind_shape(l: Seq<char>) -> Option<(Seq<char>, Seq<Seq<char>>, Seq<char>)> {
    match tag_at(l, 0, "loom.bind_shape"@) {
        None => None,
        Some(t) => match ws1(l, t) {
            None => None,
            Some(a) => match ssa_at(l, a) {
                None => None,
                Some(e1) => match comma_at(l, e1) {
                    None => None,
                    Some(c) => match ssa_list(l, c) {
                        None => None,
                        Some((syms, e2)) => match annotation(l, e2) {
                            None => None,
                            Some(ty) => if shaped_type(ty, true) { Some((l.subrange(a + 1, e1), syms, ty)) } else { None },
                        },
                    },
                },
            },
        },
    }
}

pub fn x_bind_shape(l: &[char]) -> (r: Option<(String, Vec<String>, String)>)
    ensures
        match r {
            Some((x, v, t)) => bind_shape(l@) == Some((x@, texts_model(v@), t@)),
            None => bind_shape(l@) is None,
        },
{
    let t = match x_tag_at(l, 0, "loom.bind_shape") {
        None => return None,
        Some(t) => t,
    };
    let a = match x_ws1(l, t) {
        None => return None,
        Some(a) => a,
    };
    proof { lemma_ends(l@, t as int); }
    let e1 = match x_ssa_at(l, a) {
        None => return None,
        Some(e) => e,
    };
    let c = match x_comma_at(l, e1) {
        None => return None,
        Some(c) => c,
    };
    let (syms, e2) = match x_ssa_list(l, c) {
        None => return None,
        Some(x) => x,
    };
    let ty = match x_annotation(l, e2) {
        None => return None,
        Some(ty) => ty,
    };
    if x_shaped_type(ty.as_str(), true) {
        Some((crate::text::from_char_range(l, a + 1, e1), syms, ty))
    } else {
        None
    }
}

/// An optional comma with whitespace around it.
pub open spec fn opt_comma(l: Seq<char>, p: int) -> int {
    match comma_at(l, p) {
        Some(c) => c,
        None => p,
    }
}

fn x_opt_comma(l: &[char], p: usize) -> (r: usize)
    requires
        p <= l@.len(),
    ensures
        r == opt_comma(l@, p as int),
        p <= r <= l@.len(),
{
    match x_comma_at(l, p) {
        Some(c) => c,
        None => p,
    }
}

/// `loom.bind_mem %x, @Region : memref<..>` (or `@Region %x`): memref, region and type.
pub open spec fn bind_mem(l: Seq<char>) -> Option<(Seq<char>, Seq<char>, Seq<char>)> {
    match tag_at(l, 0, "loom.bind_mem"@) {
        None => None,
        Some(t) => match ws1(l, t) {
            None => None,
            Some(a) => {
                let parts: Option<(Seq<char>, Seq<char>, int)> = match ssa_at(l, a) {
                    Some(e1) => {
                        let b = skip_ws(l, opt_comma(l, e1));
                        match sym_at(l, b) {
                            Some(e2) => Some((l.subrange(a + 1, e1), l.subrange(b + 1, e2), e2)),
                            None => None,
                        }
                    },
                    None => match sym_at(l, a) {
                        Some(e1) => {
                            let b = skip_ws(l, opt_comma(l, e1));
                            match ssa_at(l, b) {
                                Some(e2) => Some((l.subrange(b + 1, e2), l.subrange(a + 1, e1), e2)),
                                None => None,
                            }
                        },
                        None => None,
                    },
                };
                match parts {
                    None => None,
                    Some((memref, region, e)) => match annotation(l, e) {
                        None => None,
                        Some(ty) => if shaped_type(ty, false) { Some((memref, region, ty)) } else { None },
                    },
                }
            },
        },
    }
}

pub fn x_bind_mem(l: &[char]) -> (r: Option<(String, String, String)>)
    ensures
        match r {
            Some((m, g, t)) => bind_mem(l@) == Some((m@, g@, t@)),
            None => bind_mem(l@) is None,
        },
{
    let t = match x_tag_at(l, 0, "loom.bind_mem") {
        None => return None,
        Some(t) => t,
    };
    let a = match x_ws1(l, t) {
        None => return None,
        Some(a) => a,
    };
    proof { lemma_ends(l@, t as int); }
    let (memref, region, e) = match x_ssa_at(l, a) {
        Some(e1) => {
            let oc = x_opt_comma(l, e1);
            proof { lemma_ends(l@, oc as int); }
            let b = x_skip_ws(l, oc);
            match x_sym_at(l, b) {
                Some(e2) => (crate::text::from_char_range(l, a + 1, e1), crate::text::from_char_range(l, b + 1, e2), e2),
                None => return None,
            }
        },
        None => match x_sym_at(l, a) {
            Some(e1) => {
                let oc = x_opt_comma(l, e1);
                proof { lemma_ends(l@, oc as int); }
                let b = x_skip_ws(l, oc);
                match x_ssa_at(l, b) {
                    Some(e2) => (crate::text::from_char_range(l, b + 1, e2), crate::text::from_char_range(l, a + 1, e1), e2),
                    None => return None,
                }
            },
            None => return None,
        },
    };
    let ty = match x_annotation(l, e) {
        None => return None,
        Some(ty) => ty,
    };
    if x_shaped_type(ty.as_str(), false) { Some((memref, region, ty)) } else { None }
}

/// An optional memory kind `: n` after a region.
pub open spec fn mem_kind(l: Seq<char>, p: int) -> (Option<int>, int) {
    let q = skip_ws(l, p);
    if char_at(l, q, ':') {
        match u64_at(l, skip_ws(l, q + 1)) {
            Some((v, e)) => (Some(v), e),
            None => (None, p),
        }
    } else {
        (None, p)
    }
}

fn x_mem_kind(l: &[char], p: usize) -> (r: (Option<u64>, usize))
    requires
        p <= l@.len(),
    ensures
        (opt_u64(r.0), r.1 as int) == mem_kind(l@, p as int),
        p <= r.1 <= l@.len(),
{
    proof { lemma_ends(l@, p as int); }
    let q = x_skip_ws(l, p);
    if q < l.len() && l[q] == ':' {
        proof { lemma_ends(l@, q + 1); }
        match x_u64_at(l, x_skip_ws(l, q + 1)) {
            Some((v, e)) => (Some(v), e),
            None => (None, p),
        }
    } else {
        (None, p)
    }
}

/// `kw @Region [: kind]` after whitespace: region, kind and end.
pub open spec fn mem_space(l: Seq<char>, p: int, kw: Seq<char>) -> Option<(Seq<char>, Option<int>, int)> {
    match tag_at(l, p, kw) {
        None => None,
        Some(t) => match ws1(l, t) {
            None => None,
            Some(b) => match sym_at(l, b) {
                None => None,
                Some(e) => Some((l.subrange(b + 1, e), mem_kind(l, e).0, mem_kind(l, e).1)),
            },
        },
    }
}

fn x_mem_space(l: &[char], p: usize, kw: &str) -> (r: Option<(String, Option<u64>, usize)>)
    requires
        p <= l@.len(),
    ensures
        match r {
            Some((g, k, e)) => mem_space(l@, p as int, kw@) == Some((g@, opt_u64(k), e as int)) && p < e <= l@.len(),
            None => mem_space(l@, p as int, kw@) is None,
        },
{
    let t = match x_tag_at(l, p, kw) {
        None => return None,
        Some(t) => t,
    };
    let b = match x_ws1(l, t) {
        None => return None,
        Some(b) => b,
    };
    proof { lemma_ends(l@, t as int); }
    match x_sym_at(l, b) {
        None => None,
        Some(e) => {
            let (k, e2) = x_mem_kind(l, e);
            Some((crate::text::from_char_range(l, b + 1, e), k, e2))
        },
    }
}

/// `area : [..]` at `p`.
pub open spec fn area_at(l: Seq<char>, p: int) -> Option<Seq<DimModel>> {
    match tag_at(l, p, "area"@) {
        None => None,
        Some(t) => {
            let q = skip_ws(l, t);
            if !char_at(l, q, ':') {
                None
            } else {
                match dim_list(l, skip_ws(l, q + 1)) {
                    Some((d, _)) => Some(d),
                    None => None,
                }
            }
        },
    }
}

fn x_area_at(l: &[char], p: usize) -> (r: Option<Vec<MlirBroadcastDim>>)
    requires
        p <= l@.len(),
    ensures
        match r {
            Some(d) => area_at(l@, p as int) == Some(dims_model(d@)),
            None => area_at(l@, p as int) is None,
        },
{
    let t = match x_tag_at(l, p, "area") {
        None => return None,
        Some(t) => t,
    };
    proof { lemma_ends(l@, t as int); }
    let q = x_skip_ws(l, t);
    if !(q < l.len() && l[q] == ':') {
        return None;
    }
    proof { lemma_ends(l@, q + 1); }
    match x_dim_list(l, x_skip_ws(l, q + 1)) {
        Some((d, _)) => Some(d),
        None => None,
    }
}

/// `loom.copy %src, %dst src_mem_space @R [: k] dst_mem_space @R [: k], area: [..]`.
pub open spec fn loom_copy(l: Seq<char>) -> Option<CopyModel> {
    match tag_at(l, 0, "loom.copy"@) {
        None => None,
        Some(t) => match ws1(l, t) {
            None => None,
            Some(a) => match ssa_at(l, a) {
                None => None,
                Some(e1) => match comma_at(l, e1) {
                    None => None,
                    Some(c) => match ssa_at(l, c) {
                        None => None,
                        Some(e2) => match ws1(l, e2) {
                            None => None,
                            Some(b) => match mem_space(l, b, "src_mem_space"@) {
                                None => None,
                                Some((sr, sk, e3)) => match ws1(l, e3) {
                                    None => None,
                                    Some(b2) => match mem_space(l, b2, "dst_mem_space"@) {
                                        None => None,
                                        Some((dr, dk, e4)) => match comma_at(l, e4) {
                                            None => None,
                                            Some(c2) => match area_at(l, c2) {
                                                None => None,
                                                Some(dims) => Some(CopyModel {
                                                    src: l.subrange(a + 1, e1),
                                                    src_region: sr,
                                                    src_kind: sk,
                                                    dst: l.subrange(c + 1, e2),
                                                    dst_region: dr,
                                                    dst_kind: dk,
                                                    dims,
                                                }),
                                            },
                                        },
                                    },
                                },
                            },
                        },
                    },
                },
            },
        },
    }
}

pub fn x_loom_copy(l: &[char]) -> (r: Option<MlirCopyOp>)
    ensures
        match r {
            Some(c) => loom_copy(l@) == Some(c@),
            None => loom_copy(l@) is None,
        },
{
    let t = match x_tag_at(l, 0, "loom.copy") {
        None => return None,
        Some(t) => t,
    };
    proof { lemma_ends(l@, t as int); }
    let a = match x_ws1(l, t) {
        None => return None,
        Some(a) => a,
    };
    let e1 = match x_ssa_at(l, a) {
        None => return None,
        Some(e) => e,
    };
    let c = match x_comma_at(l, e1) {
        None => return None,
        Some(c) => c,
    };
    let e2 = match x_ssa_at(l, c) {
        None => return None,
        Some(e) => e,
    };
    proof { lemma_ends(l@, e2 as int); }
    let b = match x_ws1(l, e2) {
        None => return None,
        Some(b) => b,
    };
    let (sr, sk, e3) = match x_mem_space(l, b, "src_mem_space") {
        None => return None,
        Some(x) => x,
    };
    proof { lemma_ends(l@, e3 as int); }
    let b2 = match x_ws1(l, e3) {
        None => return None,
        Some(b) => b,
    };
    let (dr, dk, e4) = match x_mem_space(l, b2, "dst_mem_space") {
        None => return None,
        Some(x) => x,
    };
    let c2 = match x_comma_at(l, e4) {
        None => return None,
        Some(c) => c,
    };
    match x_area_at(l, c2) {
        None => None,
        Some(dims) => Some(MlirCopyOp {
            src: crate::text::from_char_range(l, a + 1, e1),
            src_region: sr,
            src_mem_kind: sk,
            dst: crate::text::from_char_range(l, c + 1, e2),
            dst_region: dr,
            dst_mem_kind: dk,
            broadcast: dims,
        }),
    }
}

/// The name of the operand `%x ...` that a parenthesized group `( .. )` at `p` holds,
/// and the end of the group.
pub open spec fn group_operand(l: Seq<char>, p: int) -> Option<(Seq<char>, int)> {
    match super::lex::closing_at(l, p, '(', ')') {
        None => None,
        Some(k) => {
            let lo = crate::text::trimmed(l, p + 1, k).0;
            match ssa_at(l, lo) {
                Some(e) => if e <= k { Some((l.subrange(lo + 1, e), k + 1)) } else { None },
                None => None,
            }
        },
    }
}

fn x_group_operand(l: &[char], p: usize) -> (r: Option<(String, usize)>)
    requires
        p <= l@.len(),
    ensures
        match r {
            Some((n, e)) => group_operand(l@, p as int) == Some((n@, e as int)) && p < e <= l@.len(),
            None => group_operand(l@, p as int) is None,
        },
{
    match super::lex::x_closing_at(l, p, '(', ')') {
        None => None,
        Some(k) => {
            let n = l.len();
            assert(k < n);
            let (lo, _hi) = crate::text::trim_range(l, p + 1, k);
            match x_ssa_at(l, lo) {
                Some(e) => if e <= k { Some((crate::text::from_char_range(l, lo + 1, e), k + 1)) } else { None },
                None => None,
            }
        },
    }
}

/// The source and destination of a gather and where the rest begins.
pub open spec fn gather_operands(l: Seq<char>, a: int) -> Option<(Seq<char>, Seq<char>, int)> {
    match tag_at(l, a, "ins"@) {
        Some(t) => match group_operand(l, skip_ws(l, t)) {
            None => None,
            Some((src, e1)) => match ws1(l, e1) {
                None => None,
                Some(b) => match tag_at(l, b, "outs"@) {
                    None => None,
                    Some(t2) => match group_operand(l, skip_ws(l, t2)) {
                        None => None,
                        Some((dst, e2)) => match ws1(l, e2) {
                            None => None,
                            Some(p) => Some((src, dst, p)),
                        },
                    },
                },
            },
        },
        None => match ssa_at(l, a) {
            None => None,
            Some(e1) => match comma_at(l, e1) {
                None => None,
                Some(c) => match ssa_at(l, c) {
                    None => None,
                    Some(e2) => match ws1(l, e2) {
                        None => None,
                        Some(p) => Some((l.subrange(a + 1, e1), l.subrange(c + 1, e2), p)),
                    },
                },
            },
        },
    }
}

/// Optional `src_mem_space @R [: k] dst_mem_space @R [: k]` before the area, followed by
/// a comma or whitespace.
pub open spec fn gather_spaces(l: Seq<char>, p: int) -> Option<int> {
    match mem_space(l, p, "src_mem_space"@) {
        None => Some(p),
        Some((_, _, e)) => match ws1(l, e) {
            None => None,
            Some(b) => match mem_space(l, b, "dst_mem_space"@) {
                None => None,
                Some((_, _, e2)) => match comma_at(l, e2) {
                    Some(c) => Some(c),
                    None => ws1(l, e2),
                },
            },
        },
    }
}

/// `loom.gather` in either form.
pub open spec fn loom_gather(l: Seq<char>) -> Option<GatherModel> {
    match tag_at(l, 0, "loom.gather"@) {
        None => None,
        Some(t) => match ws1(l, t) {
            None => None,
            Some(a) => match gather_operands(l, a) {
                None => None,
                Some((src, dst, p)) => match gather_spaces(l, p) {
                    None => None,
                    Some(q) => match area_at(l, q) {
                        None => None,
                        Some(area) => Some(GatherModel { src, dst, area }),
                    },
                },
            },
        },
    }
}

fn x_gather_operands(l: &[char], a: usize) -> (r: Option<(String, String, usize)>)
    requires
        a <= l@.len(),
    ensures
        match r {
            Some((x, y, p)) => gather_operands(l@, a as int) == Some((x@, y@, p as int)) && p <= l@.len(),
            None => gather_operands(l@, a as int) is None,
        },
{
    match x_tag_at(l, a, "ins") {
        Some(t) => {
            proof { lemma_ends(l@, t as int); }
            let (src, e1) = match x_group_operand(l, x_skip_ws(l, t)) {
                None => return None,
                Some(x) => x,
            };
            proof { lemma_ends(l@, e1 as int); }
            let b = match x_ws1(l, e1) {
                None => return None,
                Some(b) => b,
            };
            let t2 = match x_tag_at(l, b, "outs") {
                None => return None,
                Some(t2) => t2,
            };
            proof { lemma_ends(l@, t2 as int); }
            let (dst, e2) = match x_group_operand(l, x_skip_ws(l, t2)) {
                None => return None,
                Some(x) => x,
            };
            proof { lemma_ends(l@, e2 as int); }
            match x_ws1(l, e2) {
                None => None,
                Some(p) => Some((src, dst, p)),
            }
        },
        None => {
            let e1 = match x_ssa_at(l, a) {
                None => return None,
                Some(e) => e,
            };
            let c = match x_comma_at(l, e1) {
                None => return None,
                Some(c) => c,
            };
            let e2 = match x_ssa_at(l, c) {
                None => return None,
                Some(e) => e,
            };
            proof { lemma_ends(l@, e2 as int); }
            match x_ws1(l, e2) {
                None => None,
                Some(p) => Some((crate::text::from_char_range(l, a + 1, e1), crate::text::from_char_range(l, c + 1, e2), p)),
            }
        },
    }
}

fn x_gather_spaces(l: &[char], p: usize) -> (r: Option<usize>)
    requires
        p <= l@.len(),
    ensures
        opt_pos(r) == gather_spaces(l@, p as int),
        r matches Some(q) ==> q <= l@.len(),
{
    match x_mem_space(l, p, "src_mem_space") {
        None => Some(p),
        Some((_, _, e)) => {
            proof { lemma_ends(l@, e as int); }
            match x_ws1(l, e) {
                None => None,
                Some(b) => match x_mem_space(l, b, "dst_mem_space") {
                    None => None,
                    Some((_, _, e2)) => {
                        proof { lemma_ends(l@, e2 as int); }
                        match x_comma_at(l, e2) {
                            Some(c) => Some(c),
                            None => x_ws1(l, e2),
                        }
                    },
                },
            }
        },
    }
}

pub fn x_loom_gather(l: &[char]) -> (r: Option<MlirGatherOp>)
    ensures
        match r {
            Some(g) => loom_gather(l@) == Some(g@),
            None => loom_gather(l@) is None,
        },
{
    let t = match x_tag_at(l, 0, "loom.gather") {
        None => return None,
        Some(t) => t,
    };
    proof { lemma_ends(l@, t as int); }
    let a = match x_ws1(l, t) {
        None => return None,
        Some(a) => a,
    };
    let (src, dst, p) = match x_gather_operands(l, a) {
        None => return None,
        Some(x) => x,
    };
    let q = match x_gather_spaces(l, p) {
        None => return None,
        Some(q) => q,
    };
    match x_area_at(l, q) {
        None => None,
        Some(area) => Some(MlirGatherOp { src, dst, area }),
    }
}

/// `memref.copy %src, %dst ...`.
pub open spec fn memref_copy(l: Seq<char>) -> Option<(Seq<char>, Seq<char>)> {
    match tag_at(l, 0, "memref.copy"@) {
        None => None,
        Some(t) => match ws1(l, t) {
            None => None,
            Some(a) => match ssa_at(l, a) {
                None => None,
                Some(e1) => match comma_at(l, e1) {
                    None => None,
                    Some(c) => match ssa_at(l, c) {
                        None => None,
                        Some(e2) => Some((l.subrange(a + 1, e1), l.subrange(c + 1, e2))),
                    },
                },
            },
        },
    }
}

pub fn x_memref_copy(l: &[char]) -> (r: Option<(String, String)>)
    ensures
        match r {
            Some((x, y)) => memref_copy(l@) == Some((x@, y@)),
            None => memref_copy(l@) is None,
        },
{
    let t = match x_tag_at(l, 0, "memref.copy") {
        None => return None,
        Some(t) => t,
    };
    proof { lemma_ends(l@, t as int); }
    let a = match x_ws1(l, t) {
        None => return None,
        Some(a) => a,
    };
    let e1 = match x_ssa_at(l, a) {
        None => return None,
        Some(e) => e,
    };
    let c = match x_comma_at(l, e1) {
        None => return None,
        Some(c) => c,
    };
    match x_ssa_at(l, c) {
        None => None,
        Some(e2) => Some((crate::text::from_char_range(l, a + 1, e1), crate::text::from_char_range(l, c + 1, e2))),
    }
}

/// `return %a, %b ...`: the returned names (none when the list does not parse).
pub open spec fn return_operands(l: Seq<char>) -> Option<Seq<Seq<char>>> {
    match tag_at(l, 0, "return"@) {
        None => None,
        Some(t) => Some(ssa_items(l, skip_ws(l, t)).0),
    }
}

pub fn x_return_operands(l: &[char]) -> (r: Option<Vec<String>>)
    ensures
        match r {
            Some(v) => return_operands(l@) == Some(texts_model(v@)),
            None => return_operands(l@) is None,
        },
{
    let t = match x_tag_at(l, 0, "return") {
        None => return None,
        Some(t) => t,
    };
    proof { lemma_ends(l@, t as int); }
    let (items, _) = x_ssa_items(l, x_skip_ws(l, t));
    Some(items)
}

} // verus!
