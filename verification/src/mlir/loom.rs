//! A compact Loom source as a whole: its `func @name { ... }` blocks, and the MLIR module
//! whose function interfaces they declare.
use vstd::prelude::*;

use crate::arch::index_parser::skip_ws;
use crate::math::expr::Sym;
use crate::text::{chars_of, decimal, find_char, is_alpha, is_digit, push_str};
use super::compact::{
    block_shape_ok, compact_model, parse_compact_function, text2, Buffer, BufferModel,
    CompactModel, LoomParseError,
};
use super::ctext::{copy_range, first_at, first_token, first_token_vec, space_end, space_end_vec};
use super::func::{DetailsModel, FuncModel, MlirFunc, MlirFuncDetails, MlirModule, MlirOperationKind, func_model};
use super::lex::{balanced_end, closing_at, starts, x_closing_at, x_starts};
use super::ops::{syms_model, MlirMemrefSymbolBinding};
use super::scan::{find_str, lemma_find_str, x_find_str};

verus! {

// ---------------------------------------------------------------------------
// Function blocks

/// The `[start, end)` ranges of the `func @` blocks of `src` from `cursor` on: each runs
/// from `func @` to the `}` that closes its first `{`.
pub open spec fn blocks_from(src: Seq<char>, cursor: int, acc: Seq<(int, int)>) -> Result<Seq<(int, int)>, Seq<char>>
    decreases src.len() - cursor,
{
    let start = find_str(src, cursor, "func @"@);
    if cursor < 0 || start >= src.len() {
        Ok(acc)
    } else {
        let open = find_char(src, start, src.len() as int, '{');
        if open >= src.len() {
            Err("function is missing '{'"@)
        } else {
            match closing_at(src, open, '{', '}') {
                None => Err("unbalanced function braces"@),
                Some(close) => {
                    proof {
                        lemma_find_str(src, cursor, "func @"@);
                        crate::text::lemma_find_char(src, start, src.len() as int, '{');
                        super::lex::lemma_balanced(src, open + 1, 1, '{', '}');
                    }
                    blocks_from(src, close + 1, acc.push((start, close + 1)))
                },
            }
        }
    }
}

/// The block ranges of a whole source.
pub open spec fn function_blocks(src: Seq<char>) -> Result<Seq<(int, int)>, Seq<char>> {
    blocks_from(src, 0, Seq::empty())
}

/// The texts of the blocks.
pub open spec fn block_texts(src: Seq<char>, rs: Seq<(int, int)>) -> Seq<Seq<char>> {
    rs.map_values(|r: (int, int)| src.subrange(r.0, r.1))
}

/// Every range is a block: inside the source, and shaped as `func @ ... { ... }`.
pub open spec fn blocks_ok(src: Seq<char>, rs: Seq<(int, int)>) -> bool {
    forall|k: int| 0 <= k < rs.len() ==> {
        &&& 0 <= #[trigger] rs[k].0 < rs[k].1 <= src.len()
        &&& block_shape_ok(src.subrange(rs[k].0, rs[k].1))
    }
}

pub proof fn lemma_find_char_sub(s: Seq<char>, a: int, b: int, i: int, c: char)
    requires
        0 <= a <= i <= b <= s.len(),
    ensures
        find_char(s.subrange(a, b), i - a, b - a, c) == find_char(s, i, b, c) - a,
    decreases b - i,
{
    if i < b && s[i] != c {
        lemma_find_char_sub(s, a, b, i + 1, c);
    }
}

pub proof fn lemma_find_char_stop(s: Seq<char>, a: int, b: int, c: char, e: int)
    requires
        a <= e <= b,
        find_char(s, a, b, c) <= e,
    ensures
        find_char(s, a, e, c) == find_char(s, a, b, c),
    decreases b - a,
{
    crate::text::lemma_find_char(s, a, b, c);
    if a < e && s[a] != c {
        lemma_find_char_stop(s, a + 1, b, c, e);
    }
}

pub fn block_ranges(src: &[char]) -> (r: Result<Vec<(usize, usize)>, String>)
    ensures
        match r {
            Ok(v) => function_blocks(src@) == Ok::<Seq<(int, int)>, Seq<char>>(
                v@.map_values(|p: (usize, usize)| (p.0 as int, p.1 as int)),
            ) && blocks_ok(src@, v@.map_values(|p: (usize, usize)| (p.0 as int, p.1 as int))),
            Err(e) => function_blocks(src@) == Err::<Seq<(int, int)>, Seq<char>>(e@),
        },
{
    let pat = chars_of("func @");
    let mut out: Vec<(usize, usize)> = Vec::new();
    let mut cursor: usize = 0;
    let n = src.len();
    proof { assert(out@.map_values(|p: (usize, usize)| (p.0 as int, p.1 as int)) =~= Seq::<(int, int)>::empty()); }
    loop
        invariant
            cursor <= n == src@.len(),
            pat@ == "func @"@,
            function_blocks(src@) == blocks_from(src@, cursor as int, out@.map_values(|p: (usize, usize)| (p.0 as int, p.1 as int))),
            blocks_ok(src@, out@.map_values(|p: (usize, usize)| (p.0 as int, p.1 as int))),
        decreases n - cursor,
    {
        let ghost acc = out@.map_values(|p: (usize, usize)| (p.0 as int, p.1 as int));
        let start = x_find_str(src, cursor, pat.as_slice());
        if start >= n {
            return Ok(out);
        }
        proof { lemma_find_str(src@, cursor as int, "func @"@); }
        let open = crate::text::find_char_in(src, start, n, '{');
        if open >= n {
            return Err(crate::text::owned("function is missing '{'"));
        }
        proof {
            crate::text::lemma_find_char(src@, start as int, n as int, '{');
            super::lex::lemma_balanced(src@, open + 1, 1, '{', '}');
        }
        let close = match x_closing_at(src, open, '{', '}') {
            Some(c) => c,
            None => { return Err(crate::text::owned("unbalanced function braces")); },
        };
        proof {
            let block = src@.subrange(start as int, close + 1);
            lemma_find_char_stop(src@, start as int, n as int, '{', close + 1);
            lemma_find_char_sub(src@, start as int, close + 1, start as int, '{');
            assert(first_at(block, '{') == open - start);
            assert(block_shape_ok(block));
        }
        out.push((start, close + 1));
        proof {
            assert(out@.map_values(|p: (usize, usize)| (p.0 as int, p.1 as int)) =~= acc.push((start as int, close + 1)));
        }
        cursor = close + 1;
    }
}

// ---------------------------------------------------------------------------
// Types and names of the buffers

/// `n` copies of `?x`.
pub open spec fn qx(n: nat) -> Seq<char>
    decreases n,
{
    if n == 0 { Seq::empty() } else { qx((n - 1) as nat) + "?x"@ }
}

/// `, n` for a memory space, or nothing.
pub open spec fn space_text(space: Option<int>) -> Seq<char> {
    match space {
        Some(v) => ", "@ + decimal(v as nat),
        None => Seq::empty(),
    }
}

/// The memref type of a buffer in a memory space: `memref<?x?xf16, 1>`.
pub open spec fn memref_text(b: BufferModel, space: Option<int>) -> Seq<char> {
    "memref<"@ + qx(b.shape.len()) + b.element + space_text(space) + ">"@
}

/// The memref type of a buffer in a memory space.
pub fn x_memref_text(b: &Buffer, space: Option<u64>) -> (r: String)
    ensures
        r@ == memref_text(b@, super::compact::opt_u64(space)),
{
    let mut s = String::new();
    push_str(&mut s, "memref<");
    let mut i: usize = 0;
    proof { assert(s@ =~= "memref<"@ + qx(0)); }
    while i < b.shape.len()
        invariant
            i <= b.shape@.len(),
            s@ == "memref<"@ + qx(i as nat),
        decreases b.shape.len() - i,
    {
        push_str(&mut s, "?x");
        i += 1;
    }
    push_str(&mut s, b.element.as_str());
    match space {
        Some(v) => {
            push_str(&mut s, ", ");
            crate::text::push_decimal(&mut s, v);
        },
        None => {},
    }
    push_str(&mut s, ">");
    proof {
        assert(b@.shape.len() == b.shape@.len());
        assert(s@ =~= memref_text(b@, super::compact::opt_u64(space)));
    }
    s
}

pub open spec fn buf_names(bs: Seq<BufferModel>) -> Seq<Seq<char>> {
    bs.map_values(|b: BufferModel| b.name)
}

pub open spec fn arg_types(bs: Seq<BufferModel>) -> Seq<(Seq<char>, Seq<char>)> {
    bs.map_values(|b: BufferModel| (b.name, memref_text(b, b.space)))
}

pub open spec fn shape_bindings(bs: Seq<BufferModel>) -> Seq<(Seq<char>, Seq<Seq<char>>)> {
    bs.map_values(|b: BufferModel| (b.name, b.shape))
}

/// `(name, technology)` of the buffers that require a technology, in order.
pub open spec fn requirements(bs: Seq<BufferModel>) -> Seq<(Seq<char>, Seq<char>)>
    decreases bs.len(),
{
    if bs.len() == 0 {
        Seq::empty()
    } else {
        match bs.last().technology {
            Some(t) => requirements(bs.drop_last()).push((bs.last().name, t)),
            None => requirements(bs.drop_last()),
        }
    }
}

pub proof fn lemma_requirements_concat(a: Seq<BufferModel>, b: Seq<BufferModel>)
    ensures
        requirements(a + b) == requirements(a) + requirements(b),
    decreases b.len(),
{
    if b.len() == 0 {
        assert(a + b =~= a);
        assert(requirements(a) + requirements(b) =~= requirements(a));
    } else {
        assert((a + b).drop_last() =~= a + b.drop_last());
        lemma_requirements_concat(a, b.drop_last());
        match b.last().technology {
            Some(t) => {
                assert(requirements(a) + requirements(b.drop_last()).push((b.last().name, t))
                    =~= (requirements(a) + requirements(b.drop_last())).push((b.last().name, t)));
            },
            None => {},
        }
    }
}

// ---------------------------------------------------------------------------
// Operations of the body

/// The first whitespace-separated token at or after `p` that starts with `linalg.`.
pub open spec fn linalg_token_from(l: Seq<char>, p: int) -> Option<Seq<char>>
    decreases l.len() - p,
{
    let a = skip_ws(l, p);
    if p < 0 || p > l.len() || a >= l.len() {
        None
    } else {
        let b = space_end(l, a);
        proof {
            super::ctext::lemma_skip_ws(l, p);
            super::ctext::lemma_skip_ws_stop(l, p);
            super::ctext::lemma_space_end(l, a + 1);
        }
        if starts(l.subrange(a, b), "linalg."@) { Some(l.subrange(a, b)) } else { linalg_token_from(l, b) }
    }
}

/// `t` without the trailing characters that are neither alphanumeric nor `.`.
pub open spec fn name_end_trim(t: Seq<char>) -> Seq<char>
    decreases t.len(),
{
    if t.len() > 0 && !(is_alpha(t.last()) || is_digit(t.last()) || t.last() == '.') {
        name_end_trim(t.drop_last())
    } else {
        t
    }
}

/// The `linalg.*` operation that each body operation names, in order.
pub open spec fn compact_linalg(body: Seq<Seq<char>>) -> Seq<Seq<char>>
    decreases body.len(),
{
    if body.len() == 0 {
        Seq::empty()
    } else {
        match linalg_token_from(body.last(), 0) {
            Some(t) => compact_linalg(body.drop_last()).push(name_end_trim(t)),
            None => compact_linalg(body.drop_last()),
        }
    }
}

/// An operation kind as a tag and a name.
pub open spec fn kind_model(k: MlirOperationKind) -> (int, Seq<char>) {
    match k {
        MlirOperationKind::Copy => (0, Seq::empty()),
        MlirOperationKind::Broadcast => (1, Seq::empty()),
        MlirOperationKind::Gather => (2, Seq::empty()),
        MlirOperationKind::Linalg(s) => (3, s@),
        MlirOperationKind::UnsupportedLoom(s) => (4, s@),
    }
}

/// The kind of an operation by its first token.
pub open spec fn compact_kind(tok: Seq<char>) -> (int, Seq<char>) {
    if tok == "loom.copy"@ {
        (0, Seq::empty())
    } else if tok == "loom.broadcast"@ {
        (1, Seq::empty())
    } else if tok == "loom.gather"@ {
        (2, Seq::empty())
    } else if starts(tok, "linalg."@) {
        (3, tok)
    } else {
        (4, tok)
    }
}

fn x_linalg_token(l: &[char]) -> (r: Option<Vec<char>>)
    ensures
        match r {
            Some(t) => linalg_token_from(l@, 0) == Some(t@),
            None => linalg_token_from(l@, 0) is None,
        },
{
    let mut p: usize = 0;
    let n = l.len();
    loop
        invariant
            p <= n == l@.len(),
            linalg_token_from(l@, 0) == linalg_token_from(l@, p as int),
        decreases n - p,
    {
        proof {
            super::ctext::lemma_skip_ws(l@, p as int);
            super::ctext::lemma_skip_ws_stop(l@, p as int);
        }
        let a = crate::arch::index_parser::x_skip_ws(l, p);
        if a >= n {
            return None;
        }
        let b = space_end_vec(l, a);
        proof { super::ctext::lemma_space_end(l@, a + 1); }
        let tok = copy_range(l, a, b);
        if x_starts(tok.as_slice(), "linalg.") {
            return Some(tok);
        }
        p = b;
    }
}

fn x_name_end_trim(t: &[char]) -> (r: Vec<char>)
    ensures
        r@ == name_end_trim(t@),
{
    let mut j: usize = t.len();
    proof { assert(t@.take(j as int) =~= t@); }
    while j > 0 && !(crate::text::alpha(t[j - 1]) || crate::text::digit(t[j - 1]) || t[j - 1] == '.')
        invariant
            j <= t@.len(),
            name_end_trim(t@) == name_end_trim(t@.take(j as int)),
        decreases j,
    {
        proof { assert(t@.take(j as int).drop_last() =~= t@.take(j - 1)); }
        j -= 1;
    }
    proof { assert(t@.take(j as int) =~= t@.subrange(0, j as int)); }
    copy_range(t, 0, j)
}

fn x_kind(tok: &[char]) -> (r: MlirOperationKind)
    ensures
        kind_model(r) == compact_kind(tok@),
{
    if super::compact::text_is(tok, "loom.copy") {
        MlirOperationKind::Copy
    } else if super::compact::text_is(tok, "loom.broadcast") {
        MlirOperationKind::Broadcast
    } else if super::compact::text_is(tok, "loom.gather") {
        MlirOperationKind::Gather
    } else if x_starts(tok, "linalg.") {
        MlirOperationKind::Linalg(crate::text::from_chars(tok))
    } else {
        MlirOperationKind::UnsupportedLoom(crate::text::from_chars(tok))
    }
}

// ---------------------------------------------------------------------------
// The interface of one function

/// The interface that a compact function declares.
pub open spec fn compact_details(m: CompactModel) -> DetailsModel {
    DetailsModel {
        tensor_args: Seq::empty(),
        memref_args: buf_names(m.inputs + m.outputs),
        memref_arg_types: arg_types(m.inputs + m.outputs),
        memref_memory_requirements: requirements(m.inputs + m.outputs),
        output_tensors: Seq::empty(),
        source_memrefs: buf_names(m.inputs),
        target_memrefs: buf_names(m.outputs),
        memref_symbol_bindings: shape_bindings(m.inputs + m.outputs),
        tensor_symbol_bindings: Seq::empty(),
        mem_region_bindings: Seq::empty(),
        copy_ops: Seq::empty(),
        gather_ops: Seq::empty(),
        linalg_ops: compact_linalg(m.body),
        operations_len: m.body.len(),
    }
}

/// The function model of a compact function.
pub open spec fn func_of(m: CompactModel) -> FuncModel {
    FuncModel { name: m.name, symbols: m.params, details: Some(compact_details(m)) }
}

/// The kinds of the body operations, by their first tokens.
pub open spec fn ops_of(m: CompactModel) -> Seq<(int, Seq<char>)> {
    m.body.map_values(|l: Seq<char>| compact_kind(first_token(l)))
}

/// `f` is the MLIR function of the compact function `m`.
pub open spec fn func_matches(f: MlirFunc, m: CompactModel) -> bool {
    &&& func_model(f) == func_of(m)
    &&& f.sym_map is None
    &&& f.mlir_details matches Some(d) && d.operations@.map_values(|k: MlirOperationKind| kind_model(k)) == ops_of(m)
}

pub open spec fn pairs_of(v: Seq<(String, String)>) -> Seq<(Seq<char>, Seq<char>)> {
    v.map_values(|p: (String, String)| (p.0@, p.1@))
}

pub open spec fn sbind_of(v: Seq<MlirMemrefSymbolBinding>) -> Seq<(Seq<char>, Seq<Seq<char>>)> {
    v.map_values(|b: MlirMemrefSymbolBinding| (b.memref@, syms_model(b.symbols@)))
}

fn x_syms(v: &Vec<String>) -> (r: Vec<Sym>)
    ensures
        syms_model(r@) == crate::text::texts(v@),
{
    let mut out: Vec<Sym> = Vec::new();
    let mut i: usize = 0;
    while i < v.len()
        invariant
            i <= v@.len(),
            syms_model(out@) == crate::text::texts(v@).take(i as int),
        decreases v.len() - i,
    {
        let ghost before = out@;
        let s = Sym::new(v[i].as_str());
        out.push(s);
        proof {
            assert(syms_model(out@) =~= syms_model(before).push(s@));
            assert(crate::text::texts(v@).take(i + 1) =~= crate::text::texts(v@).take(i as int).push(v@[i as int]@));
        }
        i += 1;
    }
    proof { assert(crate::text::texts(v@).take(v@.len() as int) =~= crate::text::texts(v@)); }
    out
}

/// Appends the names, types, requirements and shape bindings of `bufs`.
fn x_buffer_info(
    bufs: &Vec<Buffer>,
    args: &mut Vec<String>,
    types: &mut Vec<(String, String)>,
    reqs: &mut Vec<(String, String)>,
    binds: &mut Vec<MlirMemrefSymbolBinding>,
)
    ensures
        crate::text::texts(final(args)@) == crate::text::texts(old(args)@) + buf_names(super::compact::buffers_model(bufs@)),
        pairs_of(final(types)@) == pairs_of(old(types)@) + arg_types(super::compact::buffers_model(bufs@)),
        pairs_of(final(reqs)@) == pairs_of(old(reqs)@) + requirements(super::compact::buffers_model(bufs@)),
        sbind_of(final(binds)@) == sbind_of(old(binds)@) + shape_bindings(super::compact::buffers_model(bufs@)),
{
    let ghost bm = super::compact::buffers_model(bufs@);
    let mut i: usize = 0;
    proof {
        assert(bm.take(0) =~= Seq::<BufferModel>::empty());
        assert(crate::text::texts(args@) =~= crate::text::texts(old(args)@) + buf_names(bm.take(0)));
        assert(pairs_of(types@) =~= pairs_of(old(types)@) + arg_types(bm.take(0)));
        assert(pairs_of(reqs@) =~= pairs_of(old(reqs)@) + requirements(bm.take(0)));
        assert(sbind_of(binds@) =~= sbind_of(old(binds)@) + shape_bindings(bm.take(0)));
    }
    while i < bufs.len()
        invariant
            i <= bufs@.len(),
            bm == super::compact::buffers_model(bufs@),
            crate::text::texts(args@) == crate::text::texts(old(args)@) + buf_names(bm.take(i as int)),
            pairs_of(types@) == pairs_of(old(types)@) + arg_types(bm.take(i as int)),
            pairs_of(reqs@) == pairs_of(old(reqs)@) + requirements(bm.take(i as int)),
            sbind_of(binds@) == sbind_of(old(binds)@) + shape_bindings(bm.take(i as int)),
        decreases bufs.len() - i,
    {
        let b = &bufs[i];
        let ghost t = bm.take(i as int);
        let ghost a0 = args@;
        let ghost t0 = types@;
        let ghost r0 = reqs@;
        let ghost b0 = binds@;
        proof {
            assert(bm[i as int] == b@);
            assert(bm.take(i + 1) =~= t.push(b@));
            assert(bm.take(i + 1).drop_last() =~= t);
        }
        args.push(b.name.clone());
        let ty = x_memref_text(b, b.legacy_memory_space);
        types.push((b.name.clone(), ty));
        match &b.technology {
            Some(tech) => {
                reqs.push((b.name.clone(), tech.clone()));
                proof { assert(pairs_of(reqs@) =~= pairs_of(r0).push((b@.name, b@.technology->0))); }
            },
            None => {},
        }
        let syms = x_syms(&b.shape);
        binds.push(MlirMemrefSymbolBinding { memref: b.name.clone(), symbols: syms });
        proof {
            assert(crate::text::texts(args@) =~= crate::text::texts(a0).push(b@.name));
            assert(pairs_of(types@) =~= pairs_of(t0).push((b@.name, memref_text(b@, b@.space))));
            assert(sbind_of(binds@) =~= sbind_of(b0).push((b@.name, b@.shape)));
            assert(buf_names(bm.take(i + 1)) =~= buf_names(t).push(b@.name));
            assert(arg_types(bm.take(i + 1)) =~= arg_types(t).push((b@.name, memref_text(b@, b@.space))));
            assert(shape_bindings(bm.take(i + 1)) =~= shape_bindings(t).push((b@.name, b@.shape)));
        }
        i += 1;
    }
    proof { assert(bm.take(bufs@.len() as int) =~= bm); }
}

fn names_of(bufs: &Vec<Buffer>) -> (r: Vec<String>)
    ensures
        crate::text::texts(r@) == buf_names(super::compact::buffers_model(bufs@)),
{
    let mut out: Vec<String> = Vec::new();
    let mut i: usize = 0;
    while i < bufs.len()
        invariant
            i <= bufs@.len(),
            crate::text::texts(out@) == buf_names(super::compact::buffers_model(bufs@)).take(i as int),
        decreases bufs.len() - i,
    {
        let ghost before = out@;
        let n = bufs[i].name.clone();
        out.push(n);
        proof {
            assert(crate::text::texts(out@) =~= crate::text::texts(before).push(n@));
            assert(buf_names(super::compact::buffers_model(bufs@)).take(i + 1)
                =~= buf_names(super::compact::buffers_model(bufs@)).take(i as int).push(bufs@[i as int].name@));
        }
        i += 1;
    }
    proof {
        assert(buf_names(super::compact::buffers_model(bufs@)).take(bufs@.len() as int)
            =~= buf_names(super::compact::buffers_model(bufs@)));
    }
    out
}

/// The MLIR function that a function block declares.
pub fn parse_function(block: &[char]) -> (r: Result<MlirFunc, String>)
    requires
        block_shape_ok(block@),
    ensures
        match r {
            Ok(f) => compact_model(block@) matches Ok(m) && func_matches(f, m),
            Err(e) => compact_model(block@) == Err::<CompactModel, Seq<char>>(e@),
        },
{
    let parsed = match parse_compact_function(block) {
        Ok(p) => p,
        Err(e) => { return Err(e); },
    };
    let ghost m = parsed@;
    let mut memref_args: Vec<String> = Vec::new();
    let mut memref_arg_types: Vec<(String, String)> = Vec::new();
    let mut memref_memory_requirements: Vec<(String, String)> = Vec::new();
    let mut memref_symbol_bindings: Vec<MlirMemrefSymbolBinding> = Vec::new();
    proof {
        assert(crate::text::texts(memref_args@) =~= Seq::<Seq<char>>::empty());
        assert(pairs_of(memref_arg_types@) =~= Seq::<(Seq<char>, Seq<char>)>::empty());
        assert(pairs_of(memref_memory_requirements@) =~= Seq::<(Seq<char>, Seq<char>)>::empty());
        assert(sbind_of(memref_symbol_bindings@) =~= Seq::<(Seq<char>, Seq<Seq<char>>)>::empty());
    }
    x_buffer_info(&parsed.inputs, &mut memref_args, &mut memref_arg_types, &mut memref_memory_requirements, &mut memref_symbol_bindings);
    x_buffer_info(&parsed.outputs, &mut memref_args, &mut memref_arg_types, &mut memref_memory_requirements, &mut memref_symbol_bindings);
    proof {
        lemma_requirements_concat(m.inputs, m.outputs);
        assert(buf_names(m.inputs + m.outputs) =~= buf_names(m.inputs) + buf_names(m.outputs));
        assert(arg_types(m.inputs + m.outputs) =~= arg_types(m.inputs) + arg_types(m.outputs));
        assert(shape_bindings(m.inputs + m.outputs) =~= shape_bindings(m.inputs) + shape_bindings(m.outputs));
        assert(Seq::<Seq<char>>::empty() + buf_names(m.inputs) =~= buf_names(m.inputs));
        assert(Seq::<(Seq<char>, Seq<char>)>::empty() + arg_types(m.inputs) =~= arg_types(m.inputs));
        assert(Seq::<(Seq<char>, Seq<char>)>::empty() + requirements(m.inputs) =~= requirements(m.inputs));
        assert(Seq::<(Seq<char>, Seq<Seq<char>>)>::empty() + shape_bindings(m.inputs) =~= shape_bindings(m.inputs));
    }
    let mut linalg_ops: Vec<String> = Vec::new();
    let mut operations: Vec<MlirOperationKind> = Vec::new();
    let mut i: usize = 0;
    proof { assert(m.body.take(0) =~= Seq::<Seq<char>>::empty()); }
    while i < parsed.body.len()
        invariant
            i <= parsed.body@.len(),
            m == parsed@,
            crate::text::texts(linalg_ops@) == compact_linalg(m.body.take(i as int)),
            operations@.map_values(|k: MlirOperationKind| kind_model(k)) == m.body.take(i as int).map_values(|l: Seq<char>| compact_kind(first_token(l))),
        decreases parsed.body.len() - i,
    {
        let line = chars_of(parsed.body[i].as_str());
        proof {
            assert(m.body[i as int] == line@);
            assert(m.body.take(i + 1).drop_last() =~= m.body.take(i as int));
            assert(m.body.take(i + 1).last() == line@);
        }
        let ghost l0 = linalg_ops@;
        match x_linalg_token(line.as_slice()) {
            Some(t) => {
                let name = x_name_end_trim(t.as_slice());
                linalg_ops.push(crate::text::from_chars(name.as_slice()));
                proof { assert(crate::text::texts(linalg_ops@) =~= crate::text::texts(l0).push(name@)); }
            },
            None => {},
        }
        let ghost o0 = operations@;
        let tok = first_token_vec(line.as_slice());
        let k = x_kind(tok.as_slice());
        operations.push(k);
        proof {
            assert(operations@.map_values(|k: MlirOperationKind| kind_model(k))
                =~= o0.map_values(|k: MlirOperationKind| kind_model(k)).push(kind_model(k)));
            assert(m.body.take(i + 1).map_values(|l: Seq<char>| compact_kind(first_token(l)))
                =~= m.body.take(i as int).map_values(|l: Seq<char>| compact_kind(first_token(l))).push(compact_kind(first_token(line@))));
        }
        i += 1;
    }
    proof { assert(m.body.take(parsed.body@.len() as int) =~= m.body); }
    let details = MlirFuncDetails {
        tensor_args: Vec::new(),
        memref_args,
        memref_arg_types,
        memref_memory_requirements,
        output_tensors: Vec::new(),
        source_memrefs: names_of(&parsed.inputs),
        target_memrefs: names_of(&parsed.outputs),
        memref_symbol_bindings,
        tensor_symbol_bindings: Vec::new(),
        mem_region_bindings: Vec::new(),
        copy_ops: Vec::new(),
        gather_ops: Vec::new(),
        linalg_ops,
        operations,
    };
    let symbols = x_syms(&parsed.params);
    let f = MlirFunc { name: parsed.name.clone(), symbols, mlir_details: Some(details), sym_map: None };
    proof {
        let d = super::func::details_model(details);
        assert(d.tensor_args =~= Seq::<Seq<char>>::empty());
        assert(d.output_tensors =~= Seq::<Seq<char>>::empty());
        assert(d.tensor_symbol_bindings =~= Seq::<(Seq<char>, Seq<Seq<char>>)>::empty());
        assert(d.mem_region_bindings =~= Seq::<(Seq<char>, Seq<char>)>::empty());
        assert(d.copy_ops =~= Seq::<super::ops::CopyModel>::empty());
        assert(d.gather_ops =~= Seq::<super::ops::GatherModel>::empty());
        assert(d.memref_args == buf_names(m.inputs + m.outputs));
        assert(d.memref_arg_types == arg_types(m.inputs + m.outputs));
        assert(d.memref_memory_requirements == requirements(m.inputs + m.outputs));
        assert(d.memref_symbol_bindings == shape_bindings(m.inputs + m.outputs));
        assert(d == compact_details(m));
    }
    Ok(f)
}

// ---------------------------------------------------------------------------
// A whole source

/// The functions of the blocks `rs`, read in order; the first error wins.
pub open spec fn funcs_of(src: Seq<char>, rs: Seq<(int, int)>) -> Result<Seq<CompactModel>, Seq<char>>
    decreases rs.len(),
{
    if rs.len() == 0 {
        Ok(Seq::empty())
    } else {
        match funcs_of(src, rs.drop_last()) {
            Err(e) => Err(e),
            Ok(ms) => match compact_model(src.subrange(rs.last().0, rs.last().1)) {
                Err(e) => Err(e),
                Ok(m) => Ok(ms.push(m)),
            },
        }
    }
}

pub proof fn lemma_funcs_err(src: Seq<char>, rs: Seq<(int, int)>, j: int)
    requires
        0 <= j <= rs.len(),
        funcs_of(src, rs.take(j)) is Err,
    ensures
        funcs_of(src, rs) == funcs_of(src, rs.take(j)),
    decreases rs.len(),
{
    if rs.len() == j {
        assert(rs.take(j) =~= rs);
    } else {
        assert(rs.drop_last().take(j) =~= rs.take(j));
        lemma_funcs_err(src, rs.drop_last(), j);
    }
}

/// The functions of a compact source: at least one block, each of which reads.
pub open spec fn loom_source_model(src: Seq<char>) -> Result<Seq<CompactModel>, Seq<char>> {
    match function_blocks(src) {
        Err(e) => Err(e),
        Ok(rs) => if rs.len() == 0 {
            Err("source contains no `func @name` blocks"@)
        } else {
            funcs_of(src, rs)
        },
    }
}

/// Reads a compact source into the module `compact` of its functions' interfaces.
pub fn parse_loom_source(source: &str) -> (r: Result<MlirModule, LoomParseError>)
    ensures
        match r {
            Ok(module) => loom_source_model(source@) matches Ok(ms) && {
                &&& module.path is None
                &&& module.module_name matches Some(n) && n@ == "compact"@
                &&& module.functions@.len() == ms.len()
                &&& forall|k: int| 0 <= k < ms.len() ==> func_matches(#[trigger] module.functions@[k], ms[k])
            },
            Err(e) => loom_source_model(source@) == Err::<Seq<CompactModel>, Seq<char>>(e.0@),
        },
{
    let src = chars_of(source);
    let blocks = match block_ranges(src.as_slice()) {
        Ok(b) => b,
        Err(e) => { return Err(LoomParseError(e)); },
    };
    let ghost rs = blocks@.map_values(|p: (usize, usize)| (p.0 as int, p.1 as int));
    if blocks.len() == 0 {
        let e = crate::text::owned("source contains no `func @name` blocks");
        proof {
            assert(rs.len() == 0);
            assert(loom_source_model(source@) == Err::<Seq<CompactModel>, Seq<char>>(e@));
        }
        return Err(LoomParseError(e));
    }
    let mut functions: Vec<MlirFunc> = Vec::new();
    let mut i: usize = 0;
    proof { assert(rs.take(0) =~= Seq::<(int, int)>::empty()); }
    while i < blocks.len()
        invariant
            i <= blocks@.len(),
            src@ == source@,
            rs == blocks@.map_values(|p: (usize, usize)| (p.0 as int, p.1 as int)),
            blocks_ok(src@, rs),
            function_blocks(src@) == Ok::<Seq<(int, int)>, Seq<char>>(rs),
            rs.len() > 0,
            funcs_of(src@, rs.take(i as int)) matches Ok(ms) && ms.len() == functions@.len()
                && forall|k: int| 0 <= k < ms.len() ==> func_matches(#[trigger] functions@[k], ms[k]),
        decreases blocks.len() - i,
    {
        let (a, b) = blocks[i];
        proof {
            assert(rs[i as int] == (a as int, b as int));
            assert(rs.take(i + 1).drop_last() =~= rs.take(i as int));
            assert(rs.take(i + 1).last() == (a as int, b as int));
        }
        let block = copy_range(src.as_slice(), a, b);
        let f = match parse_function(block.as_slice()) {
            Ok(f) => f,
            Err(e) => {
                proof {
                    assert(funcs_of(src@, rs.take(i + 1)) == Err::<Seq<CompactModel>, Seq<char>>(e@));
                    lemma_funcs_err(src@, rs, i + 1);
                    assert(loom_source_model(source@) == Err::<Seq<CompactModel>, Seq<char>>(e@));
                }
                return Err(LoomParseError(e));
            },
        };
        let ghost ms0 = funcs_of(src@, rs.take(i as int))->Ok_0;
        let ghost f0 = functions@;
        functions.push(f);
        proof {
            let m = compact_model(block@)->Ok_0;
            assert(funcs_of(src@, rs.take(i + 1)) == Ok::<Seq<CompactModel>, Seq<char>>(ms0.push(m)));
            assert forall|k: int| 0 <= k < ms0.push(m).len() implies func_matches(#[trigger] functions@[k], ms0.push(m)[k]) by {
                if k < ms0.len() {
                    assert(functions@[k] == f0[k]);
                }
            }
        }
        i += 1;
    }
    proof { assert(rs.take(blocks@.len() as int) =~= rs); }
    let ghost fs = functions@;
    let module = MlirModule::from_functions("compact", functions);
    proof {
        assert(loom_source_model(source@) == funcs_of(src@, rs));
        assert(module.functions@ == fs);
    }
    Ok(module)
}

} // verus!
