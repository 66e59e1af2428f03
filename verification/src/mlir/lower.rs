//! Lowering a compact Loom source to the dataflow MLIR dialect: operands bound to the
//! memories connected on each side, typed `linalg` operands, and data movements written
//! out with their memory spaces and areas.
use vstd::prelude::*;

use crate::arch::memory::MemoryTechnology;
use crate::text::{chars_of, decimal, push_chars, push_str};
use super::compact::{text2, Buffer, BufferModel, CompactFunction, CompactModel};
use super::ctext::{
    copy_range, first_at, first_at_vec, first_token, first_token_vec, pieces, pieces_vec, rtrim,
    rtrim_vec, strip_lead, strip_lead_vec, trim_vec, tseq, u64_value, u64_value_vec,
};
use super::compact::{extent_items, x_extent_items, vecs_model};
use super::loom::{memref_text, x_memref_text};
use super::lex::starts;
use super::scan::{find_str, lemma_find_str, x_find_str};

verus! {

/// A memory connected to one side of a function: the symbol it is bound by, its
/// technology if known, and the extent of the scope that holds it.
pub struct LoomMemoryBinding {
    pub symbol: String,
    pub technology: Option<MemoryTechnology>,
    pub scope_extent: Vec<u64>,
}

/// Model of a [`LoomMemoryBinding`].
pub ghost struct MemModel {
    pub symbol: Seq<char>,
    pub technology: Option<Seq<char>>,
    pub kind: Option<int>,
    pub extent: Seq<u64>,
}

impl View for LoomMemoryBinding {
    type V = MemModel;

    open spec fn view(&self) -> MemModel {
        MemModel {
            symbol: self.symbol@,
            technology: match self.technology { Some(t) => Some(t.name@), None => None },
            kind: match self.technology { Some(t) => Some(t.kind as int), None => None },
            extent: self.scope_extent@,
        }
    }
}

/// The memory space of a buffer bound to a memory: the one it names, else the kind of
/// the memory's technology.
pub open spec fn lowered_space(b: BufferModel, m: MemModel) -> Option<int> {
    if b.space is Some { b.space } else { m.kind }
}

/// The memref type of a buffer bound to a memory.
pub open spec fn lowered_type(b: BufferModel, m: MemModel) -> Seq<char> {
    memref_text(b, lowered_space(b, m))
}

pub fn x_lowered_type(b: &Buffer, m: &LoomMemoryBinding) -> (r: String)
    ensures
        r@ == lowered_type(b@, m@),
{
    let space: Option<u64> = match b.legacy_memory_space {
        Some(s) => Some(s),
        None => match &m.technology {
            Some(t) => Some(t.kind),
            None => None,
        },
    };
    x_memref_text(b, space)
}

/// The items joined by `sep`.
pub open spec fn join(v: Seq<Seq<char>>, sep: Seq<char>) -> Seq<char>
    decreases v.len(),
{
    if v.len() == 0 {
        Seq::empty()
    } else if v.len() == 1 {
        v[0]
    } else {
        join(v.drop_last(), sep) + sep + v.last()
    }
}

/// Appends item `i` of a join: the separator first unless it is the first item.
pub(crate) fn push_joined(s: &mut String, i: usize, sep: &str, item: &[char], Ghost(v): Ghost<Seq<Seq<char>>>, Ghost(base): Ghost<Seq<char>>)
    requires
        i < v.len(),
        v[i as int] == item@,
        old(s)@ == base + join(v.take(i as int), sep@),
    ensures
        final(s)@ == base + join(v.take(i + 1), sep@),
{
    push_joined_at(s, Ghost(i as int), i == 0, sep, item, Ghost(v), Ghost(base));
}

/// Appends item `i` of a join, `first` telling whether it is the first.
pub(crate) fn push_joined_at(s: &mut String, Ghost(i): Ghost<int>, first: bool, sep: &str, item: &[char], Ghost(v): Ghost<Seq<Seq<char>>>, Ghost(base): Ghost<Seq<char>>)
    requires
        0 <= i < v.len(),
        first == (i == 0),
        v[i] == item@,
        old(s)@ == base + join(v.take(i), sep@),
    ensures
        final(s)@ == base + join(v.take(i + 1), sep@),
{
    if !first {
        push_str(s, sep);
    }
    push_chars(s, item);
    proof {
        assert(v.take(i + 1).drop_last() =~= v.take(i));
        if i == 0 {
            assert(v.take(0) =~= Seq::<Seq<char>>::empty());
            assert(s@ =~= base + join(v.take(i + 1), sep@));
        } else {
            assert(s@ =~= base + join(v.take(i + 1), sep@));
        }
    }
}

// ---------------------------------------------------------------------------
// Data movements

/// ` : n` for a memory space, or nothing.
pub open spec fn space_suffix(space: Option<int>) -> Seq<char> {
    match space {
        Some(v) => " : "@ + decimal(v as nat),
        None => Seq::empty(),
    }
}

fn push_space_suffix(s: &mut String, space: Option<u64>)
    ensures
        final(s)@ == old(s)@ + space_suffix(super::compact::opt_u64(space)),
{
    match space {
        Some(v) => {
            push_str(s, " : ");
            crate::text::push_decimal(s, v);
        },
        None => {},
    }
}

/// The memory space written after a memory symbol: the number after `label` in the line,
/// else the buffer's lowered space.
pub open spec fn op_space(line: Seq<char>, label: Seq<char>, b: BufferModel, m: MemModel) -> Seq<char> {
    let k = find_str(line, 0, label);
    let v = u64_value(first_token(line.skip(k + label.len())));
    if k < line.len() && v is Some { space_suffix(v) } else { space_suffix(lowered_space(b, m)) }
}

fn push_op_space(s: &mut String, line: &[char], label: &str, b: &Buffer, m: &LoomMemoryBinding)
    ensures
        final(s)@ == old(s)@ + op_space(line@, label@, b@, m@),
{
    let lc = chars_of(label);
    let k = x_find_str(line, 0, lc.as_slice());
    if k < line.len() {
        proof { lemma_find_str(line@, 0, label@); }
        let n = line.len();
        let rest = copy_range(line, k + lc.len(), n);
        proof { assert(rest@ =~= line@.skip(k + label@.len())); }
        let tok = first_token_vec(rest.as_slice());
        match u64_value_vec(tok.as_slice()) {
            Some(v) => {
                push_space_suffix(s, Some(v));
                return;
            },
            None => {},
        }
    }
    let space: Option<u64> = match b.legacy_memory_space {
        Some(v) => Some(v),
        None => match &m.technology {
            Some(t) => Some(t.kind),
            None => None,
        },
    };
    push_space_suffix(s, space);
}

/// An extent item: a number as it is, a symbol as `%name`.
pub open spec fn item_text(it: Seq<char>) -> Seq<char> {
    if u64_value(it) is Some { it } else { "%"@ + strip_lead(it, '%') }
}

/// The extent a movement line gives, written out.
pub open spec fn lower_extent(line: Seq<char>) -> Result<Option<Seq<char>>, Seq<char>> {
    match extent_items(line) {
        Err(e) => Err(e),
        Ok(None) => Ok(None),
        Ok(Some(its)) => Ok(Some(join(its.map_values(|it: Seq<char>| item_text(it)), ", "@))),
    }
}

/// A concrete extent written out; an empty one is `1`.
pub open spec fn concrete_extent(e: Seq<u64>) -> Seq<char> {
    if e.len() == 0 { "1"@ } else { join(e.map_values(|x: u64| decimal(x as nat)), ", "@) }
}

/// `1, 1, ...` with `n` ones, at least one.
pub open spec fn ones(n: nat) -> Seq<char>
    decreases n,
{
    if n <= 1 { "1"@ } else { ones((n - 1) as nat) + ", 1"@ }
}

fn x_lower_extent(line: &[char]) -> (r: Result<Option<String>, String>)
    ensures
        match r {
            Ok(Some(t)) => lower_extent(line@) == Ok::<Option<Seq<char>>, Seq<char>>(Some(t@)),
            Ok(None) => lower_extent(line@) == Ok::<Option<Seq<char>>, Seq<char>>(None),
            Err(e) => lower_extent(line@) == Err::<Option<Seq<char>>, Seq<char>>(e@),
        },
{
    let its = match x_extent_items(line) {
        Err(e) => { return Err(e); },
        Ok(None) => { return Ok(None); },
        Ok(Some(its)) => its,
    };
    let ghost v = vecs_model(its@).map_values(|it: Seq<char>| item_text(it));
    let mut s = String::new();
    let mut i: usize = 0;
    proof { assert(s@ =~= Seq::<char>::empty() + join(v.take(0), ", "@)); }
    while i < its.len()
        invariant
            i <= its@.len(),
            v == vecs_model(its@).map_values(|it: Seq<char>| item_text(it)),
            s@ == Seq::<char>::empty() + join(v.take(i as int), ", "@),
        decreases its.len() - i,
    {
        let it = &its[i];
        let mut t: Vec<char> = Vec::new();
        if u64_value_vec(it.as_slice()).is_some() {
            t = copy_range(it.as_slice(), 0, it.len());
            proof { assert(t@ =~= it@); }
        } else {
            t.push('%');
            let bare = strip_lead_vec(it.as_slice(), '%');
            super::compact::push_all(&mut t, bare.as_slice());
            proof { assert(t@ =~= "%"@ + strip_lead(it@, '%')) by { reveal_strlit("%"); } }
        }
        proof { assert(v[i as int] == item_text(it@)); }
        push_joined(&mut s, i, ", ", t.as_slice(), Ghost(v), Ghost(Seq::empty()));
        i += 1;
    }
    proof {
        assert(v.take(its@.len() as int) =~= v);
        assert(s@ =~= join(v, ", "@));
    }
    Ok(Some(s))
}

fn x_concrete_extent(e: &Vec<u64>) -> (r: String)
    ensures
        r@ == concrete_extent(e@),
{
    if e.len() == 0 {
        return crate::text::owned("1");
    }
    let ghost v = e@.map_values(|x: u64| decimal(x as nat));
    let mut s = String::new();
    let mut i: usize = 0;
    proof { assert(s@ =~= Seq::<char>::empty() + join(v.take(0), ", "@)); }
    while i < e.len()
        invariant
            i <= e@.len(),
            v == e@.map_values(|x: u64| decimal(x as nat)),
            s@ == Seq::<char>::empty() + join(v.take(i as int), ", "@),
        decreases e.len() - i,
    {
        let t = chars_of(crate::text::u64_text(e[i]).as_str());
        push_joined(&mut s, i, ", ", t.as_slice(), Ghost(v), Ghost(Seq::empty()));
        i += 1;
    }
    proof {
        assert(v.take(e@.len() as int) =~= v);
        assert(s@ =~= join(v, ", "@));
    }
    s
}

fn x_ones(n: usize) -> (r: String)
    ensures
        r@ == ones(n as nat),
{
    let mut s = crate::text::owned("1");
    if n <= 1 {
        return s;
    }
    let mut i: usize = 1;
    while i < n
        invariant
            1 <= i <= n,
            s@ == ones(i as nat),
        decreases n - i,
    {
        push_str(&mut s, ", 1");
        i += 1;
    }
    s
}

/// A data movement written out: `op %src, %dst src_mem_space @m : s dst_mem_space @m : s,
/// area: [..] : type to type` (the gather has no comma before `area`).
pub open spec fn movement_text(
    op: Seq<char>,
    area_sep: Seq<char>,
    line: Seq<char>,
    bi: BufferModel,
    mi: MemModel,
    bo: BufferModel,
    mo: MemModel,
    area: Seq<char>,
) -> Seq<char> {
    op + " %"@ + bi.name + ", %"@ + bo.name + " src_mem_space @"@ + mi.symbol
        + op_space(line, "src_space:"@, bi, mi) + " dst_mem_space @"@ + mo.symbol
        + op_space(line, "dst_space:"@, bo, mo) + area_sep + "area: ["@ + area + "] : "@
        + lowered_type(bi, mi) + " to "@ + lowered_type(bo, mo)
}

fn x_movement_text(
    op: &str,
    area_sep: &str,
    line: &[char],
    bi: &Buffer,
    mi: &LoomMemoryBinding,
    bo: &Buffer,
    mo: &LoomMemoryBinding,
    area: &str,
) -> (r: String)
    ensures
        r@ == movement_text(op@, area_sep@, line@, bi@, mi@, bo@, mo@, area@),
{
    let mut s = String::new();
    push_str(&mut s, op);
    push_str(&mut s, " %");
    push_str(&mut s, bi.name.as_str());
    push_str(&mut s, ", %");
    push_str(&mut s, bo.name.as_str());
    push_str(&mut s, " src_mem_space @");
    push_str(&mut s, mi.symbol.as_str());
    push_op_space(&mut s, line, "src_space:", bi, mi);
    push_str(&mut s, " dst_mem_space @");
    push_str(&mut s, mo.symbol.as_str());
    push_op_space(&mut s, line, "dst_space:", bo, mo);
    push_str(&mut s, area_sep);
    push_str(&mut s, "area: [");
    push_str(&mut s, area);
    push_str(&mut s, "] : ");
    let ti = x_lowered_type(bi, mi);
    push_str(&mut s, ti.as_str());
    push_str(&mut s, " to ");
    let to = x_lowered_type(bo, mo);
    push_str(&mut s, to.as_str());
    proof { assert(s@ =~= movement_text(op@, area_sep@, line@, bi@, mi@, bo@, mo@, area@)); }
    s
}

// ---------------------------------------------------------------------------
// Typed `linalg` operands

/// The memories chosen by `idx` among `mems`.
pub open spec fn chosen(mems: Seq<LoomMemoryBinding>, idx: Seq<usize>) -> Seq<MemModel> {
    idx.map_values(|j: usize| mems[j as int]@)
}

/// The first index at or after `k` of a buffer named `name`, or the length.
pub open spec fn buf_index(bs: Seq<BufferModel>, name: Seq<char>, k: int) -> int
    decreases bs.len() - k,
{
    if k < 0 || k >= bs.len() {
        bs.len() as int
    } else if bs[k].name == name {
        k
    } else {
        buf_index(bs, name, k + 1)
    }
}

pub proof fn lemma_buf_index(bs: Seq<BufferModel>, name: Seq<char>, k: int)
    requires
        0 <= k <= bs.len(),
    ensures
        k <= buf_index(bs, name, k) <= bs.len(),
    decreases bs.len() - k,
{
    if k < bs.len() && bs[k].name != name {
        lemma_buf_index(bs, name, k + 1);
    }
}

/// The type of one `%name` of a short operand list: that of the input, else of the
/// output, of that name.
pub open spec fn operand_type(f: CompactModel, ims: Seq<MemModel>, oms: Seq<MemModel>, line: Seq<char>, piece: Seq<char>) -> Result<Seq<char>, Seq<char>> {
    let name = strip_lead(tseq(piece), '%');
    let i = buf_index(f.inputs, name, 0);
    let o = buf_index(f.outputs, name, 0);
    if i < f.inputs.len() {
        Ok(lowered_type(f.inputs[i], ims[i]))
    } else if o < f.outputs.len() {
        Ok(lowered_type(f.outputs[o], oms[o]))
    } else {
        Err("function '"@ + f.name + "' references undeclared operand '%"@ + name + "' in '"@ + line + "'"@)
    }
}

/// The types of the operands `ps`; the first undeclared one decides the error.
pub open spec fn operand_types(f: CompactModel, ims: Seq<MemModel>, oms: Seq<MemModel>, line: Seq<char>, ps: Seq<Seq<char>>) -> Result<Seq<Seq<char>>, Seq<char>>
    decreases ps.len(),
{
    if ps.len() == 0 {
        Ok(Seq::empty())
    } else {
        match operand_types(f, ims, oms, line, ps.drop_last()) {
            Err(e) => Err(e),
            Ok(ts) => match operand_type(f, ims, oms, line, ps.last()) {
                Err(e) => Err(e),
                Ok(t) => Ok(ts.push(t)),
            },
        }
    }
}

/// The line from `p` on with each short `ins(...)`/`outs(...)` clause given the types of
/// its operands; a clause with a `:` or with no operand is kept as it is.
pub open spec fn annotate_from(f: CompactModel, ims: Seq<MemModel>, oms: Seq<MemModel>, line: Seq<char>, p: int, acc: Seq<char>) -> Result<Seq<char>, Seq<char>>
    decreases line.len() - p,
{
    let s1 = find_str(line, p, "ins("@);
    let start = if s1 < line.len() { s1 } else { find_str(line, p, "outs("@) };
    if p < 0 || p > line.len() {
        Ok(acc)
    } else if start >= line.len() {
        Ok(acc + line.subrange(p, line.len() as int))
    } else {
        let open = crate::text::find_char(line, start, line.len() as int, '(');
        let close = crate::text::find_char(line, open, line.len() as int, ')');
        let operands = line.subrange(open + 1, close);
        let head = acc + line.subrange(p, open + 1);
        proof {
            lemma_find_str(line, p, "ins("@);
            lemma_find_str(line, p, "outs("@);
            crate::text::lemma_find_char(line, start, line.len() as int, '(');
            crate::text::lemma_find_char(line, open, line.len() as int, ')');
        }
        if close >= line.len() {
            Err("function '"@ + f.name + "': unterminated operand list in '"@ + line + "'"@)
        } else if first_at(operands, ':') < operands.len() || tseq(operands).len() == 0 {
            annotate_from(f, ims, oms, line, close + 1, head + operands + ")"@)
        } else {
            match operand_types(f, ims, oms, line, pieces(operands, ',')) {
                Err(e) => Err(e),
                Ok(ts) => annotate_from(f, ims, oms, line, close + 1, head + rtrim(operands) + " : "@ + join(ts, ", "@) + ")"@),
            }
        }
    }
}

/// The well-formed choice of memories for the buffers of `f`.
pub open spec fn choice_ok(f: CompactFunction, in_mems: Seq<LoomMemoryBinding>, ib: Seq<usize>, out_mems: Seq<LoomMemoryBinding>, ob: Seq<usize>) -> bool {
    &&& ib.len() == f.inputs@.len()
    &&& ob.len() == f.outputs@.len()
    &&& forall|k: int| 0 <= k < ib.len() ==> #[trigger] ib[k] < in_mems.len()
    &&& forall|k: int| 0 <= k < ob.len() ==> #[trigger] ob[k] < out_mems.len()
}

fn find_buffer(bs: &Vec<Buffer>, name: &[char]) -> (r: usize)
    ensures
        r as int == buf_index(super::compact::buffers_model(bs@), name@, 0),
        r <= bs@.len(),
{
    let ghost m = super::compact::buffers_model(bs@);
    let mut k: usize = 0;
    while k < bs.len()
        invariant
            k <= bs@.len(),
            m == super::compact::buffers_model(bs@),
            buf_index(m, name@, 0) == buf_index(m, name@, k as int),
        decreases bs.len() - k,
    {
        let n = chars_of(bs[k].name.as_str());
        proof { assert(m[k as int].name == n@); }
        if crate::text::chars_eq(n.as_slice(), name) {
            return k;
        }
        k += 1;
    }
    k
}

fn x_operand_type(
    f: &CompactFunction,
    in_mems: &[LoomMemoryBinding],
    ib: &Vec<usize>,
    out_mems: &[LoomMemoryBinding],
    ob: &Vec<usize>,
    line: &[char],
    piece: &[char],
) -> (r: Result<String, String>)
    requires
        choice_ok(*f, in_mems@, ib@, out_mems@, ob@),
    ensures
        match r {
            Ok(t) => operand_type(f@, chosen(in_mems@, ib@), chosen(out_mems@, ob@), line@, piece@) == Ok::<Seq<char>, Seq<char>>(t@),
            Err(e) => operand_type(f@, chosen(in_mems@, ib@), chosen(out_mems@, ob@), line@, piece@) == Err::<Seq<char>, Seq<char>>(e@),
        },
{
    let t = trim_vec(piece);
    let name = strip_lead_vec(t.as_slice(), '%');
    let i = find_buffer(&f.inputs, name.as_slice());
    if i < f.inputs.len() {
        let j = ib[i];
        proof { assert(chosen(in_mems@, ib@)[i as int] == in_mems@[j as int]@); }
        return Ok(x_lowered_type(&f.inputs[i], &in_mems[j]));
    }
    let o = find_buffer(&f.outputs, name.as_slice());
    if o < f.outputs.len() {
        let j = ob[o];
        proof { assert(chosen(out_mems@, ob@)[o as int] == out_mems@[j as int]@); }
        return Ok(x_lowered_type(&f.outputs[o], &out_mems[j]));
    }
    let mut m = String::new();
    push_str(&mut m, "function '");
    push_str(&mut m, f.name.as_str());
    push_str(&mut m, "' references undeclared operand '%");
    push_chars(&mut m, name.as_slice());
    push_str(&mut m, "' in '");
    push_chars(&mut m, line);
    push_str(&mut m, "'");
    proof {
        assert(m@ =~= "function '"@ + f@.name + "' references undeclared operand '%"@ + name@ + "' in '"@ + line@ + "'"@);
    }
    Err(m)
}

fn x_operand_types(
    f: &CompactFunction,
    in_mems: &[LoomMemoryBinding],
    ib: &Vec<usize>,
    out_mems: &[LoomMemoryBinding],
    ob: &Vec<usize>,
    line: &[char],
    ps: &Vec<Vec<char>>,
) -> (r: Result<String, String>)
    requires
        choice_ok(*f, in_mems@, ib@, out_mems@, ob@),
    ensures
        match r {
            Ok(t) => operand_types(f@, chosen(in_mems@, ib@), chosen(out_mems@, ob@), line@, vecs_model(ps@)) matches Ok(ts)
                && t@ == join(ts, ", "@),
            Err(e) => operand_types(f@, chosen(in_mems@, ib@), chosen(out_mems@, ob@), line@, vecs_model(ps@)) == Err::<Seq<Seq<char>>, Seq<char>>(e@),
        },
{
    let ghost ims = chosen(in_mems@, ib@);
    let ghost oms = chosen(out_mems@, ob@);
    let ghost pm = vecs_model(ps@);
    let mut s = String::new();
    let ghost mut ts: Seq<Seq<char>> = Seq::empty();
    let mut i: usize = 0;
    proof {
        assert(pm.take(0) =~= Seq::<Seq<char>>::empty());
        assert(s@ =~= Seq::<char>::empty() + join(ts.take(0), ", "@));
    }
    while i < ps.len()
        invariant
            i <= ps@.len(),
            pm == vecs_model(ps@),
            ims == chosen(in_mems@, ib@),
            oms == chosen(out_mems@, ob@),
            choice_ok(*f, in_mems@, ib@, out_mems@, ob@),
            operand_types(f@, ims, oms, line@, pm.take(i as int)) == Ok::<Seq<Seq<char>>, Seq<char>>(ts),
            ts.len() == i,
            s@ == Seq::<char>::empty() + join(ts, ", "@),
        decreases ps.len() - i,
    {
        proof {
            assert(pm.take(i + 1).drop_last() =~= pm.take(i as int));
            assert(pm.take(i + 1).last() == ps@[i as int]@);
        }
        let t = match x_operand_type(f, in_mems, ib, out_mems, ob, line, ps[i].as_slice()) {
            Ok(t) => t,
            Err(e) => {
                proof { lemma_types_err(f@, ims, oms, line@, pm, i + 1); }
                return Err(e);
            },
        };
        let tc = chars_of(t.as_str());
        let ghost nts = ts.push(t@);
        proof {
            assert(nts.take(i as int) =~= ts);
            assert(s@ == Seq::<char>::empty() + join(nts.take(i as int), ", "@));
        }
        push_joined(&mut s, i, ", ", tc.as_slice(), Ghost(nts), Ghost(Seq::empty()));
        proof {
            assert(nts.take(i + 1) =~= nts);
            ts = nts;
        }
        i += 1;
    }
    proof {
        assert(pm.take(ps@.len() as int) =~= pm);
        assert(s@ =~= join(ts, ", "@));
    }
    Ok(s)
}

pub proof fn lemma_types_err(f: CompactModel, ims: Seq<MemModel>, oms: Seq<MemModel>, line: Seq<char>, ps: Seq<Seq<char>>, j: int)
    requires
        0 <= j <= ps.len(),
        operand_types(f, ims, oms, line, ps.take(j)) is Err,
    ensures
        operand_types(f, ims, oms, line, ps) == operand_types(f, ims, oms, line, ps.take(j)),
    decreases ps.len(),
{
    if ps.len() == j {
        assert(ps.take(j) =~= ps);
    } else {
        assert(ps.drop_last().take(j) =~= ps.take(j));
        lemma_types_err(f, ims, oms, line, ps.drop_last(), j);
    }
}

fn x_annotate(
    f: &CompactFunction,
    in_mems: &[LoomMemoryBinding],
    ib: &Vec<usize>,
    out_mems: &[LoomMemoryBinding],
    ob: &Vec<usize>,
    line: &[char],
) -> (r: Result<String, String>)
    requires
        choice_ok(*f, in_mems@, ib@, out_mems@, ob@),
    ensures
        match r {
            Ok(t) => annotate_from(f@, chosen(in_mems@, ib@), chosen(out_mems@, ob@), line@, 0, Seq::empty()) == Ok::<Seq<char>, Seq<char>>(t@),
            Err(e) => annotate_from(f@, chosen(in_mems@, ib@), chosen(out_mems@, ob@), line@, 0, Seq::empty()) == Err::<Seq<char>, Seq<char>>(e@),
        },
{
    let ghost ims = chosen(in_mems@, ib@);
    let ghost oms = chosen(out_mems@, ob@);
    let ins_pat = chars_of("ins(");
    let outs_pat = chars_of("outs(");
    let n = line.len();
    let mut out = String::new();
    let mut p: usize = 0;
    loop
        invariant
            p <= n == line@.len(),
            ins_pat@ == "ins("@,
            outs_pat@ == "outs("@,
            ims == chosen(in_mems@, ib@),
            oms == chosen(out_mems@, ob@),
            choice_ok(*f, in_mems@, ib@, out_mems@, ob@),
            annotate_from(f@, ims, oms, line@, 0, Seq::empty()) == annotate_from(f@, ims, oms, line@, p as int, out@),
        decreases n - p,
    {
        proof {
            lemma_find_str(line@, p as int, "ins("@);
            lemma_find_str(line@, p as int, "outs("@);
        }
        let s1 = x_find_str(line, p, ins_pat.as_slice());
        let start = if s1 < n { s1 } else { x_find_str(line, p, outs_pat.as_slice()) };
        if start >= n {
            let rest = copy_range(line, p, n);
            push_chars(&mut out, rest.as_slice());
            return Ok(out);
        }
        let open = crate::text::find_char_in(line, start, n, '(');
        let close = crate::text::find_char_in(line, open, n, ')');
        if close >= n {
            let mut m = String::new();
            push_str(&mut m, "function '");
            push_str(&mut m, f.name.as_str());
            push_str(&mut m, "': unterminated operand list in '");
            push_chars(&mut m, line);
            push_str(&mut m, "'");
            proof { assert(m@ =~= "function '"@ + f@.name + "': unterminated operand list in '"@ + line@ + "'"@); }
            return Err(m);
        }
        proof {
            crate::text::lemma_find_char(line@, start as int, n as int, '(');
            crate::text::lemma_find_char(line@, open as int, n as int, ')');
        }
        let head = copy_range(line, p, open + 1);
        push_chars(&mut out, head.as_slice());
        let operands = copy_range(line, open + 1, close);
        let colon = first_at_vec(operands.as_slice(), ':');
        let trimmed = trim_vec(operands.as_slice());
        if colon < operands.len() || trimmed.len() == 0 {
            push_chars(&mut out, operands.as_slice());
            push_str(&mut out, ")");
        } else {
            let ps = pieces_vec(operands.as_slice(), ',');
            let types = match x_operand_types(f, in_mems, ib, out_mems, ob, line, &ps) {
                Ok(t) => t,
                Err(e) => { return Err(e); },
            };
            let rt = rtrim_vec(operands.as_slice());
            push_chars(&mut out, rt.as_slice());
            push_str(&mut out, " : ");
            push_str(&mut out, types.as_str());
            push_str(&mut out, ")");
        }
        p = close + 1;
    }
}

// ---------------------------------------------------------------------------
// One body operation

/// What one body operation lowers to.
pub open spec fn lower_line(f: CompactModel, ims: Seq<MemModel>, oms: Seq<MemModel>, line: Seq<char>) -> Result<Seq<char>, Seq<char>> {
    let op = first_token(line);
    if starts(line, "linalg."@) {
        annotate_from(f, ims, oms, line, 0, Seq::empty())
    } else if f.inputs.len() == 0 {
        Err("movement operation needs an input"@)
    } else if f.outputs.len() == 0 {
        Err("movement operation needs an output"@)
    } else if ims.len() == 0 {
        Err("movement operation needs an input memory"@)
    } else if oms.len() == 0 {
        Err("movement operation needs an output memory"@)
    } else if op == "loom.copy"@ {
        let rank = if ims[0].extent.len() >= oms[0].extent.len() { ims[0].extent.len() } else { oms[0].extent.len() };
        Ok(movement_text("loom.copy"@, ", "@, line, f.inputs[0], ims[0], f.outputs[0], oms[0], ones(rank)))
    } else if op == "loom.broadcast"@ {
        match lower_extent(line) {
            Err(e) => Err(e),
            Ok(x) => Ok(movement_text("loom.copy"@, ", "@, line, f.inputs[0], ims[0], f.outputs[0], oms[0],
                match x { Some(t) => t, None => concrete_extent(oms[0].extent) })),
        }
    } else if op == "loom.gather"@ {
        match lower_extent(line) {
            Err(e) => Err(e),
            Ok(x) => Ok(movement_text("loom.gather"@, " "@, line, f.inputs[0], ims[0], f.outputs[0], oms[0],
                match x { Some(t) => t, None => concrete_extent(ims[0].extent) })),
        }
    } else {
        Err("operation cannot be lowered to current dataflow MLIR: "@ + line)
    }
}

fn x_lower_line(
    f: &CompactFunction,
    in_mems: &[LoomMemoryBinding],
    ib: &Vec<usize>,
    out_mems: &[LoomMemoryBinding],
    ob: &Vec<usize>,
    line: &[char],
) -> (r: Result<String, String>)
    requires
        choice_ok(*f, in_mems@, ib@, out_mems@, ob@),
    ensures
        match r {
            Ok(t) => lower_line(f@, chosen(in_mems@, ib@), chosen(out_mems@, ob@), line@) == Ok::<Seq<char>, Seq<char>>(t@),
            Err(e) => lower_line(f@, chosen(in_mems@, ib@), chosen(out_mems@, ob@), line@) == Err::<Seq<char>, Seq<char>>(e@),
        },
{
    if super::lex::x_starts(line, "linalg.") {
        return x_annotate(f, in_mems, ib, out_mems, ob, line);
    }
    if f.inputs.len() == 0 {
        return Err(crate::text::owned("movement operation needs an input"));
    }
    if f.outputs.len() == 0 {
        return Err(crate::text::owned("movement operation needs an output"));
    }
    let bi = &f.inputs[0];
    let bo = &f.outputs[0];
    let mi = &in_mems[ib[0]];
    let mo = &out_mems[ob[0]];
    proof {
        assert(f@.inputs[0] == bi@);
        assert(f@.outputs[0] == bo@);
        assert(chosen(in_mems@, ib@)[0] == mi@);
        assert(chosen(out_mems@, ob@)[0] == mo@);
    }
    let op = first_token_vec(line);
    if super::compact::text_is(op.as_slice(), "loom.copy") {
        let rank = if mi.scope_extent.len() >= mo.scope_extent.len() { mi.scope_extent.len() } else { mo.scope_extent.len() };
        let area = x_ones(rank);
        return Ok(x_movement_text("loom.copy", ", ", line, bi, mi, bo, mo, area.as_str()));
    }
    let broadcast = super::compact::text_is(op.as_slice(), "loom.broadcast");
    let gather = super::compact::text_is(op.as_slice(), "loom.gather");
    if broadcast || gather {
        let area = match x_lower_extent(line) {
            Err(e) => { return Err(e); },
            Ok(Some(t)) => t,
            Ok(None) => if broadcast { x_concrete_extent(&mo.scope_extent) } else { x_concrete_extent(&mi.scope_extent) },
        };
        if broadcast {
            return Ok(x_movement_text("loom.copy", ", ", line, bi, mi, bo, mo, area.as_str()));
        } else {
            return Ok(x_movement_text("loom.gather", " ", line, bi, mi, bo, mo, area.as_str()));
        }
    }
    Err(text2("operation cannot be lowered to current dataflow MLIR: ", line))
}

// ---------------------------------------------------------------------------
// Lines of a lowered operation

/// `l` without one trailing carriage return.
pub open spec fn strip_cr(l: Seq<char>) -> Seq<char> {
    if l.len() > 0 && l.last() == '\r' { l.drop_last() } else { l }
}

/// The lines of `t` as `str::lines` gives them: split at `\n`, a `\r` before it dropped,
/// and no empty line after a final `\n`.
pub open spec fn rust_lines(t: Seq<char>) -> Seq<Seq<char>> {
    let ps = pieces(t, '\n');
    let body = ps.drop_last().map_values(|l: Seq<char>| strip_cr(l));
    if ps.last().len() == 0 { body } else { body.push(ps.last()) }
}

/// The lines of `t` as `str::lines` gives them.
pub fn lines_vec(t: &[char]) -> (r: Vec<Vec<char>>)
    ensures
        vecs_model(r@) == rust_lines(t@),
{
    let ps = pieces_vec(t, '\n');
    let ghost pm = vecs_model(ps@);
    proof { super::ctext::lemma_pieces_nonempty(t@, '\n'); }
    let last = ps.len() - 1;
    let mut out: Vec<Vec<char>> = Vec::new();
    let mut i: usize = 0;
    proof { assert(vecs_model(out@) =~= pm.take(0).map_values(|l: Seq<char>| strip_cr(l))); }
    while i < last
        invariant
            i <= last,
            last + 1 == ps@.len(),
            pm == vecs_model(ps@),
            vecs_model(out@) == pm.take(i as int).map_values(|l: Seq<char>| strip_cr(l)),
        decreases last - i,
    {
        let l = &ps[i];
        let k = if l.len() > 0 && l[l.len() - 1] == '\r' { l.len() - 1 } else { l.len() };
        let line = copy_range(l.as_slice(), 0, k);
        let ghost before = out@;
        out.push(line);
        proof {
            assert(pm[i as int] == l@);
            assert(line@ =~= strip_cr(l@));
            assert(vecs_model(out@) =~= vecs_model(before).push(line@));
            assert(pm.take(i + 1).map_values(|l: Seq<char>| strip_cr(l))
                =~= pm.take(i as int).map_values(|l: Seq<char>| strip_cr(l)).push(strip_cr(l@)));
        }
        i += 1;
    }
    proof {
        assert(pm.take(last as int) =~= pm.drop_last());
        assert(pieces(t@, '\n') == pm);
    }
    let l = &ps[last];
    proof { assert(pm.last() == l@); }
    if l.len() > 0 {
        let ghost before = out@;
        let c = copy_range(l.as_slice(), 0, l.len());
        out.push(c);
        proof {
            assert(c@ =~= l@);
            assert(vecs_model(out@) =~= vecs_model(before).push(l@));
        }
    }
    out
}

/// Each line indented by four spaces and ended by `\n`.
pub open spec fn indented(ls: Seq<Seq<char>>) -> Seq<char>
    decreases ls.len(),
{
    if ls.len() == 0 { Seq::empty() } else { indented(ls.drop_last()) + "    "@ + ls.last() + "\n"@ }
}

pub proof fn lemma_indented_push(ls: Seq<Seq<char>>, l: Seq<char>)
    ensures
        indented(ls.push(l)) == indented(ls) + "    "@ + l + "\n"@,
{
    assert(ls.push(l).drop_last() =~= ls);
}

/// Appends the lines of `t`, each indented and ended by a newline.
fn push_indented(s: &mut String, t: &[char])
    ensures
        final(s)@ == old(s)@ + indented(rust_lines(t@)),
{
    let ps = pieces_vec(t, '\n');
    let ghost pm = vecs_model(ps@);
    proof { super::ctext::lemma_pieces_nonempty(t@, '\n'); }
    let last = ps.len() - 1;
    let mut i: usize = 0;
    proof {
        assert(pm.take(0).map_values(|l: Seq<char>| strip_cr(l)) =~= Seq::<Seq<char>>::empty());
        assert(s@ =~= old(s)@ + indented(Seq::empty()));
    }
    while i < last
        invariant
            i <= last,
            last + 1 == ps@.len(),
            pm == vecs_model(ps@),
            s@ == old(s)@ + indented(pm.take(i as int).map_values(|l: Seq<char>| strip_cr(l))),
        decreases last - i,
    {
        let l = &ps[i];
        let k = if l.len() > 0 && l[l.len() - 1] == '\r' { l.len() - 1 } else { l.len() };
        let line = copy_range(l.as_slice(), 0, k);
        proof {
            assert(pm[i as int] == l@);
            assert(line@ =~= strip_cr(l@));
            assert(pm.take(i + 1).map_values(|l: Seq<char>| strip_cr(l))
                =~= pm.take(i as int).map_values(|l: Seq<char>| strip_cr(l)).push(strip_cr(l@)));
            lemma_indented_push(pm.take(i as int).map_values(|l: Seq<char>| strip_cr(l)), strip_cr(l@));
        }
        push_str(s, "    ");
        push_chars(s, line.as_slice());
        push_str(s, "\n");
        i += 1;
    }
    let ghost body = pm.drop_last().map_values(|l: Seq<char>| strip_cr(l));
    proof {
        assert(pm.take(last as int) =~= pm.drop_last());
        assert(pieces(t@, '\n') == pm);
    }
    let l = &ps[last];
    proof { assert(pm.last() == l@); }
    if l.len() > 0 {
        push_str(s, "    ");
        push_chars(s, l.as_slice());
        push_str(s, "\n");
        proof { lemma_indented_push(body, l@); }
    }
}

// ---------------------------------------------------------------------------
// One function

/// Each buffer with the memory chosen for it.
pub open spec fn zip_mems(bs: Seq<BufferModel>, ms: Seq<MemModel>) -> Seq<(BufferModel, MemModel)> {
    Seq::new(bs.len(), |k: int| (bs[k], ms[k]))
}

/// `%name: type` of a bound buffer.
pub open spec fn arg_text(p: (BufferModel, MemModel)) -> Seq<char> {
    "%"@ + p.0.name + ": "@ + lowered_type(p.0, p.1)
}

/// `  func.func @name(%a: type, ...) {` and a newline.
pub open spec fn header_text(name: Seq<char>, ps: Seq<(BufferModel, MemModel)>) -> Seq<char> {
    "  func.func @"@ + name + "("@ + join(ps.map_values(|p: (BufferModel, MemModel)| arg_text(p)), ", "@) + ") {\n"@
}

/// One `%p = loom.sym @p : index` line per parameter.
pub open spec fn sym_lines(params: Seq<Seq<char>>) -> Seq<char>
    decreases params.len(),
{
    if params.len() == 0 {
        Seq::empty()
    } else {
        sym_lines(params.drop_last()) + "    %"@ + params.last() + " = loom.sym @"@ + params.last() + " : index\n"@
    }
}

/// `%d` for each dimension symbol.
pub open spec fn dim_refs(shape: Seq<Seq<char>>) -> Seq<Seq<char>> {
    shape.map_values(|d: Seq<char>| "%"@ + d)
}

/// One `loom.bind_shape` line per bound buffer that has a shape.
pub open spec fn shape_lines(ps: Seq<(BufferModel, MemModel)>) -> Seq<char>
    decreases ps.len(),
{
    if ps.len() == 0 {
        Seq::empty()
    } else if ps.last().0.shape.len() == 0 {
        shape_lines(ps.drop_last())
    } else {
        shape_lines(ps.drop_last()) + "    loom.bind_shape %"@ + ps.last().0.name + ", ["@
            + join(dim_refs(ps.last().0.shape), ", "@) + "] : "@ + lowered_type(ps.last().0, ps.last().1) + "\n"@
    }
}

/// One `loom.bind_mem` line per bound buffer.
pub open spec fn mem_lines(ps: Seq<(BufferModel, MemModel)>) -> Seq<char>
    decreases ps.len(),
{
    if ps.len() == 0 {
        Seq::empty()
    } else {
        mem_lines(ps.drop_last()) + "    loom.bind_mem %"@ + ps.last().0.name + ", @"@ + ps.last().1.symbol
            + " : "@ + lowered_type(ps.last().0, ps.last().1) + "\n"@
    }
}

/// The lowered body operations, each line indented; the first that cannot be lowered
/// decides the error.
pub open spec fn body_lines(f: CompactModel, ims: Seq<MemModel>, oms: Seq<MemModel>, body: Seq<Seq<char>>) -> Result<Seq<char>, Seq<char>>
    decreases body.len(),
{
    if body.len() == 0 {
        Ok(Seq::empty())
    } else {
        match body_lines(f, ims, oms, body.drop_last()) {
            Err(e) => Err(e),
            Ok(t) => match lower_line(f, ims, oms, body.last()) {
                Err(e) => Err(e),
                Ok(l) => Ok(t + indented(rust_lines(l))),
            },
        }
    }
}

/// A function lowered with the memories chosen for its inputs and outputs.
pub open spec fn lower_function(m: CompactModel, ims: Seq<MemModel>, oms: Seq<MemModel>) -> Result<Seq<char>, Seq<char>> {
    let ps = zip_mems(m.inputs, ims) + zip_mems(m.outputs, oms);
    match body_lines(m, ims, oms, m.body) {
        Err(e) => Err(e),
        Ok(b) => Ok(header_text(m.name, ps) + sym_lines(m.params) + shape_lines(ps) + mem_lines(ps) + b + "    return\n  }\n"@),
    }
}

pub proof fn lemma_body_err(f: CompactModel, ims: Seq<MemModel>, oms: Seq<MemModel>, body: Seq<Seq<char>>, j: int)
    requires
        0 <= j <= body.len(),
        body_lines(f, ims, oms, body.take(j)) is Err,
    ensures
        body_lines(f, ims, oms, body) == body_lines(f, ims, oms, body.take(j)),
    decreases body.len(),
{
    if body.len() == j {
        assert(body.take(j) =~= body);
    } else {
        assert(body.drop_last().take(j) =~= body.take(j));
        lemma_body_err(f, ims, oms, body.drop_last(), j);
    }
}

/// The bound buffers of `f` in order: inputs, then outputs.
pub open spec fn bound(f: CompactFunction, in_mems: Seq<LoomMemoryBinding>, ib: Seq<usize>, out_mems: Seq<LoomMemoryBinding>, ob: Seq<usize>) -> Seq<(BufferModel, MemModel)> {
    zip_mems(f@.inputs, chosen(in_mems, ib)) + zip_mems(f@.outputs, chosen(out_mems, ob))
}

/// The side `bufs`, bound by `idx` among `mems`, sits at `off` in `ps`.
pub open spec fn side_at(ps: Seq<(BufferModel, MemModel)>, off: int, bufs: Seq<Buffer>, mems: Seq<LoomMemoryBinding>, idx: Seq<usize>) -> bool {
    &&& 0 <= off
    &&& off + bufs.len() <= ps.len()
    &&& idx.len() == bufs.len()
    &&& forall|k: int| 0 <= k < idx.len() ==> #[trigger] idx[k] < mems.len()
    &&& forall|k: int| 0 <= k < bufs.len() ==> ps[off + k] == (#[trigger] bufs[k]@, mems[idx[k] as int]@)
}

pub proof fn lemma_sides(f: CompactFunction, in_mems: Seq<LoomMemoryBinding>, ib: Seq<usize>, out_mems: Seq<LoomMemoryBinding>, ob: Seq<usize>)
    requires
        choice_ok(f, in_mems, ib, out_mems, ob),
    ensures
        side_at(bound(f, in_mems, ib, out_mems, ob), 0, f.inputs@, in_mems, ib),
        side_at(bound(f, in_mems, ib, out_mems, ob), f.inputs@.len() as int, f.outputs@, out_mems, ob),
        bound(f, in_mems, ib, out_mems, ob).len() == f.inputs@.len() + f.outputs@.len(),
{
    let ps = bound(f, in_mems, ib, out_mems, ob);
    assert forall|k: int| 0 <= k < f.inputs@.len() implies ps[0 + k] == (#[trigger] f.inputs@[k]@, in_mems[ib[k] as int]@) by {
        assert(super::compact::buffers_model(f.inputs@)[k] == f.inputs@[k]@);
    }
    assert forall|k: int| 0 <= k < f.outputs@.len() implies ps[f.inputs@.len() + k] == (#[trigger] f.outputs@[k]@, out_mems[ob[k] as int]@) by {
        assert(super::compact::buffers_model(f.outputs@)[k] == f.outputs@[k]@);
    }
}

fn push_args_side(
    s: &mut String,
    bufs: &Vec<Buffer>,
    mems: &[LoomMemoryBinding],
    idx: &Vec<usize>,
    Ghost(ps): Ghost<Seq<(BufferModel, MemModel)>>,
    Ghost(off): Ghost<int>,
    Ghost(base): Ghost<Seq<char>>,
    at_start: bool,
)
    requires
        side_at(ps, off, bufs@, mems@, idx@),
        at_start == (off == 0),
        old(s)@ == base + join(ps.map_values(|p: (BufferModel, MemModel)| arg_text(p)).take(off), ", "@),
    ensures
        final(s)@ == base + join(ps.map_values(|p: (BufferModel, MemModel)| arg_text(p)).take(off + bufs@.len()), ", "@),
{
    let ghost args = ps.map_values(|p: (BufferModel, MemModel)| arg_text(p));
    let mut k: usize = 0;
    while k < bufs.len()
        invariant
            k <= bufs@.len(),
            side_at(ps, off, bufs@, mems@, idx@),
            args == ps.map_values(|p: (BufferModel, MemModel)| arg_text(p)),
            at_start == (off == 0),
            s@ == base + join(args.take(off + k), ", "@),
        decreases bufs.len() - k,
    {
        let b = &bufs[k];
        let m = &mems[idx[k]];
        proof { assert(ps[off + k] == (b@, m@)); }
        let mut a = String::new();
        push_str(&mut a, "%");
        push_str(&mut a, b.name.as_str());
        push_str(&mut a, ": ");
        let t = x_lowered_type(b, m);
        push_str(&mut a, t.as_str());
        let ac = chars_of(a.as_str());
        proof { assert(ac@ =~= arg_text(ps[off + k])); }
        push_joined_at(s, Ghost(off + k), at_start && k == 0, ", ", ac.as_slice(), Ghost(args), Ghost(base));
        k += 1;
    }
}

fn push_syms(s: &mut String, params: &Vec<String>)
    ensures
        final(s)@ == old(s)@ + sym_lines(crate::text::texts(params@)),
{
    let mut i: usize = 0;
    proof { assert(crate::text::texts(params@).take(0) =~= Seq::<Seq<char>>::empty()); assert(s@ =~= old(s)@ + Seq::<char>::empty()); }
    while i < params.len()
        invariant
            i <= params@.len(),
            s@ == old(s)@ + sym_lines(crate::text::texts(params@).take(i as int)),
        decreases params.len() - i,
    {
        let p = params[i].as_str();
        push_str(s, "    %");
        push_str(s, p);
        push_str(s, " = loom.sym @");
        push_str(s, p);
        push_str(s, " : index\n");
        proof {
            let t = crate::text::texts(params@).take(i + 1);
            assert(t.drop_last() =~= crate::text::texts(params@).take(i as int));
            assert(t.last() == p@);
            assert(s@ =~= old(s)@ + sym_lines(t));
        }
        i += 1;
    }
    proof { assert(crate::text::texts(params@).take(params@.len() as int) =~= crate::text::texts(params@)); }
}

fn push_shape(s: &mut String, b: &Buffer, m: &LoomMemoryBinding)
    requires
        b@.shape.len() > 0,
    ensures
        final(s)@ == old(s)@ + "    loom.bind_shape %"@ + b@.name + ", ["@ + join(dim_refs(b@.shape), ", "@) + "] : "@
            + lowered_type(b@, m@) + "\n"@,
{
    push_str(s, "    loom.bind_shape %");
    push_str(s, b.name.as_str());
    push_str(s, ", [");
    let ghost base2 = s@;
    let ghost refs = dim_refs(b@.shape);
    let mut d: usize = 0;
    proof { assert(s@ =~= base2 + join(refs.take(0), ", "@)); }
    while d < b.shape.len()
        invariant
            d <= b.shape@.len(),
            refs == dim_refs(b@.shape),
            s@ == base2 + join(refs.take(d as int), ", "@),
        decreases b.shape.len() - d,
    {
        let mut r: Vec<char> = Vec::new();
        r.push('%');
        let dc = chars_of(b.shape[d].as_str());
        super::compact::push_all(&mut r, dc.as_slice());
        proof {
            assert(r@ =~= "%"@ + b@.shape[d as int]) by { reveal_strlit("%"); }
        }
        push_joined(s, d, ", ", r.as_slice(), Ghost(refs), Ghost(base2));
        d += 1;
    }
    proof { assert(refs.take(b.shape@.len() as int) =~= refs); }
    push_str(s, "] : ");
    let t = x_lowered_type(b, m);
    push_str(s, t.as_str());
    push_str(s, "\n");
    proof {
        assert(s@ =~= old(s)@ + "    loom.bind_shape %"@ + b@.name + ", ["@ + join(dim_refs(b@.shape), ", "@) + "] : "@
            + lowered_type(b@, m@) + "\n"@);
    }
}

fn push_header(
    s: &mut String,
    f: &CompactFunction,
    in_mems: &[LoomMemoryBinding],
    ib: &Vec<usize>,
    out_mems: &[LoomMemoryBinding],
    ob: &Vec<usize>,
)
    requires
        choice_ok(*f, in_mems@, ib@, out_mems@, ob@),
    ensures
        final(s)@ == old(s)@ + header_text(f@.name, bound(*f, in_mems@, ib@, out_mems@, ob@)),
{
    let ghost ps = bound(*f, in_mems@, ib@, out_mems@, ob@);
    proof { lemma_sides(*f, in_mems@, ib@, out_mems@, ob@); }
    push_str(s, "  func.func @");
    push_str(s, f.name.as_str());
    push_str(s, "(");
    let ghost base = s@;
    let ghost args = ps.map_values(|p: (BufferModel, MemModel)| arg_text(p));
    proof { assert(args.take(0) =~= Seq::<Seq<char>>::empty()); assert(s@ =~= base + join(args.take(0), ", "@)); }
    push_args_side(s, &f.inputs, in_mems, ib, Ghost(ps), Ghost(0), Ghost(base), true);
    let no_inputs = f.inputs.len() == 0;
    push_args_side(s, &f.outputs, out_mems, ob, Ghost(ps), Ghost(f.inputs@.len() as int), Ghost(base), no_inputs);
    push_str(s, ") {\n");
    proof {
        assert(args.take(ps.len() as int) =~= args);
        assert(s@ =~= old(s)@ + header_text(f@.name, ps));
    }
}

fn push_shapes_side(
    s: &mut String,
    bufs: &Vec<Buffer>,
    mems: &[LoomMemoryBinding],
    idx: &Vec<usize>,
    Ghost(ps): Ghost<Seq<(BufferModel, MemModel)>>,
    Ghost(off): Ghost<int>,
    Ghost(base): Ghost<Seq<char>>,
)
    requires
        side_at(ps, off, bufs@, mems@, idx@),
        old(s)@ == base + shape_lines(ps.take(off)),
    ensures
        final(s)@ == base + shape_lines(ps.take(off + bufs@.len())),
{
    let mut k: usize = 0;
    while k < bufs.len()
        invariant
            k <= bufs@.len(),
            side_at(ps, off, bufs@, mems@, idx@),
            s@ == base + shape_lines(ps.take(off + k)),
        decreases bufs.len() - k,
    {
        let b = &bufs[k];
        let m = &mems[idx[k]];
        proof {
            assert(ps[off + k] == (b@, m@));
            assert(ps.take(off + k + 1).drop_last() =~= ps.take(off + k));
            assert(ps.take(off + k + 1).last() == ps[off + k]);
        }
        if b.shape.len() > 0 {
            push_shape(s, b, m);
            proof { assert(s@ =~= base + shape_lines(ps.take(off + k + 1))); }
        }
        k += 1;
    }
}

fn push_mems_side(
    s: &mut String,
    bufs: &Vec<Buffer>,
    mems: &[LoomMemoryBinding],
    idx: &Vec<usize>,
    Ghost(ps): Ghost<Seq<(BufferModel, MemModel)>>,
    Ghost(off): Ghost<int>,
    Ghost(base): Ghost<Seq<char>>,
)
    requires
        side_at(ps, off, bufs@, mems@, idx@),
        old(s)@ == base + mem_lines(ps.take(off)),
    ensures
        final(s)@ == base + mem_lines(ps.take(off + bufs@.len())),
{
    let mut k: usize = 0;
    while k < bufs.len()
        invariant
            k <= bufs@.len(),
            side_at(ps, off, bufs@, mems@, idx@),
            s@ == base + mem_lines(ps.take(off + k)),
        decreases bufs.len() - k,
    {
        let b = &bufs[k];
        let m = &mems[idx[k]];
        proof {
            assert(ps[off + k] == (b@, m@));
            assert(ps.take(off + k + 1).drop_last() =~= ps.take(off + k));
            assert(ps.take(off + k + 1).last() == ps[off + k]);
        }
        push_str(s, "    loom.bind_mem %");
        push_str(s, b.name.as_str());
        push_str(s, ", @");
        push_str(s, m.symbol.as_str());
        push_str(s, " : ");
        let t = x_lowered_type(b, m);
        push_str(s, t.as_str());
        push_str(s, "\n");
        proof { assert(s@ =~= base + mem_lines(ps.take(off + k + 1))); }
        k += 1;
    }
}

fn push_shapes_and_mems(
    s: &mut String,
    f: &CompactFunction,
    in_mems: &[LoomMemoryBinding],
    ib: &Vec<usize>,
    out_mems: &[LoomMemoryBinding],
    ob: &Vec<usize>,
)
    requires
        choice_ok(*f, in_mems@, ib@, out_mems@, ob@),
    ensures
        final(s)@ == old(s)@ + shape_lines(bound(*f, in_mems@, ib@, out_mems@, ob@)) + mem_lines(bound(*f, in_mems@, ib@, out_mems@, ob@)),
{
    let ghost ps = bound(*f, in_mems@, ib@, out_mems@, ob@);
    let ghost n = f.inputs@.len() as int;
    proof {
        lemma_sides(*f, in_mems@, ib@, out_mems@, ob@);
        assert(ps.take(0) =~= Seq::<(BufferModel, MemModel)>::empty());
        assert(s@ =~= old(s)@ + shape_lines(ps.take(0)));
    }
    let ghost s0 = old(s)@;
    push_shapes_side(s, &f.inputs, in_mems, ib, Ghost(ps), Ghost(0), Ghost(s0));
    push_shapes_side(s, &f.outputs, out_mems, ob, Ghost(ps), Ghost(n), Ghost(s0));
    proof { assert(ps.take(ps.len() as int) =~= ps); }
    let ghost h = s@;
    proof { assert(s@ =~= h + mem_lines(ps.take(0))); }
    push_mems_side(s, &f.inputs, in_mems, ib, Ghost(ps), Ghost(0), Ghost(h));
    push_mems_side(s, &f.outputs, out_mems, ob, Ghost(ps), Ghost(n), Ghost(h));
    proof { assert(s@ =~= old(s)@ + shape_lines(ps) + mem_lines(ps)); }
}

fn push_body(
    s: &mut String,
    f: &CompactFunction,
    in_mems: &[LoomMemoryBinding],
    ib: &Vec<usize>,
    out_mems: &[LoomMemoryBinding],
    ob: &Vec<usize>,
) -> (r: Result<(), String>)
    requires
        choice_ok(*f, in_mems@, ib@, out_mems@, ob@),
    ensures
        match r {
            Ok(_) => body_lines(f@, chosen(in_mems@, ib@), chosen(out_mems@, ob@), f@.body) matches Ok(t) && final(s)@ == old(s)@ + t,
            Err(e) => body_lines(f@, chosen(in_mems@, ib@), chosen(out_mems@, ob@), f@.body) == Err::<Seq<char>, Seq<char>>(e@),
        },
{
    let ghost ims = chosen(in_mems@, ib@);
    let ghost oms = chosen(out_mems@, ob@);
    let ghost body = crate::text::texts(f.body@);
    let mut i: usize = 0;
    proof { assert(body.take(0) =~= Seq::<Seq<char>>::empty()); assert(s@ =~= old(s)@ + Seq::<char>::empty()); }
    while i < f.body.len()
        invariant
            i <= f.body@.len(),
            body == crate::text::texts(f.body@),
            ims == chosen(in_mems@, ib@),
            oms == chosen(out_mems@, ob@),
            choice_ok(*f, in_mems@, ib@, out_mems@, ob@),
            body_lines(f@, ims, oms, body.take(i as int)) matches Ok(t) && s@ == old(s)@ + t,
        decreases f.body.len() - i,
    {
        let line = chars_of(f.body[i].as_str());
        proof {
            assert(body.take(i + 1).drop_last() =~= body.take(i as int));
            assert(body.take(i + 1).last() == line@);
        }
        let l = match x_lower_line(f, in_mems, ib, out_mems, ob, line.as_slice()) {
            Ok(l) => l,
            Err(e) => {
                proof { lemma_body_err(f@, ims, oms, body, i + 1); }
                return Err(e);
            },
        };
        let lc = chars_of(l.as_str());
        push_indented(s, lc.as_slice());
        i += 1;
    }
    proof { assert(body.take(f.body@.len() as int) =~= body); }
    Ok(())
}

fn x_lower_function(
    f: &CompactFunction,
    in_mems: &[LoomMemoryBinding],
    ib: &Vec<usize>,
    out_mems: &[LoomMemoryBinding],
    ob: &Vec<usize>,
) -> (r: Result<String, String>)
    requires
        choice_ok(*f, in_mems@, ib@, out_mems@, ob@),
    ensures
        match r {
            Ok(t) => lower_function(f@, chosen(in_mems@, ib@), chosen(out_mems@, ob@)) == Ok::<Seq<char>, Seq<char>>(t@),
            Err(e) => lower_function(f@, chosen(in_mems@, ib@), chosen(out_mems@, ob@)) == Err::<Seq<char>, Seq<char>>(e@),
        },
{
    let ghost ps = bound(*f, in_mems@, ib@, out_mems@, ob@);
    let mut s = String::new();
    push_header(&mut s, f, in_mems, ib, out_mems, ob);
    push_syms(&mut s, &f.params);
    push_shapes_and_mems(&mut s, f, in_mems, ib, out_mems, ob);
    let ghost before = s@;
    match push_body(&mut s, f, in_mems, ib, out_mems, ob) {
        Ok(_) => {},
        Err(e) => { return Err(e); },
    }
    push_str(&mut s, "    return\n  }\n");
    proof {
        let ims = chosen(in_mems@, ib@);
        let oms = chosen(out_mems@, ob@);
        assert(ps == zip_mems(f@.inputs, ims) + zip_mems(f@.outputs, oms));
        let b = body_lines(f@, ims, oms, f@.body)->Ok_0;
        assert(s@ =~= header_text(f@.name, ps) + sym_lines(f@.params) + shape_lines(ps) + mem_lines(ps) + b + "    return\n  }\n"@);
    }
    Ok(s)
}

// ---------------------------------------------------------------------------
// A whole source

/// The symbols given for the function `name`: the first entry with that name.
pub open spec fn lookup_syms(fs: Seq<(Seq<char>, Seq<Seq<char>>)>, name: Seq<char>) -> Option<Seq<Seq<char>>>
    decreases fs.len(),
{
    if fs.len() == 0 {
        None
    } else if fs[0].0 == name {
        Some(fs[0].1)
    } else {
        lookup_syms(fs.drop_first(), name)
    }
}

/// The function with the given symbols added to its parameters, each once.
pub open spec fn with_params(m: CompactModel, fs: Seq<(Seq<char>, Seq<Seq<char>>)>) -> CompactModel {
    CompactModel {
        name: m.name,
        params: match lookup_syms(fs, m.name) {
            Some(ss) => super::compact::add_all_new(m.params, ss),
            None => m.params,
        },
        inputs: m.inputs,
        outputs: m.outputs,
        body: m.body,
    }
}

/// The buffers as operands of the binding: name and required technology.
pub open spec fn binding_operands(bs: Seq<BufferModel>) -> Seq<(Seq<char>, Option<Seq<char>>)> {
    bs.map_values(|b: BufferModel| (b.name, b.technology))
}

/// The memories as candidates of the binding: symbol and technology.
pub open spec fn binding_candidates(ms: Seq<LoomMemoryBinding>) -> Seq<(Seq<char>, Option<Seq<char>>)> {
    ms.map_values(|m: LoomMemoryBinding| (m@.symbol, m@.technology))
}

/// One function block lowered: read, given the extra symbols, its operands bound on each
/// side, and written out.
pub open spec fn lower_block(
    block: Seq<char>,
    fs: Seq<(Seq<char>, Seq<Seq<char>>)>,
    inm: Seq<LoomMemoryBinding>,
    outm: Seq<LoomMemoryBinding>,
) -> Result<Seq<char>, Seq<char>> {
    match super::compact::compact_model(block) {
        Err(e) => Err(e),
        Ok(m0) => {
            let m = with_params(m0, fs);
            match crate::arch::processor::memory_bindings(m.name, "input"@, binding_operands(m.inputs), binding_candidates(inm), m.inputs.len() as int) {
                Err(e) => Err(e),
                Ok(ib) => match crate::arch::processor::memory_bindings(m.name, "output"@, binding_operands(m.outputs), binding_candidates(outm), m.outputs.len() as int) {
                    Err(e) => Err(e),
                    Ok(ob) => lower_function(
                        m,
                        ib.map_values(|j: int| inm[j]@),
                        ob.map_values(|j: int| outm[j]@),
                    ),
                },
            }
        },
    }
}

/// The blocks `rs` lowered one after the other; the first error wins.
pub open spec fn lower_blocks(
    src: Seq<char>,
    rs: Seq<(int, int)>,
    fs: Seq<(Seq<char>, Seq<Seq<char>>)>,
    inm: Seq<LoomMemoryBinding>,
    outm: Seq<LoomMemoryBinding>,
) -> Result<Seq<char>, Seq<char>>
    decreases rs.len(),
{
    if rs.len() == 0 {
        Ok(Seq::empty())
    } else {
        match lower_blocks(src, rs.drop_last(), fs, inm, outm) {
            Err(e) => Err(e),
            Ok(t) => match lower_block(src.subrange(rs.last().0, rs.last().1), fs, inm, outm) {
                Err(e) => Err(e),
                Ok(b) => Ok(t + b),
            },
        }
    }
}

/// A compact source lowered to the module `@name`.
pub open spec fn lowered_source(
    src: Seq<char>,
    module_name: Seq<char>,
    fs: Seq<(Seq<char>, Seq<Seq<char>>)>,
    inm: Seq<LoomMemoryBinding>,
    outm: Seq<LoomMemoryBinding>,
) -> Result<Seq<char>, Seq<char>> {
    match super::loom::function_blocks(src) {
        Err(e) => Err(e),
        Ok(rs) => match lower_blocks(src, rs, fs, inm, outm) {
            Err(e) => Err(e),
            Ok(t) => Ok("module @"@ + module_name + " {\n"@ + t + "}\n"@),
        },
    }
}

pub proof fn lemma_lower_err(
    src: Seq<char>,
    rs: Seq<(int, int)>,
    fs: Seq<(Seq<char>, Seq<Seq<char>>)>,
    inm: Seq<LoomMemoryBinding>,
    outm: Seq<LoomMemoryBinding>,
    j: int,
)
    requires
        0 <= j <= rs.len(),
        lower_blocks(src, rs.take(j), fs, inm, outm) is Err,
    ensures
        lower_blocks(src, rs, fs, inm, outm) == lower_blocks(src, rs.take(j), fs, inm, outm),
    decreases rs.len(),
{
    if rs.len() == j {
        assert(rs.take(j) =~= rs);
    } else {
        assert(rs.drop_last().take(j) =~= rs.take(j));
        lemma_lower_err(src, rs.drop_last(), fs, inm, outm, j);
    }
}

pub open spec fn symbols_model(v: Seq<(String, Vec<crate::math::expr::Sym>)>) -> Seq<(Seq<char>, Seq<Seq<char>>)> {
    v.map_values(|p: (String, Vec<crate::math::expr::Sym>)| (p.0@, super::ops::syms_model(p.1@)))
}

fn x_add_symbols(f: &mut CompactFunction, fs: &[(String, Vec<crate::math::expr::Sym>)])
    ensures
        final(f)@ == with_params(old(f)@, symbols_model(fs@)),
{
    let ghost m = symbols_model(fs@);
    let mut k: usize = 0;
    proof { assert(m.skip(0) =~= m); }
    while k < fs.len()
        invariant
            k <= fs@.len(),
            *f == *old(f),
            m == symbols_model(fs@),
            lookup_syms(m, f@.name) == lookup_syms(m.skip(k as int), f@.name),
        decreases fs.len() - k,
    {
        proof { assert(m.skip(k as int).drop_first() =~= m.skip(k + 1)); }
        if crate::text::str_eq(fs[k].0.as_str(), f.name.as_str()) {
            let syms = &fs[k].1;
            let mut acc: Vec<Vec<char>> = Vec::new();
            let mut i: usize = 0;
            while i < f.params.len()
                invariant
                    i <= f.params@.len(),
                    vecs_model(acc@) == crate::text::texts(f.params@).take(i as int),
                decreases f.params.len() - i,
            {
                let ghost before = acc@;
                let c = chars_of(f.params[i].as_str());
                acc.push(c);
                proof {
                    assert(vecs_model(acc@) =~= vecs_model(before).push(c@));
                    assert(crate::text::texts(f.params@).take(i + 1) =~= crate::text::texts(f.params@).take(i as int).push(f.params@[i as int]@));
                }
                i += 1;
            }
            proof { assert(crate::text::texts(f.params@).take(f.params@.len() as int) =~= crate::text::texts(f.params@)); }
            let mut names: Vec<String> = Vec::new();
            let mut j: usize = 0;
            while j < syms.len()
                invariant
                    j <= syms@.len(),
                    crate::text::texts(names@) == super::ops::syms_model(syms@).take(j as int),
                decreases syms.len() - j,
            {
                let ghost before = names@;
                let n = syms[j].0.clone();
                names.push(n);
                proof {
                    assert(crate::text::texts(names@) =~= crate::text::texts(before).push(n@));
                    assert(super::ops::syms_model(syms@).take(j + 1) =~= super::ops::syms_model(syms@).take(j as int).push(syms@[j as int]@));
                }
                j += 1;
            }
            proof { assert(super::ops::syms_model(syms@).take(syms@.len() as int) =~= super::ops::syms_model(syms@)); }
            super::compact::add_new_texts(&mut acc, &names);
            let mut params: Vec<String> = Vec::new();
            let mut i: usize = 0;
            while i < acc.len()
                invariant
                    i <= acc@.len(),
                    crate::text::texts(params@) == vecs_model(acc@).take(i as int),
                decreases acc.len() - i,
            {
                let ghost before = params@;
                let t = crate::text::from_chars(acc[i].as_slice());
                params.push(t);
                proof {
                    assert(crate::text::texts(params@) =~= crate::text::texts(before).push(t@));
                    assert(vecs_model(acc@).take(i + 1) =~= vecs_model(acc@).take(i as int).push(acc@[i as int]@));
                }
                i += 1;
            }
            proof {
                assert(vecs_model(acc@).take(acc@.len() as int) =~= vecs_model(acc@));
                assert(m.skip(k as int)[0] == (fs@[k as int].0@, super::ops::syms_model(syms@)));
            }
            f.params = params;
            return;
        }
        k += 1;
    }
    proof { assert(m.skip(fs@.len() as int) =~= Seq::<(Seq<char>, Seq<Seq<char>>)>::empty()); }
}

fn x_binding_inputs(bufs: &Vec<Buffer>) -> (r: Vec<(String, Option<String>)>)
    ensures
        r@.map_values(|o: (String, Option<String>)| crate::arch::processor::operand_model(o))
            == binding_operands(super::compact::buffers_model(bufs@)),
{
    let mut out: Vec<(String, Option<String>)> = Vec::new();
    let mut i: usize = 0;
    while i < bufs.len()
        invariant
            i <= bufs@.len(),
            out@.map_values(|o: (String, Option<String>)| crate::arch::processor::operand_model(o))
                == binding_operands(super::compact::buffers_model(bufs@)).take(i as int),
        decreases bufs.len() - i,
    {
        let b = &bufs[i];
        let t: Option<String> = match &b.technology {
            Some(t) => Some(t.clone()),
            None => None,
        };
        let ghost before = out@;
        out.push((b.name.clone(), t));
        proof {
            assert(out@.map_values(|o: (String, Option<String>)| crate::arch::processor::operand_model(o))
                =~= before.map_values(|o: (String, Option<String>)| crate::arch::processor::operand_model(o)).push((b@.name, b@.technology)));
            assert(binding_operands(super::compact::buffers_model(bufs@)).take(i + 1)
                =~= binding_operands(super::compact::buffers_model(bufs@)).take(i as int).push((b@.name, b@.technology)));
        }
        i += 1;
    }
    proof {
        assert(binding_operands(super::compact::buffers_model(bufs@)).take(bufs@.len() as int)
            =~= binding_operands(super::compact::buffers_model(bufs@)));
    }
    out
}

fn x_binding_candidates(ms: &[LoomMemoryBinding]) -> (r: Vec<(String, Option<MemoryTechnology>)>)
    ensures
        r@.map_values(|c: (String, Option<MemoryTechnology>)| crate::arch::processor::candidate_model(c))
            == binding_candidates(ms@),
{
    let mut out: Vec<(String, Option<MemoryTechnology>)> = Vec::new();
    let mut i: usize = 0;
    while i < ms.len()
        invariant
            i <= ms@.len(),
            out@.map_values(|c: (String, Option<MemoryTechnology>)| crate::arch::processor::candidate_model(c))
                == binding_candidates(ms@).take(i as int),
        decreases ms.len() - i,
    {
        let m = &ms[i];
        let t: Option<MemoryTechnology> = match &m.technology {
            Some(t) => Some(t.clone()),
            None => None,
        };
        let ghost before = out@;
        out.push((m.symbol.clone(), t));
        proof {
            assert(out@.map_values(|c: (String, Option<MemoryTechnology>)| crate::arch::processor::candidate_model(c))
                =~= before.map_values(|c: (String, Option<MemoryTechnology>)| crate::arch::processor::candidate_model(c)).push((m@.symbol, m@.technology)));
            assert(binding_candidates(ms@).take(i + 1) =~= binding_candidates(ms@).take(i as int).push((m@.symbol, m@.technology)));
        }
        i += 1;
    }
    proof { assert(binding_candidates(ms@).take(ms@.len() as int) =~= binding_candidates(ms@)); }
    out
}

fn x_lower_block(
    block: &[char],
    fs: &[(String, Vec<crate::math::expr::Sym>)],
    inm: &[LoomMemoryBinding],
    outm: &[LoomMemoryBinding],
) -> (r: Result<String, String>)
    requires
        super::compact::block_shape_ok(block@),
    ensures
        match r {
            Ok(t) => lower_block(block@, symbols_model(fs@), inm@, outm@) == Ok::<Seq<char>, Seq<char>>(t@),
            Err(e) => lower_block(block@, symbols_model(fs@), inm@, outm@) == Err::<Seq<char>, Seq<char>>(e@),
        },
{
    let mut f = match super::compact::parse_compact_function(block) {
        Ok(f) => f,
        Err(e) => { return Err(e); },
    };
    x_add_symbols(&mut f, fs);
    let ghost m = f@;
    let ops_in = x_binding_inputs(&f.inputs);
    let cands_in = x_binding_candidates(inm);
    let ib = match crate::arch::processor::resolve_operand_memory_bindings(f.name.as_str(), "input", ops_in.as_slice(), cands_in.as_slice()) {
        Ok(v) => v,
        Err(e) => { return Err(e); },
    };
    let ops_out = x_binding_inputs(&f.outputs);
    let cands_out = x_binding_candidates(outm);
    let ob = match crate::arch::processor::resolve_operand_memory_bindings(f.name.as_str(), "output", ops_out.as_slice(), cands_out.as_slice()) {
        Ok(v) => v,
        Err(e) => { return Err(e); },
    };
    proof {
        lemma_bindings_len(m.name, "input"@, binding_operands(m.inputs), binding_candidates(inm@), m.inputs.len() as int);
        lemma_bindings_len(m.name, "output"@, binding_operands(m.outputs), binding_candidates(outm@), m.outputs.len() as int);
        assert(ib@.len() == f.inputs@.len());
        assert(ob@.len() == f.outputs@.len());
        assert(chosen(inm@, ib@) =~= ib@.map_values(|j: usize| j as int).map_values(|j: int| inm@[j]@));
        assert(chosen(outm@, ob@) =~= ob@.map_values(|j: usize| j as int).map_values(|j: int| outm@[j]@));
    }
    x_lower_function(&f, inm, &ib, outm, &ob)
}

pub proof fn lemma_bindings_len(
    function: Seq<char>,
    role: Seq<char>,
    ops: Seq<(Seq<char>, Option<Seq<char>>)>,
    cands: Seq<(Seq<char>, Option<Seq<char>>)>,
    n: int,
)
    requires
        n >= 0,
    ensures
        crate::arch::processor::memory_bindings(function, role, ops, cands, n) matches Ok(v) ==> v.len() == n,
    decreases n,
{
    if n > 0 {
        lemma_bindings_len(function, role, ops, cands, n - 1);
    }
}

/// Lowers a compact source to the dataflow MLIR module `@module_name`: each function's
/// operands are bound to the memories connected on its input and output side, and the
/// symbols given for a function by name join its parameters.
pub fn lower_loom_source(
    source: &str,
    module_name: &str,
    function_symbols: &[(String, Vec<crate::math::expr::Sym>)],
    input_memories: &[LoomMemoryBinding],
    output_memories: &[LoomMemoryBinding],
) -> (r: Result<String, super::compact::LoomParseError>)
    ensures
        match r {
            Ok(t) => lowered_source(source@, module_name@, symbols_model(function_symbols@), input_memories@, output_memories@)
                == Ok::<Seq<char>, Seq<char>>(t@),
            Err(e) => lowered_source(source@, module_name@, symbols_model(function_symbols@), input_memories@, output_memories@)
                == Err::<Seq<char>, Seq<char>>(e.0@),
        },
{
    let src = chars_of(source);
    let blocks = match super::loom::block_ranges(src.as_slice()) {
        Ok(b) => b,
        Err(e) => { return Err(super::compact::LoomParseError(e)); },
    };
    let ghost rs = blocks@.map_values(|p: (usize, usize)| (p.0 as int, p.1 as int));
    let ghost fsm = symbols_model(function_symbols@);
    let mut out = String::new();
    let mut i: usize = 0;
    proof { assert(rs.take(0) =~= Seq::<(int, int)>::empty()); assert(out@ =~= Seq::<char>::empty()); }
    while i < blocks.len()
        invariant
            i <= blocks@.len(),
            src@ == source@,
            rs == blocks@.map_values(|p: (usize, usize)| (p.0 as int, p.1 as int)),
            super::loom::blocks_ok(src@, rs),
            super::loom::function_blocks(src@) == Ok::<Seq<(int, int)>, Seq<char>>(rs),
            fsm == symbols_model(function_symbols@),
            lower_blocks(src@, rs.take(i as int), fsm, input_memories@, output_memories@) == Ok::<Seq<char>, Seq<char>>(out@),
        decreases blocks.len() - i,
    {
        let (a, b) = blocks[i];
        proof {
            assert(rs[i as int] == (a as int, b as int));
            assert(rs.take(i + 1).drop_last() =~= rs.take(i as int));
            assert(rs.take(i + 1).last() == (a as int, b as int));
        }
        let block = copy_range(src.as_slice(), a, b);
        let t = match x_lower_block(block.as_slice(), function_symbols, input_memories, output_memories) {
            Ok(t) => t,
            Err(e) => {
                proof { lemma_lower_err(src@, rs, fsm, input_memories@, output_memories@, i + 1); }
                return Err(super::compact::LoomParseError(e));
            },
        };
        push_str(&mut out, t.as_str());
        i += 1;
    }
    proof { assert(rs.take(blocks@.len() as int) =~= rs); }
    let mut s = String::new();
    push_str(&mut s, "module @");
    push_str(&mut s, module_name);
    push_str(&mut s, " {\n");
    push_str(&mut s, out.as_str());
    push_str(&mut s, "}\n");
    Ok(s)
}

} // verus!
