//! The compact Loom source form: `func @name(in a: f16[M, K] @memory(gcram), out b: ...)`
//! blocks whose bodies hold `linalg.*` and `loom.*` operations. This module reads such a
//! source into buffers, parameters and body operations, and into MLIR function interfaces.
use vstd::prelude::*;

use crate::text::{chars_of, is_space, push_chars, push_str};
use super::ctext::{
    all_ident_seq, all_ident_vec, contains_str, contains_str_vec, copy_range, first_at,
    first_at_vec, first_token, first_token_vec, items, items_vec, rfind, rfind_vec,
    strip_lead, strip_lead_vec, strip_trail, strip_trail_vec, trim_vec, tseq, u64_value,
    u64_value_vec,
};
use super::lex::ends;
use super::scan::{find_str, x_find_str};

verus! {

/// A compact source that could not be read or lowered, with the reason.
#[derive(Debug, PartialEq, Eq)]
pub struct LoomParseError(pub String);

impl LoomParseError {
    /// The error as a sentence: `invalid compact Loom source: ` and the reason.
    pub fn message(&self) -> (r: String)
        ensures
            r@ == "invalid compact Loom source: "@ + self.0@,
    {
        let mut s = String::new();
        push_str(&mut s, "invalid compact Loom source: ");
        push_str(&mut s, self.0.as_str());
        s
    }
}

/// `a` followed by the characters `x`.
pub fn text2(a: &str, x: &[char]) -> (r: String)
    ensures
        r@ == a@ + x@,
{
    let mut s = String::new();
    push_str(&mut s, a);
    push_chars(&mut s, x);
    s
}

/// `a`, `x`, `b`, `y` one after the other.
pub fn text4(a: &str, x: &[char], b: &str, y: &[char]) -> (r: String)
    ensures
        r@ == a@ + x@ + b@ + y@,
{
    let mut s = String::new();
    push_str(&mut s, a);
    push_chars(&mut s, x);
    push_str(&mut s, b);
    push_chars(&mut s, y);
    s
}

/// One operand buffer of a compact function: its name, its symbolic shape, its element
/// type, the memory technology it requires and the memory space it names directly.
pub struct Buffer {
    pub name: String,
    pub shape: Vec<String>,
    pub element: String,
    pub technology: Option<String>,
    pub legacy_memory_space: Option<u64>,
}

/// Model of a [`Buffer`].
pub ghost struct BufferModel {
    pub name: Seq<char>,
    pub shape: Seq<Seq<char>>,
    pub element: Seq<char>,
    pub technology: Option<Seq<char>>,
    pub space: Option<int>,
}

pub open spec fn opt_text(o: Option<String>) -> Option<Seq<char>> {
    match o {
        Some(s) => Some(s@),
        None => None,
    }
}

pub open spec fn opt_u64(o: Option<u64>) -> Option<int> {
    match o {
        Some(v) => Some(v as int),
        None => None,
    }
}

impl View for Buffer {
    type V = BufferModel;

    open spec fn view(&self) -> BufferModel {
        BufferModel {
            name: self.name@,
            shape: self.shape@.map_values(|d: String| d@),
            element: self.element@,
            technology: opt_text(self.technology),
            space: opt_u64(self.legacy_memory_space),
        }
    }
}

/// The declaration text of an operand: trimmed, without leading `-` and trailing `,`.
pub open spec fn decl_text(line: Seq<char>) -> Seq<char> {
    strip_trail(tseq(strip_lead(tseq(line), '-')), ',')
}

/// A type with an optional trailing `@memory(tech)` or `@space(n)`: the type before it,
/// the technology and the space.
pub open spec fn annotation(ty: Seq<char>) -> Result<(Seq<char>, Option<Seq<char>>, Option<int>), Seq<char>> {
    let m = rfind(ty, "@memory("@);
    let s = rfind(ty, "@space("@);
    if m >= 0 {
        let inner = ty.skip(m + "@memory("@.len());
        let tech = tseq(inner.drop_last());
        if ends(inner, ')') && tech.len() > 0 && all_ident_seq(tech) {
            Ok((tseq(ty.take(m)), Some(tech), None))
        } else {
            Err("invalid memory annotation: "@ + ty.take(m))
        }
    } else if s >= 0 {
        let inner = ty.skip(s + "@space("@.len());
        let v = u64_value(tseq(inner.drop_last()));
        if ends(inner, ')') && v is Some {
            Ok((tseq(ty.take(s)), None, v))
        } else {
            Err("invalid memory-space annotation: "@ + ty.take(s))
        }
    } else {
        Ok((ty, None, None))
    }
}

/// An operand declaration `name: elem[d1, d2] @memory(tech)` read into a buffer.
pub open spec fn buffer_model(line: Seq<char>) -> Result<BufferModel, Seq<char>> {
    let l = decl_text(line);
    let colon = first_at(l, ':');
    if colon >= l.len() {
        Err("buffer declaration needs `name: type`: "@ + l)
    } else {
        match annotation(tseq(l.skip(colon + 1))) {
            Err(e) => Err(e),
            Ok(a) => {
                let ty = a.0;
                let open = first_at(ty, '[');
                let rest = ty.skip(open + 1);
                if open < ty.len() && !ends(rest, ']') {
                    Err("invalid operand type: "@ + ty)
                } else {
                    let element = if open < ty.len() { tseq(ty.take(open)) } else { ty };
                    let shape = if open < ty.len() { rest.drop_last() } else { Seq::empty() };
                    if element.len() == 0 {
                        Err("buffer element type cannot be empty"@)
                    } else {
                        Ok(BufferModel {
                            name: strip_lead(tseq(l.take(colon)), '%'),
                            shape: items(shape, ','),
                            element,
                            technology: a.1,
                            space: a.2,
                        })
                    }
                }
            }
        }
    }
}

fn x_annotation(ty: &[char]) -> (r: Result<(Vec<char>, Option<String>, Option<u64>), String>)
    ensures
        match r {
            Ok(v) => annotation(ty@) == Ok::<(Seq<char>, Option<Seq<char>>, Option<int>), Seq<char>>(
                (v.0@, opt_text(v.1), opt_u64(v.2)),
            ),
            Err(e) => annotation(ty@) == Err::<(Seq<char>, Option<Seq<char>>, Option<int>), Seq<char>>(e@),
        },
{
    let mp = chars_of("@memory(");
    let sp = chars_of("@space(");
    let m = rfind_vec(ty, "@memory(");
    let s = rfind_vec(ty, "@space(");
    match m {
        Some(m) => {
            let n = ty.len();
            let inner = copy_range(ty, m + mp.len(), n);
            proof { assert(inner@ =~= ty@.skip(m + "@memory("@.len())); }
            let before = copy_range(ty, 0, m);
            proof { assert(before@ =~= ty@.take(m as int)); }
            if inner.len() > 0 && inner[inner.len() - 1] == ')' {
                let body = copy_range(inner.as_slice(), 0, inner.len() - 1);
                proof { assert(body@ =~= inner@.drop_last()); }
                let tech = trim_vec(body.as_slice());
                if tech.len() > 0 && all_ident_vec(tech.as_slice()) {
                    let b = trim_vec(before.as_slice());
                    return Ok((b, Some(crate::text::from_chars(tech.as_slice())), None));
                }
            }
            Err(text2("invalid memory annotation: ", before.as_slice()))
        },
        None => match s {
            Some(s) => {
                let n = ty.len();
                let inner = copy_range(ty, s + sp.len(), n);
                proof { assert(inner@ =~= ty@.skip(s + "@space("@.len())); }
                let before = copy_range(ty, 0, s);
                proof { assert(before@ =~= ty@.take(s as int)); }
                if inner.len() > 0 && inner[inner.len() - 1] == ')' {
                    let body = copy_range(inner.as_slice(), 0, inner.len() - 1);
                    proof { assert(body@ =~= inner@.drop_last()); }
                    let t = trim_vec(body.as_slice());
                    match u64_value_vec(t.as_slice()) {
                        Some(v) => {
                            let b = trim_vec(before.as_slice());
                            return Ok((b, None, Some(v)));
                        },
                        None => {},
                    }
                }
                Err(text2("invalid memory-space annotation: ", before.as_slice()))
            },
            None => {
                let all = copy_range(ty, 0, ty.len());
                proof { assert(all@ =~= ty@); }
                Ok((all, None, None))
            },
        },
    }
}

/// Reads one operand declaration.
pub fn parse_buffer(line: &[char]) -> (r: Result<Buffer, String>)
    ensures
        match r {
            Ok(b) => buffer_model(line@) == Ok::<BufferModel, Seq<char>>(b@),
            Err(e) => buffer_model(line@) == Err::<BufferModel, Seq<char>>(e@),
        },
{
    let t1 = trim_vec(line);
    let t2 = strip_lead_vec(t1.as_slice(), '-');
    let t3 = trim_vec(t2.as_slice());
    let l = strip_trail_vec(t3.as_slice(), ',');
    let colon = first_at_vec(l.as_slice(), ':');
    if colon >= l.len() {
        return Err(text2("buffer declaration needs `name: type`: ", l.as_slice()));
    }
    let tail = copy_range(l.as_slice(), colon + 1, l.len());
    proof { assert(tail@ =~= l@.skip(colon + 1)); }
    let tyt = trim_vec(tail.as_slice());
    let (ty, technology, legacy_memory_space) = match x_annotation(tyt.as_slice()) {
        Ok(a) => a,
        Err(e) => { return Err(e); },
    };
    let open = first_at_vec(ty.as_slice(), '[');
    let mut element: Vec<char> = Vec::new();
    let mut shape_text: Vec<char> = Vec::new();
    if open < ty.len() {
        let rest = copy_range(ty.as_slice(), open + 1, ty.len());
        proof { assert(rest@ =~= ty@.skip(open + 1)); }
        if !(rest.len() > 0 && rest[rest.len() - 1] == ']') {
            return Err(text2("invalid operand type: ", ty.as_slice()));
        }
        let head = copy_range(ty.as_slice(), 0, open);
        proof { assert(head@ =~= ty@.take(open as int)); }
        element = trim_vec(head.as_slice());
        shape_text = copy_range(rest.as_slice(), 0, rest.len() - 1);
        proof { assert(shape_text@ =~= rest@.drop_last()); }
    } else {
        element = copy_range(ty.as_slice(), 0, ty.len());
        proof {
            assert(element@ =~= ty@);
            assert(shape_text@ =~= Seq::<char>::empty());
        }
    }
    if element.len() == 0 {
        return Err(crate::text::owned("buffer element type cannot be empty"));
    }
    let head = copy_range(l.as_slice(), 0, colon);
    proof { assert(head@ =~= l@.take(colon as int)); }
    let name = strip_lead_vec(trim_vec(head.as_slice()).as_slice(), '%');
    let dims = items_vec(shape_text.as_slice(), ',');
    let mut shape: Vec<String> = Vec::new();
    let mut i: usize = 0;
    while i < dims.len()
        invariant
            i <= dims@.len(),
            shape@.len() == i,
            forall|k: int| 0 <= k < i ==> #[trigger] shape@[k]@ == dims@[k]@,
        decreases dims.len() - i,
    {
        shape.push(crate::text::from_chars(dims[i].as_slice()));
        i += 1;
    }
    let b = Buffer {
        name: crate::text::from_chars(name.as_slice()),
        shape,
        element: crate::text::from_chars(element.as_slice()),
        technology,
        legacy_memory_space,
    };
    proof {
        assert(b@.shape =~= dims@.map_values(|v: Vec<char>| v@));
    }
    Ok(b)
}

// ---------------------------------------------------------------------------
// Operand lists and extents

/// `acc` with the trimmed `piece` added when it is not blank.
pub open spec fn push_kept(acc: Seq<Seq<char>>, piece: Seq<char>) -> Seq<Seq<char>> {
    if tseq(piece).len() > 0 { acc.push(tseq(piece)) } else { acc }
}

/// The operands of a signature split at the commas outside `[...]`, from index `i` on.
pub open spec fn sig_split(s: Seq<char>, i: int, start: int, depth: nat, acc: Seq<Seq<char>>) -> Result<Seq<Seq<char>>, Seq<char>>
    decreases s.len() - i,
{
    if i < 0 || i >= s.len() {
        if depth != 0 {
            Err("unbalanced operand shape brackets"@)
        } else {
            Ok(push_kept(acc, s.subrange(start, s.len() as int)))
        }
    } else if s[i] == '[' {
        sig_split(s, i + 1, start, depth + 1, acc)
    } else if s[i] == ']' {
        if depth == 0 {
            Err("unbalanced operand shape brackets"@)
        } else {
            sig_split(s, i + 1, start, (depth - 1) as nat, acc)
        }
    } else if s[i] == ',' && depth == 0 {
        sig_split(s, i + 1, i + 1, 0, push_kept(acc, s.subrange(start, i)))
    } else {
        sig_split(s, i + 1, start, depth, acc)
    }
}

/// The trimmed, non-blank operands of a signature.
pub open spec fn signature_operands(s: Seq<char>) -> Result<Seq<Seq<char>>, Seq<char>> {
    sig_split(s, 0, 0, 0, Seq::empty())
}

pub open spec fn vecs_model(v: Seq<Vec<char>>) -> Seq<Seq<char>> {
    v.map_values(|x: Vec<char>| x@)
}

fn x_push_kept(acc: &mut Vec<Vec<char>>, s: &[char], a: usize, b: usize)
    requires
        a <= b <= s@.len(),
    ensures
        vecs_model(final(acc)@) == push_kept(vecs_model(old(acc)@), s@.subrange(a as int, b as int)),
{
    let piece = copy_range(s, a, b);
    let t = trim_vec(piece.as_slice());
    let ghost before = acc@;
    if t.len() > 0 {
        acc.push(t);
        proof { assert(vecs_model(acc@) =~= vecs_model(before).push(t@)); }
    }
}

/// Splits a signature into its operands.
pub fn split_signature_operands(s: &[char]) -> (r: Result<Vec<Vec<char>>, String>)
    ensures
        match r {
            Ok(v) => signature_operands(s@) == Ok::<Seq<Seq<char>>, Seq<char>>(vecs_model(v@)),
            Err(e) => signature_operands(s@) == Err::<Seq<Seq<char>>, Seq<char>>(e@),
        },
{
    let mut acc: Vec<Vec<char>> = Vec::new();
    let mut i: usize = 0;
    let mut start: usize = 0;
    let mut depth: usize = 0;
    proof { assert(vecs_model(acc@) =~= Seq::<Seq<char>>::empty()); }
    while i < s.len()
        invariant
            start <= i <= s@.len(),
            depth <= i,
            signature_operands(s@) == sig_split(s@, i as int, start as int, depth as nat, vecs_model(acc@)),
        decreases s.len() - i,
    {
        if s[i] == '[' {
            depth += 1;
        } else if s[i] == ']' {
            if depth == 0 {
                return Err(crate::text::owned("unbalanced operand shape brackets"));
            }
            depth -= 1;
        } else if s[i] == ',' && depth == 0 {
            x_push_kept(&mut acc, s, start, i);
            start = i + 1;
        }
        i += 1;
    }
    if depth != 0 {
        return Err(crate::text::owned("unbalanced operand shape brackets"));
    }
    let n = s.len();
    x_push_kept(&mut acc, s, start, n);
    Ok(acc)
}

/// The items of an `extent: [a, b]` clause, if the line has one.
pub open spec fn extent_items(line: Seq<char>) -> Result<Option<Seq<Seq<char>>>, Seq<char>> {
    let k = find_str(line, 0, "extent:"@);
    if k >= line.len() {
        Ok(None)
    } else {
        let e = tseq(line.skip(k + "extent:"@.len()));
        if !(e.len() > 0 && e[0] == '[' && ends(e.drop_first(), ']')) {
            Err("`extent` must be a bracketed list: "@ + line)
        } else if items(e.drop_first().drop_last(), ',').len() == 0 {
            Err("`extent` cannot be empty; omit it to use the connected region: "@ + line)
        } else {
            Ok(Some(items(e.drop_first().drop_last(), ',')))
        }
    }
}

pub fn x_extent_items(line: &[char]) -> (r: Result<Option<Vec<Vec<char>>>, String>)
    ensures
        match r {
            Ok(Some(v)) => extent_items(line@) == Ok::<Option<Seq<Seq<char>>>, Seq<char>>(Some(vecs_model(v@))),
            Ok(None) => extent_items(line@) == Ok::<Option<Seq<Seq<char>>>, Seq<char>>(None),
            Err(e) => extent_items(line@) == Err::<Option<Seq<Seq<char>>>, Seq<char>>(e@),
        },
{
    let pat = chars_of("extent:");
    let k = x_find_str(line, 0, pat.as_slice());
    if k >= line.len() {
        return Ok(None);
    }
    proof { super::scan::lemma_find_str(line@, 0, pat@); }
    let n = line.len();
    let tail = copy_range(line, k + pat.len(), n);
    proof { assert(tail@ =~= line@.skip(k + "extent:"@.len())); }
    let e = trim_vec(tail.as_slice());
    if !(e.len() > 1 && e[0] == '[' && e[e.len() - 1] == ']') {
        return Err(text2("`extent` must be a bracketed list: ", line));
    }
    let inner = copy_range(e.as_slice(), 1, e.len() - 1);
    proof { assert(inner@ =~= e@.drop_first().drop_last()); }
    let its = items_vec(inner.as_slice(), ',');
    if its.len() == 0 {
        return Err(text2("`extent` cannot be empty; omit it to use the connected region: ", line));
    }
    Ok(Some(its))
}

// ---------------------------------------------------------------------------
// The header and the operands of one function

/// The name, the inside of `(...)` and the position of the body's `{` of a function block.
pub open spec fn header_parts(block: Seq<char>) -> Result<(Seq<char>, Seq<char>, int), Seq<char>> {
    let open = first_at(block, '{');
    let header = tseq(block.take(open));
    let at = first_at(header, '@');
    let name = header.subrange(at + 1, crate::arch::index_parser::ident_end(header, at + 1));
    let sig = tseq(header.skip(at + 1 + name.len()));
    if open >= block.len() {
        Err("function is missing '{'"@)
    } else if at >= header.len() {
        Err("function header must contain `@name`"@)
    } else if name.len() == 0 {
        Err("function name cannot be empty"@)
    } else if !(sig.len() > 0 && sig[0] == '(' && ends(sig.drop_first(), ')')) {
        Err("function '"@ + name + "' must declare operands in `func @name(...)`"@)
    } else {
        Ok((name, sig.drop_first().drop_last(), open))
    }
}

fn x_header_parts(block: &[char]) -> (r: Result<(Vec<char>, Vec<char>, usize), String>)
    ensures
        match r {
            Ok(v) => header_parts(block@) == Ok::<(Seq<char>, Seq<char>, int), Seq<char>>((v.0@, v.1@, v.2 as int)),
            Err(e) => header_parts(block@) == Err::<(Seq<char>, Seq<char>, int), Seq<char>>(e@),
        },
{
    let open = first_at_vec(block, '{');
    if open >= block.len() {
        return Err(crate::text::owned("function is missing '{'"));
    }
    let head = copy_range(block, 0, open);
    proof { assert(head@ =~= block@.take(open as int)); }
    let header = trim_vec(head.as_slice());
    let at = first_at_vec(header.as_slice(), '@');
    if at >= header.len() {
        return Err(crate::text::owned("function header must contain `@name`"));
    }
    proof { crate::arch::index_parser::lemma_run_ends(header@, at + 1); }
    let e = crate::arch::index_parser::x_ident_end(header.as_slice(), at + 1);
    let name = copy_range(header.as_slice(), at + 1, e);
    if name.len() == 0 {
        return Err(crate::text::owned("function name cannot be empty"));
    }
    let n = header.len();
    let rest = copy_range(header.as_slice(), at + 1 + name.len(), n);
    proof { assert(rest@ =~= header@.skip(at + 1 + name@.len())); }
    let sig = trim_vec(rest.as_slice());
    if !(sig.len() > 1 && sig[0] == '(' && sig[sig.len() - 1] == ')') {
        let mut m = text2("function '", name.as_slice());
        push_str(&mut m, "' must declare operands in `func @name(...)`");
        return Err(m);
    }
    let inner = copy_range(sig.as_slice(), 1, sig.len() - 1);
    proof { assert(inner@ =~= sig@.drop_first().drop_last()); }
    Ok((name, inner, open))
}

/// The buffers of the operands `ops[i..]`, split by their role `in` or `out`.
pub open spec fn operand_buffers(name: Seq<char>, ops: Seq<Seq<char>>, i: int, ins: Seq<BufferModel>, outs: Seq<BufferModel>) -> Result<(Seq<BufferModel>, Seq<BufferModel>), Seq<char>>
    decreases ops.len() - i,
{
    if i < 0 || i >= ops.len() {
        Ok((ins, outs))
    } else {
        let op = ops[i];
        let k = super::ctext::space_end(op, 0);
        if k >= op.len() {
            Err("function '"@ + name + "' operand needs `in` or `out`: "@ + op)
        } else {
            match buffer_model(op.skip(k + 1)) {
                Err(e) => Err(e),
                Ok(b) => if op.take(k) == "in"@ {
                    operand_buffers(name, ops, i + 1, ins.push(b), outs)
                } else if op.take(k) == "out"@ {
                    operand_buffers(name, ops, i + 1, ins, outs.push(b))
                } else {
                    Err("function '"@ + name + "' operand role must be `in` or `out`: "@ + op.take(k))
                },
            }
        }
    }
}

pub open spec fn buffers_model(v: Seq<Buffer>) -> Seq<BufferModel> {
    v.map_values(|b: Buffer| b@)
}

fn x_operand_buffers(name: &[char], ops: &Vec<Vec<char>>) -> (r: Result<(Vec<Buffer>, Vec<Buffer>), String>)
    ensures
        match r {
            Ok(v) => operand_buffers(name@, vecs_model(ops@), 0, Seq::empty(), Seq::empty())
                == Ok::<(Seq<BufferModel>, Seq<BufferModel>), Seq<char>>((buffers_model(v.0@), buffers_model(v.1@))),
            Err(e) => operand_buffers(name@, vecs_model(ops@), 0, Seq::empty(), Seq::empty())
                == Err::<(Seq<BufferModel>, Seq<BufferModel>), Seq<char>>(e@),
        },
{
    let mut ins: Vec<Buffer> = Vec::new();
    let mut outs: Vec<Buffer> = Vec::new();
    let inw = chars_of("in");
    let outw = chars_of("out");
    let mut i: usize = 0;
    proof {
        assert(buffers_model(ins@) =~= Seq::<BufferModel>::empty());
        assert(buffers_model(outs@) =~= Seq::<BufferModel>::empty());
    }
    while i < ops.len()
        invariant
            i <= ops@.len(),
            inw@ == "in"@,
            outw@ == "out"@,
            operand_buffers(name@, vecs_model(ops@), 0, Seq::empty(), Seq::empty())
                == operand_buffers(name@, vecs_model(ops@), i as int, buffers_model(ins@), buffers_model(outs@)),
        decreases ops.len() - i,
    {
        let op = &ops[i];
        proof { assert(vecs_model(ops@)[i as int] == op@); }
        proof { super::ctext::lemma_space_end(op@, 0); }
        let k = super::ctext::space_end_vec(op.as_slice(), 0);
        if k >= op.len() {
            let mut m = text2("function '", name);
            push_str(&mut m, "' operand needs `in` or `out`: ");
            push_chars(&mut m, op.as_slice());
            return Err(m);
        }
        let n = op.len();
        let decl = copy_range(op.as_slice(), k + 1, n);
        proof { assert(decl@ =~= op@.skip(k + 1)); }
        let b = match parse_buffer(decl.as_slice()) {
            Ok(b) => b,
            Err(e) => { return Err(e); },
        };
        let role = copy_range(op.as_slice(), 0, k);
        proof { assert(role@ =~= op@.take(k as int)); }
        if crate::text::chars_eq(role.as_slice(), inw.as_slice()) {
            let ghost before = ins@;
            ins.push(b);
            proof { assert(buffers_model(ins@) =~= buffers_model(before).push(b@)); }
        } else if crate::text::chars_eq(role.as_slice(), outw.as_slice()) {
            let ghost before = outs@;
            outs.push(b);
            proof { assert(buffers_model(outs@) =~= buffers_model(before).push(b@)); }
        } else {
            let mut m = text2("function '", name);
            push_str(&mut m, "' operand role must be `in` or `out`: ");
            push_chars(&mut m, role.as_slice());
            return Err(m);
        }
        i += 1;
    }
    Ok((ins, outs))
}

// ---------------------------------------------------------------------------
// The body

/// The number of `{` less the number of `}` in `l`.
pub open spec fn brace_delta(l: Seq<char>) -> int
    decreases l.len(),
{
    if l.len() == 0 {
        0
    } else {
        brace_delta(l.drop_last()) + (if l.last() == '{' { 1int } else if l.last() == '}' { -1int } else { 0int })
    }
}

fn x_brace_delta(l: &[char]) -> (r: i128)
    ensures
        r == brace_delta(l@),
        -(l@.len() as int) <= r <= l@.len(),
{
    let mut d: i128 = 0;
    let mut i: usize = 0;
    proof { assert(l@.take(0) =~= Seq::<char>::empty()); }
    while i < l.len()
        invariant
            i <= l@.len(),
            d == brace_delta(l@.take(i as int)),
            -(i as int) <= d <= i,
        decreases l.len() - i,
    {
        proof { assert(l@.take(i + 1).drop_last() =~= l@.take(i as int)); }
        if l[i] == '{' {
            d = d + 1;
        } else if l[i] == '}' {
            d = d - 1;
        }
        i += 1;
    }
    proof { assert(l@.take(l@.len() as int) =~= l@); }
    d
}

/// A body operation that spans several lines, still open.
pub ghost struct Pending {
    pub op: Seq<char>,
    pub depth: int,
    pub waits: bool,
    pub entered: bool,
}

/// The body operations of the trimmed lines `lines[i..]`: single-line operations, and
/// operations whose braces open a region that later lines close (`linalg.generic` waits
/// for the region that its `outs(...)` line opens).
pub open spec fn body_ops(name: Seq<char>, lines: Seq<Seq<char>>, i: int, body: Seq<Seq<char>>, pending: Option<Pending>) -> Result<Seq<Seq<char>>, Seq<char>>
    decreases lines.len() - i,
{
    if i < 0 || i >= lines.len() {
        if pending is Some {
            Err("function '"@ + name + "' has an unbalanced body operation"@)
        } else {
            Ok(body)
        }
    } else {
        let line = lines[i];
        if line.len() == 0 || super::lex::starts(line, "//"@) {
            body_ops(name, lines, i + 1, body, pending)
        } else {
            match pending {
                Some(p) => {
                    let op = p.op.push('\n') + line;
                    let delta = brace_delta(line);
                    let entered = p.entered || (p.waits && super::lex::starts(line, "outs("@) && delta > 0);
                    let depth = p.depth + delta;
                    if depth == 0 && (!p.waits || entered) {
                        body_ops(name, lines, i + 1, body.push(op), None)
                    } else {
                        body_ops(name, lines, i + 1, body, Some(Pending { op, depth, waits: p.waits, entered }))
                    }
                },
                None => {
                    if super::lex::starts(line, "linalg."@) || super::lex::starts(line, "loom."@) {
                        if brace_delta(line) > 0 {
                            body_ops(name, lines, i + 1, body, Some(Pending {
                                op: line,
                                depth: brace_delta(line),
                                waits: super::lex::starts(line, "linalg.generic"@),
                                entered: false,
                            }))
                        } else {
                            body_ops(name, lines, i + 1, body.push(line), None)
                        }
                    } else {
                        Err("unsupported line in function '"@ + name + "': "@ + line)
                    }
                },
            }
        }
    }
}

fn x_body_ops(name: &[char], lines: &Vec<Vec<char>>) -> (r: Result<Vec<Vec<char>>, String>)
    ensures
        match r {
            Ok(v) => body_ops(name@, vecs_model(lines@), 0, Seq::empty(), None) == Ok::<Seq<Seq<char>>, Seq<char>>(vecs_model(v@)),
            Err(e) => body_ops(name@, vecs_model(lines@), 0, Seq::empty(), None) == Err::<Seq<Seq<char>>, Seq<char>>(e@),
        },
{
    let mut body: Vec<Vec<char>> = Vec::new();
    let mut has: bool = false;
    let mut op: Vec<char> = Vec::new();
    let mut depth: i128 = 0;
    let mut waits: bool = false;
    let mut entered: bool = false;
    let mut i: usize = 0;
    proof { assert(vecs_model(body@) =~= Seq::<Seq<char>>::empty()); }
    while i < lines.len()
        invariant
            i <= lines@.len(),
            -(op@.len() as int) <= depth <= op@.len(),
            op@.len() <= usize::MAX,
            body_ops(name@, vecs_model(lines@), 0, Seq::empty(), None) == body_ops(
                name@, vecs_model(lines@), i as int, vecs_model(body@),
                if has { Some(Pending { op: op@, depth: depth as int, waits, entered }) } else { None },
            ),
        decreases lines.len() - i,
    {
        let line = &lines[i];
        proof { assert(vecs_model(lines@)[i as int] == line@); }
        if line.len() == 0 || super::lex::x_starts(line.as_slice(), "//") {
            i += 1;
            continue;
        }
        if has {
            let delta = x_brace_delta(line.as_slice());
            op.push('\n');
            let ghost mid = op@;
            push_all(&mut op, line.as_slice());
            let oplen = op.len();
            let now_entered = entered || (waits && super::lex::x_starts(line.as_slice(), "outs(") && delta > 0);
            depth = depth + delta;
            entered = now_entered;
            if depth == 0 && (!waits || entered) {
                let ghost before = body@;
                let done = op;
                body.push(done);
                proof { assert(vecs_model(body@) =~= vecs_model(before).push(done@)); }
                op = Vec::new();
                depth = 0;
                has = false;
            }
        } else if super::lex::x_starts(line.as_slice(), "linalg.") || super::lex::x_starts(line.as_slice(), "loom.") {
            let delta = x_brace_delta(line.as_slice());
            if delta > 0 {
                has = true;
                op = copy_range(line.as_slice(), 0, line.len());
                proof { assert(op@ =~= line@); }
                let oplen = op.len();
                depth = delta;
                waits = super::lex::x_starts(line.as_slice(), "linalg.generic");
                entered = false;
            } else {
                let ghost before = body@;
                let l = copy_range(line.as_slice(), 0, line.len());
                proof { assert(l@ =~= line@); }
                body.push(l);
                proof { assert(vecs_model(body@) =~= vecs_model(before).push(line@)); }
            }
        } else {
            let mut m = text2("unsupported line in function '", name);
            push_str(&mut m, "': ");
            push_chars(&mut m, line.as_slice());
            return Err(m);
        }
        i += 1;
    }
    if has {
        let mut m = text2("function '", name);
        push_str(&mut m, "' has an unbalanced body operation");
        return Err(m);
    }
    Ok(body)
}

/// Appends the characters of `c` to the vector `v`.
pub fn push_all(v: &mut Vec<char>, c: &[char])
    ensures
        final(v)@ == old(v)@ + c@,
{
    let mut i: usize = 0;
    while i < c.len()
        invariant
            i <= c@.len(),
            v@ == old(v)@ + c@.take(i as int),
        decreases c.len() - i,
    {
        v.push(c[i]);
        proof { assert(c@.take(i + 1) =~= c@.take(i as int).push(c@[i as int])); }
        i += 1;
    }
    proof { assert(c@.take(c@.len() as int) =~= c@); }
}

// ---------------------------------------------------------------------------
// Parameters

/// `acc` with `x` added at its end unless it holds it already.
pub open spec fn add_new(acc: Seq<Seq<char>>, x: Seq<char>) -> Seq<Seq<char>> {
    if acc.contains(x) { acc } else { acc.push(x) }
}

/// `acc` with each of `xs`, in order, added unless already there.
pub open spec fn add_all_new(acc: Seq<Seq<char>>, xs: Seq<Seq<char>>) -> Seq<Seq<char>>
    decreases xs.len(),
{
    if xs.len() == 0 { acc } else { add_new(add_all_new(acc, xs.drop_last()), xs.last()) }
}

/// `acc` with each symbolic (not decimal) item of `xs` added unless already there.
pub open spec fn add_symbolic(acc: Seq<Seq<char>>, xs: Seq<Seq<char>>) -> Seq<Seq<char>>
    decreases xs.len(),
{
    if xs.len() == 0 {
        acc
    } else if u64_value(xs.last()) is None {
        add_new(add_symbolic(acc, xs.drop_last()), xs.last())
    } else {
        add_symbolic(acc, xs.drop_last())
    }
}

/// The shape dimensions of `bufs`, in order.
pub open spec fn all_dims(bufs: Seq<BufferModel>) -> Seq<Seq<char>>
    decreases bufs.len(),
{
    if bufs.len() == 0 { Seq::empty() } else { all_dims(bufs.drop_last()) + bufs.last().shape }
}

pub proof fn lemma_add_all_new_concat(acc: Seq<Seq<char>>, a: Seq<Seq<char>>, b: Seq<Seq<char>>)
    ensures
        add_all_new(acc, a + b) == add_all_new(add_all_new(acc, a), b),
    decreases b.len(),
{
    if b.len() == 0 {
        assert(a + b =~= a);
    } else {
        assert((a + b).drop_last() =~= a + b.drop_last());
        lemma_add_all_new_concat(acc, a, b.drop_last());
    }
}

fn x_add_new(acc: &mut Vec<Vec<char>>, x: &[char])
    ensures
        vecs_model(final(acc)@) == add_new(vecs_model(old(acc)@), x@),
{
    let mut i: usize = 0;
    while i < acc.len()
        invariant
            i <= acc@.len(),
            acc@ == old(acc)@,
            forall|k: int| 0 <= k < i ==> #[trigger] acc@[k]@ != x@,
        decreases acc.len() - i,
    {
        if crate::text::chars_eq(acc[i].as_slice(), x) {
            proof { assert(vecs_model(acc@)[i as int] == x@); }
            return;
        }
        i += 1;
    }
    proof {
        assert(!vecs_model(acc@).contains(x@)) by {
            if vecs_model(acc@).contains(x@) {
                let k = choose|k: int| 0 <= k < vecs_model(acc@).len() && vecs_model(acc@)[k] == x@;
                assert(acc@[k]@ == x@);
            }
        }
    }
    let ghost before = acc@;
    acc.push(copy_range(x, 0, x.len()));
    proof {
        assert(x@.subrange(0, x@.len() as int) =~= x@);
        assert(vecs_model(acc@) =~= vecs_model(before).push(x@));
    }
}

pub fn add_new_texts(acc: &mut Vec<Vec<char>>, xs: &Vec<String>)
    ensures
        vecs_model(final(acc)@) == add_all_new(vecs_model(old(acc)@), crate::text::texts(xs@)),
{
    let mut i: usize = 0;
    let ghost start = vecs_model(acc@);
    proof { assert(crate::text::texts(xs@).take(0) =~= Seq::<Seq<char>>::empty()); }
    while i < xs.len()
        invariant
            i <= xs@.len(),
            start == vecs_model(old(acc)@),
            vecs_model(acc@) == add_all_new(start, crate::text::texts(xs@).take(i as int)),
        decreases xs.len() - i,
    {
        let x = chars_of(xs[i].as_str());
        x_add_new(acc, x.as_slice());
        proof {
            assert(crate::text::texts(xs@).take(i + 1).drop_last() =~= crate::text::texts(xs@).take(i as int));
        }
        i += 1;
    }
    proof { assert(crate::text::texts(xs@).take(xs@.len() as int) =~= crate::text::texts(xs@)); }
}

fn x_add_symbolic(acc: &mut Vec<Vec<char>>, xs: &Vec<Vec<char>>)
    ensures
        vecs_model(final(acc)@) == add_symbolic(vecs_model(old(acc)@), vecs_model(xs@)),
{
    let mut i: usize = 0;
    let ghost start = vecs_model(acc@);
    proof { assert(vecs_model(xs@).take(0) =~= Seq::<Seq<char>>::empty()); }
    while i < xs.len()
        invariant
            i <= xs@.len(),
            start == vecs_model(old(acc)@),
            vecs_model(acc@) == add_symbolic(start, vecs_model(xs@).take(i as int)),
        decreases xs.len() - i,
    {
        proof {
            assert(vecs_model(xs@).take(i + 1).drop_last() =~= vecs_model(xs@).take(i as int));
            assert(vecs_model(xs@).take(i + 1).last() == xs@[i as int]@);
        }
        if u64_value_vec(xs[i].as_slice()).is_none() {
            x_add_new(acc, xs[i].as_slice());
        }
        i += 1;
    }
    proof { assert(vecs_model(xs@).take(xs@.len() as int) =~= vecs_model(xs@)); }
}

/// The three data-movement operations.
pub open spec fn is_movement(kind: Seq<char>) -> bool {
    kind == "loom.copy"@ || kind == "loom.broadcast"@ || kind == "loom.gather"@
}

/// The parameters `params` extended by the symbolic extents of the movement operations
/// `body[i..]`, which are checked on the way: no `area:`, and no extent on `loom.copy`.
pub open spec fn op_params(name: Seq<char>, body: Seq<Seq<char>>, i: int, params: Seq<Seq<char>>) -> Result<Seq<Seq<char>>, Seq<char>>
    decreases body.len() - i,
{
    if i < 0 || i >= body.len() {
        Ok(params)
    } else {
        let op = body[i];
        let kind = first_token(op);
        if !is_movement(kind) {
            op_params(name, body, i + 1, params)
        } else if contains_str(op, "area:"@) {
            Err("function '"@ + name + "' uses removed `area`; use `loom.broadcast` or `loom.gather` with optional `extent`"@)
        } else {
            match extent_items(op) {
                Err(e) => Err(e),
                Ok(None) => op_params(name, body, i + 1, params),
                Ok(Some(its)) => if kind == "loom.copy"@ {
                    Err("function '"@ + name + "' gives point-to-point `loom.copy` an `extent`"@)
                } else {
                    op_params(name, body, i + 1, add_symbolic(params, its))
                },
            }
        }
    }
}

pub fn text_is(kind: &[char], k: &str) -> (r: bool)
    ensures
        r == (kind@ == k@),
{
    let kc = chars_of(k);
    crate::text::chars_eq(kind, kc.as_slice())
}

fn x_op_params(name: &[char], body: &Vec<Vec<char>>, params: &mut Vec<Vec<char>>) -> (r: Result<(), String>)
    ensures
        match r {
            Ok(_) => op_params(name@, vecs_model(body@), 0, vecs_model(old(params)@)) == Ok::<Seq<Seq<char>>, Seq<char>>(vecs_model(final(params)@)),
            Err(e) => op_params(name@, vecs_model(body@), 0, vecs_model(old(params)@)) == Err::<Seq<Seq<char>>, Seq<char>>(e@),
        },
{
    let mut i: usize = 0;
    while i < body.len()
        invariant
            i <= body@.len(),
            op_params(name@, vecs_model(body@), 0, vecs_model(old(params)@))
                == op_params(name@, vecs_model(body@), i as int, vecs_model(params@)),
        decreases body.len() - i,
    {
        let op = &body[i];
        proof { assert(vecs_model(body@)[i as int] == op@); }
        let kind = first_token_vec(op.as_slice());
        let copy = text_is(kind.as_slice(), "loom.copy");
        let moving = copy || text_is(kind.as_slice(), "loom.broadcast") || text_is(kind.as_slice(), "loom.gather");
        if moving {
            if contains_str_vec(op.as_slice(), "area:") {
                let mut m = text2("function '", name);
                push_str(&mut m, "' uses removed `area`; use `loom.broadcast` or `loom.gather` with optional `extent`");
                return Err(m);
            }
            match x_extent_items(op.as_slice()) {
                Err(e) => { return Err(e); },
                Ok(None) => {},
                Ok(Some(its)) => {
                    if copy {
                        let mut m = text2("function '", name);
                        push_str(&mut m, "' gives point-to-point `loom.copy` an `extent`");
                        return Err(m);
                    }
                    x_add_symbolic(params, &its);
                },
            }
        }
        i += 1;
    }
    Ok(())
}

pub proof fn lemma_all_dims_concat(a: Seq<BufferModel>, b: Seq<BufferModel>)
    ensures
        all_dims(a + b) == all_dims(a) + all_dims(b),
    decreases b.len(),
{
    if b.len() == 0 {
        assert(a + b =~= a);
        assert(all_dims(a) + all_dims(b) =~= all_dims(a));
    } else {
        assert((a + b).drop_last() =~= a + b.drop_last());
        lemma_all_dims_concat(a, b.drop_last());
        assert(all_dims(a) + all_dims(b.drop_last()) + b.last().shape =~= all_dims(a) + (all_dims(b.drop_last()) + b.last().shape));
    }
}

fn x_dim_params(acc: &mut Vec<Vec<char>>, bufs: &Vec<Buffer>)
    ensures
        vecs_model(final(acc)@) == add_all_new(vecs_model(old(acc)@), all_dims(buffers_model(bufs@))),
{
    let mut j: usize = 0;
    let ghost start = vecs_model(acc@);
    proof {
        assert(buffers_model(bufs@).take(0) =~= Seq::<BufferModel>::empty());
    }
    while j < bufs.len()
        invariant
            j <= bufs@.len(),
            start == vecs_model(old(acc)@),
            vecs_model(acc@) == add_all_new(start, all_dims(buffers_model(bufs@).take(j as int))),
        decreases bufs.len() - j,
    {
        let ghost prev = all_dims(buffers_model(bufs@).take(j as int));
        add_new_texts(acc, &bufs[j].shape);
        proof {
            assert(buffers_model(bufs@).take(j + 1).drop_last() =~= buffers_model(bufs@).take(j as int));
            assert(crate::text::texts(bufs@[j as int].shape@) =~= bufs@[j as int]@.shape);
            lemma_add_all_new_concat(start, prev, bufs@[j as int]@.shape);
        }
        j += 1;
    }
    proof { assert(buffers_model(bufs@).take(bufs@.len() as int) =~= buffers_model(bufs@)); }
}

// ---------------------------------------------------------------------------
// One function

/// Model of a [`CompactFunction`].
pub ghost struct CompactModel {
    pub name: Seq<char>,
    pub params: Seq<Seq<char>>,
    pub inputs: Seq<BufferModel>,
    pub outputs: Seq<BufferModel>,
    pub body: Seq<Seq<char>>,
}

/// One function of a compact source: its name, its parameters (the shape symbols, then
/// the symbolic extents of its movement operations), its input and output buffers and
/// its body operations.
pub struct CompactFunction {
    pub name: String,
    pub params: Vec<String>,
    pub inputs: Vec<Buffer>,
    pub outputs: Vec<Buffer>,
    pub body: Vec<String>,
}

impl View for CompactFunction {
    type V = CompactModel;

    open spec fn view(&self) -> CompactModel {
        CompactModel {
            name: self.name@,
            params: crate::text::texts(self.params@),
            inputs: buffers_model(self.inputs@),
            outputs: buffers_model(self.outputs@),
            body: crate::text::texts(self.body@),
        }
    }
}

/// What a function block reads as.
pub open spec fn compact_model(block: Seq<char>) -> Result<CompactModel, Seq<char>> {
    match header_parts(block) {
        Err(e) => Err(e),
        Ok(h) => match signature_operands(h.1) {
            Err(e) => Err(e),
            Ok(ops) => match operand_buffers(h.0, ops, 0, Seq::empty(), Seq::empty()) {
                Err(e) => Err(e),
                Ok(io) => match body_ops(
                    h.0,
                    super::lex::trimmed_lines(block.subrange(h.2 + 1, block.len() - 1)),
                    0,
                    Seq::empty(),
                    None,
                ) {
                    Err(e) => Err(e),
                    Ok(body) => if io.0.len() == 0 && io.1.len() == 0 {
                        Err("function '"@ + h.0 + "' must declare at least one input or output"@)
                    } else if body.len() == 0 {
                        Err("function '"@ + h.0 + "' has an empty body"@)
                    } else {
                        match op_params(h.0, body, 0, add_all_new(Seq::empty(), all_dims(io.0 + io.1))) {
                            Err(e) => Err(e),
                            Ok(params) => Ok(CompactModel { name: h.0, params, inputs: io.0, outputs: io.1, body }),
                        }
                    },
                },
            },
        },
    }
}

/// A block whose first `{` is not its last character (the body between the first `{`
/// and the last character can be taken).
pub open spec fn block_shape_ok(block: Seq<char>) -> bool {
    first_at(block, '{') >= block.len() || first_at(block, '{') + 1 < block.len()
}

fn to_strings(v: Vec<Vec<char>>) -> (r: Vec<String>)
    ensures
        crate::text::texts(r@) == vecs_model(v@),
{
    let mut out: Vec<String> = Vec::new();
    let mut i: usize = 0;
    while i < v.len()
        invariant
            i <= v@.len(),
            crate::text::texts(out@) == vecs_model(v@).take(i as int),
        decreases v.len() - i,
    {
        let ghost before = out@;
        let t = crate::text::from_chars(v[i].as_slice());
        out.push(t);
        proof {
            assert(crate::text::texts(out@) =~= crate::text::texts(before).push(t@));
            assert(vecs_model(v@).take(i + 1) =~= vecs_model(v@).take(i as int).push(v@[i as int]@));
        }
        i += 1;
    }
    proof { assert(vecs_model(v@).take(v@.len() as int) =~= vecs_model(v@)); }
    out
}

/// Reads one function block.
pub fn parse_compact_function(block: &[char]) -> (r: Result<CompactFunction, String>)
    requires
        block_shape_ok(block@),
    ensures
        match r {
            Ok(f) => compact_model(block@) == Ok::<CompactModel, Seq<char>>(f@),
            Err(e) => compact_model(block@) == Err::<CompactModel, Seq<char>>(e@),
        },
{
    let (name, sig, open) = match x_header_parts(block) {
        Ok(h) => h,
        Err(e) => { return Err(e); },
    };
    let ops = match split_signature_operands(sig.as_slice()) {
        Ok(o) => o,
        Err(e) => { return Err(e); },
    };
    let (inputs, outputs) = match x_operand_buffers(name.as_slice(), &ops) {
        Ok(io) => io,
        Err(e) => { return Err(e); },
    };
    let n = block.len();
    let body_text = copy_range(block, open + 1, n - 1);
    let lines = super::lex::x_trimmed_lines(body_text.as_slice());
    proof { assert(super::lex::lines_model(lines@) =~= vecs_model(lines@)); }
    let body = match x_body_ops(name.as_slice(), &lines) {
        Ok(b) => b,
        Err(e) => { return Err(e); },
    };
    if inputs.len() == 0 && outputs.len() == 0 {
        let mut m = text2("function '", name.as_slice());
        push_str(&mut m, "' must declare at least one input or output");
        return Err(m);
    }
    if body.len() == 0 {
        let mut m = text2("function '", name.as_slice());
        push_str(&mut m, "' has an empty body");
        return Err(m);
    }
    let mut params: Vec<Vec<char>> = Vec::new();
    proof { assert(vecs_model(params@) =~= Seq::<Seq<char>>::empty()); }
    x_dim_params(&mut params, &inputs);
    x_dim_params(&mut params, &outputs);
    proof {
        lemma_all_dims_concat(buffers_model(inputs@), buffers_model(outputs@));
        lemma_add_all_new_concat(Seq::empty(), all_dims(buffers_model(inputs@)), all_dims(buffers_model(outputs@)));
    }
    match x_op_params(name.as_slice(), &body, &mut params) {
        Ok(_) => {},
        Err(e) => { return Err(e); },
    }
    let f = CompactFunction {
        name: crate::text::from_chars(name.as_slice()),
        params: to_strings(params),
        inputs,
        outputs,
        body: to_strings(body),
    };
    Ok(f)
}

} // verus!
