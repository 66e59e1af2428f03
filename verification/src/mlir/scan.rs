//! Whole-text scans of an MLIR function: its header, its argument list, `outs(..)` operands
//! and the `linalg.*` operations it names.
use vstd::prelude::*;

use crate::arch::index_parser::{ident_end, skip_ws, x_ident_end, x_skip_ws};
use crate::text::has_prefix_at;
use super::lex::{closing_at, ident_at, lemma_ends, ssa_at, x_closing_at, x_ident_at, x_ssa_at};

verus! {

/// The first `i >= a` at which `t` starts, or `s.len()`.
pub open spec fn find_str(s: Seq<char>, a: int, t: Seq<char>) -> int
    decreases s.len() - a,
{
    if a < 0 || a >= s.len() {
        s.len() as int
    } else if has_prefix_at(s, a, t) {
        a
    } else {
        find_str(s, a + 1, t)
    }
}

pub proof fn lemma_find_str(s: Seq<char>, a: int, t: Seq<char>)
    requires
        0 <= a,
    ensures
        find_str(s, a, t) == s.len() || (a <= find_str(s, a, t) < s.len() && has_prefix_at(s, find_str(s, a, t), t)),
    decreases s.len() - a,
{
    if a < s.len() && !has_prefix_at(s, a, t) {
        lemma_find_str(s, a + 1, t);
    }
}

pub fn x_find_str(s: &[char], a: usize, t: &[char]) -> (r: usize)
    ensures
        r as int == find_str(s@, a as int, t@),
        r <= s@.len() || r == a,
{
    if a >= s.len() {
        return s.len();
    }
    let mut i = a;
    while i < s.len()
        invariant
            a <= i <= s@.len(),
            find_str(s@, a as int, t@) == find_str(s@, i as int, t@),
        decreases s@.len() - i,
    {
        if t.len() <= s.len() - i && crate::text::starts_with_at(s, i, t) {
            return i;
        }
        i += 1;
    }
    s.len()
}

/// `func.func @name (args)` somewhere in `s`: the name, and the range of the arguments.
pub open spec fn func_header(s: Seq<char>) -> Option<(Seq<char>, int, int)> {
    let k = find_str(s, 0, "func.func @"@);
    if k >= s.len() {
        None
    } else {
        match ident_at(s, k + 11) {
            None => None,
            Some(e) => {
                let q = skip_ws(s, e);
                match closing_at(s, q, '(', ')') {
                    None => None,
                    Some(c) => Some((s.subrange(k + 11, e), q + 1, c)),
                }
            },
        }
    }
}

pub fn x_func_header(s: &[char]) -> (r: Option<(String, usize, usize)>)
    ensures
        match r {
            Some((n, lo, hi)) => func_header(s@) == Some((n@, lo as int, hi as int)) && lo <= hi <= s@.len(),
            None => func_header(s@) is None,
        },
{
    let pat = crate::text::chars_of("func.func @");
    let k = x_find_str(s, 0, pat.as_slice());
    proof { reveal_strlit("func.func @"); lemma_find_str(s@, 0, pat@); }
    if k >= s.len() {
        return None;
    }
    let e = match x_ident_at(s, k + 11) {
        None => return None,
        Some(e) => e,
    };
    proof { lemma_ends(s@, k + 11); lemma_ends(s@, e as int); }
    let q = x_skip_ws(s, e);
    match x_closing_at(s, q, '(', ')') {
        None => None,
        Some(c) => Some((crate::text::from_char_range(s, k + 11, e), q + 1, c)),
    }
}

/// Comma-separated ranges of `s[start..end)` outside `<>`, `()` and `[]`; a closing
/// bracket without an opening one leaves its depth at zero.
pub open spec fn mlir_split(s: Seq<char>, start: int, i: int, end: int, da: nat, dp: nat, db: nat) -> Seq<(int, int)>
    decreases end - i,
{
    if i >= end {
        seq![(start, end)]
    } else if s[i] == '<' {
        mlir_split(s, start, i + 1, end, da + 1, dp, db)
    } else if s[i] == '>' {
        mlir_split(s, start, i + 1, end, if da > 0 { (da - 1) as nat } else { 0 }, dp, db)
    } else if s[i] == '(' {
        mlir_split(s, start, i + 1, end, da, dp + 1, db)
    } else if s[i] == ')' {
        mlir_split(s, start, i + 1, end, da, if dp > 0 { (dp - 1) as nat } else { 0 }, db)
    } else if s[i] == '[' {
        mlir_split(s, start, i + 1, end, da, dp, db + 1)
    } else if s[i] == ']' {
        mlir_split(s, start, i + 1, end, da, dp, if db > 0 { (db - 1) as nat } else { 0 })
    } else if s[i] == ',' && da == 0 && dp == 0 && db == 0 {
        seq![(start, i)] + mlir_split(s, i + 1, i + 1, end, 0, 0, 0)
    } else {
        mlir_split(s, start, i + 1, end, da, dp, db)
    }
}

pub open spec fn ranges_model(v: Seq<(usize, usize)>) -> Seq<(int, int)> {
    v.map_values(|p: (usize, usize)| (p.0 as int, p.1 as int))
}

pub fn x_mlir_split(s: &[char], a: usize, b: usize) -> (r: Vec<(usize, usize)>)
    requires
        a <= b <= s@.len(),
    ensures
        ranges_model(r@) == mlir_split(s@, a as int, a as int, b as int, 0, 0, 0),
        forall|k: int| 0 <= k < r@.len() ==> a <= (#[trigger] r@[k]).0 <= r@[k].1 <= b,
{
    let mut out: Vec<(usize, usize)> = Vec::new();
    let mut start = a;
    let mut i = a;
    let mut da: usize = 0;
    let mut dp: usize = 0;
    let mut db: usize = 0;
    while i < b
        invariant
            a <= start <= i <= b <= s@.len(),
            da <= i,
            dp <= i,
            db <= i,
            ranges_model(out@) + mlir_split(s@, start as int, i as int, b as int, da as nat, dp as nat, db as nat)
                == mlir_split(s@, a as int, a as int, b as int, 0, 0, 0),
            forall|k: int| 0 <= k < out@.len() ==> a <= (#[trigger] out@[k]).0 <= out@[k].1 <= start,
        decreases b - i,
    {
        let c = s[i];
        if c == '<' {
            da += 1;
        } else if c == '>' {
            if da > 0 {
                da -= 1;
            }
        } else if c == '(' {
            dp += 1;
        } else if c == ')' {
            if dp > 0 {
                dp -= 1;
            }
        } else if c == '[' {
            db += 1;
        } else if c == ']' {
            if db > 0 {
                db -= 1;
            }
        } else if c == ',' && da == 0 && dp == 0 && db == 0 {
            let ghost before = out@;
            out.push((start, i));
            proof {
                assert(ranges_model(out@) =~= ranges_model(before) + seq![(start as int, i as int)]);
                assert(ranges_model(out@) + mlir_split(s@, i + 1, i + 1, b as int, 0, 0, 0)
                    =~= ranges_model(before) + (seq![(start as int, i as int)] + mlir_split(s@, i + 1, i + 1, b as int, 0, 0, 0)));
            }
            start = i + 1;
        }
        i += 1;
    }
    let ghost before = out@;
    out.push((start, b));
    proof { assert(ranges_model(out@) =~= ranges_model(before) + seq![(start as int, b as int)]); }
    out
}

/// Adds `x` to a list of names unless it is there already.
pub open spec fn add_name(v: Seq<Seq<char>>, x: Seq<char>) -> Seq<Seq<char>> {
    if v.contains(x) { v } else { v.push(x) }
}

pub open spec fn texts_model(v: Seq<String>) -> Seq<Seq<char>> {
    v.map_values(|x: String| x@)
}

/// Adds a name to a list unless it is there already.
pub fn add_text(v: &mut Vec<String>, x: &str)
    ensures
        texts_model(final(v)@) == add_name(texts_model(old(v)@), x@),
{
    let mut i: usize = 0;
    while i < v.len()
        invariant
            i <= v@.len(),
            forall|k: int| 0 <= k < i ==> v@[k]@ != x@,
        decreases v.len() - i,
    {
        if crate::text::str_eq(v[i].as_str(), x) {
            proof { assert(texts_model(v@)[i as int] == x@); }
            return;
        }
        i += 1;
    }
    proof {
        assert(!texts_model(v@).contains(x@)) by {
            if texts_model(v@).contains(x@) {
                let k = choose|k: int| 0 <= k < texts_model(v@).len() && texts_model(v@)[k] == x@;
                assert(v@[k]@ == x@);
            }
        }
    }
    let ghost before = v@;
    v.push(crate::text::owned(x));
    proof { assert(texts_model(v@) =~= texts_model(before).push(x@)); }
}

/// The operand names inside one `outs(..)` group, each added once.
pub open spec fn outs_names(s: Seq<char>, rs: Seq<(int, int)>, acc: Seq<Seq<char>>) -> Seq<Seq<char>>
    decreases rs.len(),
{
    if rs.len() == 0 {
        acc
    } else {
        let lo = crate::text::trimmed(s, rs[0].0, rs[0].1).0;
        let hi = crate::text::trimmed(s, rs[0].0, rs[0].1).1;
        let acc2 = match ssa_at(s.subrange(lo, hi), 0) {
            Some(e) => add_name(acc, s.subrange(lo, hi).subrange(1, e)),
            None => acc,
        };
        outs_names(s, rs.drop_first(), acc2)
    }
}

/// The names of `outs(..)` operands from `cursor` on, each once, or an error when a
/// group does not close.
pub open spec fn outs_from(s: Seq<char>, cursor: int, acc: Seq<Seq<char>>) -> Result<Seq<Seq<char>>, Seq<char>>
    decreases s.len() - cursor,
{
    if cursor < 0 {
        Ok(acc)
    } else {
        let k = find_str(s, cursor, "outs("@);
        if k >= s.len() {
            Ok(acc)
        } else {
            match closing_at(s, k + 4, '(', ')') {
                None => Err("unbalanced parentheses in 'outs' operands"@),
                Some(c) => if c < cursor {
                    Ok(acc)
                } else {
                    proof { super::lex::lemma_balanced(s, k + 5, 1, '(', ')'); }
                    outs_from(s, c + 1, outs_names(s, mlir_split(s, k + 5, k + 5, c, 0, 0, 0), acc))
                },
            }
        }
    }
}

fn x_outs_group(s: &[char], lo: usize, hi: usize, acc: &mut Vec<String>)
    requires
        lo <= hi <= s@.len(),
    ensures
        texts_model(final(acc)@) == outs_names(s@, mlir_split(s@, lo as int, lo as int, hi as int, 0, 0, 0), texts_model(old(acc)@)),
{
    let rs = x_mlir_split(s, lo, hi);
    let ghost all = ranges_model(rs@);
    let mut i: usize = 0;
    proof { assert(all.skip(0) =~= all); }
    while i < rs.len()
        invariant
            i <= rs@.len(),
            all == ranges_model(rs@),
            all == mlir_split(s@, lo as int, lo as int, hi as int, 0, 0, 0),
            forall|k: int| 0 <= k < rs@.len() ==> lo <= (#[trigger] rs@[k]).0 <= rs@[k].1 <= hi,
            hi <= s@.len(),
            outs_names(s@, all, texts_model(old(acc)@)) == outs_names(s@, all.skip(i as int), texts_model(acc@)),
        decreases rs.len() - i,
    {
        let (a, b) = rs[i];
        let (tl, th) = crate::text::trim_range(s, a, b);
        let piece = vstd::slice::slice_subrange(s, tl, th);
        proof {
            assert(piece@ == s@.subrange(tl as int, th as int));
            assert(all.skip(i as int)[0] == (a as int, b as int));
            assert(all.skip(i as int).drop_first() =~= all.skip(i + 1));
        }
        match x_ssa_at(piece, 0) {
            Some(e) => {
                let name = crate::text::from_char_range(piece, 1, e);
                proof { assert(name@ == s@.subrange(tl as int, th as int).subrange(1, e as int)); }
                add_text(acc, name.as_str());
            },
            None => {},
        }
        i += 1;
    }
}

pub fn x_outs_operands(s: &[char]) -> (r: Result<Vec<String>, String>)
    ensures
        match r {
            Ok(v) => outs_from(s@, 0, Seq::empty()) == Ok::<Seq<Seq<char>>, Seq<char>>(texts_model(v@)),
            Err(m) => outs_from(s@, 0, Seq::empty()) == Err::<Seq<Seq<char>>, Seq<char>>(m@),
        },
{
    let mut acc: Vec<String> = Vec::new();
    let pat = crate::text::chars_of("outs(");
    proof { reveal_strlit("outs("); assert(texts_model(acc@) =~= Seq::<Seq<char>>::empty()); }
    let mut cursor: usize = 0;
    loop
        invariant
            cursor <= s@.len() + 1,
            pat@ == "outs("@,
            outs_from(s@, 0, Seq::empty()) == outs_from(s@, cursor as int, texts_model(acc@)),
        decreases s@.len() + 1 - cursor,
    {
        let k = x_find_str(s, cursor, pat.as_slice());
        if k >= s.len() {
            return Ok(acc);
        }
        proof { reveal_strlit("outs("); lemma_find_str(s@, cursor as int, pat@); }
        match x_closing_at(s, k + 4, '(', ')') {
            None => return Err(crate::text::owned("unbalanced parentheses in 'outs' operands")),
            Some(c) => {
                if c < cursor {
                    return Ok(acc);
                }
                x_outs_group(s, k + 5, c, &mut acc);
                cursor = c + 1;
            },
        }
    }
}

/// Every `linalg.<name>` that a line of code names, in order, repeats included.
pub open spec fn linalg_names(c: Seq<char>, cursor: int) -> Seq<Seq<char>>
    decreases c.len() - cursor,
{
    if cursor < 0 {
        Seq::empty()
    } else {
        let k = find_str(c, cursor, "linalg."@);
        if k >= c.len() {
            Seq::empty()
        } else {
            proof { reveal_strlit("linalg."); lemma_find_str(c, cursor, "linalg."@); }
            let op_end = ident_end(c, k + 7);
            if k + 7 <= cursor {
                Seq::empty()
            } else if op_end > k + 7 {
                seq!["linalg."@ + c.subrange(k + 7, op_end)] + linalg_names(c, k + 7)
            } else {
                linalg_names(c, k + 7)
            }
        }
    }
}

/// The code of a (trimmed) line: the part before `//`, trimmed.
pub open spec fn code_of(l: Seq<char>) -> Seq<char> {
    let k = find_str(l, 0, "//"@);
    let (lo, hi) = crate::text::trimmed(l, 0, k);
    l.subrange(lo, hi)
}

/// Adds every name of `names` not yet in `acc`, in order.
pub open spec fn add_names(acc: Seq<Seq<char>>, names: Seq<Seq<char>>) -> Seq<Seq<char>>
    decreases names.len(),
{
    if names.len() == 0 { acc } else { add_names(add_name(acc, names[0]), names.drop_first()) }
}

/// Adds the `linalg.*` operations of a line that `acc` does not hold yet.
pub fn x_line_linalg(l: &[char], acc: &mut Vec<String>)
    ensures
        texts_model(final(acc)@) == add_names(texts_model(old(acc)@), linalg_names(code_of(l@), 0)),
{
    let dslash = crate::text::chars_of("//");
    proof { reveal_strlit("//"); lemma_find_str(l@, 0, dslash@); }
    let k = x_find_str(l, 0, dslash.as_slice());
    let (lo, hi) = crate::text::trim_range(l, 0, k);
    let code = vstd::slice::slice_subrange(l, lo, hi);
    proof { assert(code@ == code_of(l@)); }
    let pat = crate::text::chars_of("linalg.");
    proof { reveal_strlit("linalg."); }
    let mut cursor: usize = 0;
    loop
        invariant
            cursor <= code@.len() + 7,
            pat@ == "linalg."@,
            code@ == code_of(l@),
            add_names(texts_model(old(acc)@), linalg_names(code@, 0)) == add_names(texts_model(acc@), linalg_names(code@, cursor as int)),
        decreases code@.len() + 7 - cursor,
    {
        let k2 = x_find_str(code, cursor, pat.as_slice());
        if k2 >= code.len() {
            return;
        }
        proof { reveal_strlit("linalg."); lemma_find_str(code@, cursor as int, pat@); }
        let op_start = k2 + 7;
        if op_start <= cursor {
            return;
        }
        let op_end = x_ident_end(code, op_start);
        proof { crate::arch::index_parser::lemma_run_ends(code@, op_start as int); }
        if op_end > op_start {
            let mut name = crate::text::owned("linalg.");
            crate::text::push_chars(&mut name, vstd::slice::slice_subrange(code, op_start, op_end));
            proof {
                let rest = linalg_names(code@, op_start as int);
                assert((seq![name@] + rest).drop_first() =~= rest);
                assert((seq![name@] + rest)[0] == name@);
            }
            add_text(acc, name.as_str());
        }
        cursor = op_start;
    }
}

} // verus!
