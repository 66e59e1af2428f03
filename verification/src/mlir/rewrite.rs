//! Renaming the symbols of a processor's MLIR source for an exported architecture: the
//! module symbol, and the memory symbols of `loom.bind_mem` and of the copy memory spaces.
use vstd::prelude::*;

use crate::text::{chars_of, is_space, push_chars, push_str};
use super::ctext::{copy_range, contains_str, contains_str_vec};
use super::lex::starts;
use super::lower::rust_lines;
use super::scan::{find_str, lemma_find_str, x_find_str};

verus! {

/// The value of the first entry named `k`.
pub open spec fn lookup(m: Seq<(Seq<char>, Seq<char>)>, k: Seq<char>) -> Option<Seq<char>>
    decreases m.len(),
{
    if m.len() == 0 {
        None
    } else if m[0].0 == k {
        Some(m[0].1)
    } else {
        lookup(m.drop_first(), k)
    }
}

pub open spec fn pairs_model(m: Seq<(String, String)>) -> Seq<(Seq<char>, Seq<char>)> {
    m.map_values(|p: (String, String)| (p.0@, p.1@))
}

fn x_lookup(m: &[(String, String)], k: &[char]) -> (r: Option<Vec<char>>)
    ensures
        match r {
            Some(v) => lookup(pairs_model(m@), k@) == Some(v@),
            None => lookup(pairs_model(m@), k@) is None,
        },
{
    let ghost pm = pairs_model(m@);
    let mut i: usize = 0;
    proof { assert(pm.skip(0) =~= pm); }
    while i < m.len()
        invariant
            i <= m@.len(),
            pm == pairs_model(m@),
            lookup(pm, k@) == lookup(pm.skip(i as int), k@),
        decreases m.len() - i,
    {
        proof {
            assert(pm.skip(i as int).drop_first() =~= pm.skip(i + 1));
            assert(pm.skip(i as int)[0] == (m@[i as int].0@, m@[i as int].1@));
        }
        let key = chars_of(m[i].0.as_str());
        if crate::text::chars_eq(key.as_slice(), k) {
            return Some(chars_of(m[i].1.as_str()));
        }
        i += 1;
    }
    proof { assert(pm.skip(m@.len() as int) =~= Seq::<(Seq<char>, Seq<char>)>::empty()); }
    None
}

/// The first index at or after `p` of whitespace or one of `c1`, `c2`, or the length.
pub open spec fn stop_at(s: Seq<char>, p: int, c1: char, c2: char) -> int
    decreases s.len() - p,
{
    if 0 <= p < s.len() && !(is_space(s[p]) || s[p] == c1 || s[p] == c2) { stop_at(s, p + 1, c1, c2) } else { p }
}

pub proof fn lemma_stop_at(s: Seq<char>, p: int, c1: char, c2: char)
    requires
        0 <= p <= s.len(),
    ensures
        p <= stop_at(s, p, c1, c2) <= s.len(),
    decreases s.len() - p,
{
    if p < s.len() && !(is_space(s[p]) || s[p] == c1 || s[p] == c2) {
        lemma_stop_at(s, p + 1, c1, c2);
    }
}

fn x_stop_at(s: &[char], p: usize, c1: char, c2: char) -> (r: usize)
    requires
        p <= s@.len(),
    ensures
        r as int == stop_at(s@, p as int, c1, c2),
        p <= r <= s@.len(),
{
    let mut i = p;
    while i < s.len() && !(crate::text::space(s[i]) || s[i] == c1 || s[i] == c2)
        invariant
            p <= i <= s@.len(),
            stop_at(s@, p as int, c1, c2) == stop_at(s@, i as int, c1, c2),
        decreases s.len() - i,
    {
        i += 1;
    }
    i
}

/// The symbol of a `module @name` line: up to whitespace or `{`, and not empty.
pub open spec fn module_symbol(line: Seq<char>) -> Option<Seq<char>> {
    let t = line.skip(crate::text::trim_lo(line, 0, line.len() as int));
    let rest = t.skip("module @"@.len() as int);
    let end = stop_at(rest, 0, '{', '{');
    if starts(t, "module @"@) && end > 0 { Some(rest.take(end)) } else { None }
}

/// `line` with its first `from` replaced by `to`.
pub open spec fn replace_first(line: Seq<char>, from: Seq<char>, to: Seq<char>) -> Seq<char> {
    let k = find_str(line, 0, from);
    if k < line.len() { line.take(k) + to + line.skip(k + from.len()) } else { line }
}

/// A `module @name` line with a renamed processor.
pub open spec fn module_line(line: Seq<char>, pm: Seq<(Seq<char>, Seq<char>)>) -> Option<Seq<char>> {
    match module_symbol(line) {
        None => None,
        Some(sym) => match lookup(pm, sym) {
            None => None,
            Some(p) => Some(replace_first(line, "@"@ + sym, "@"@ + p)),
        },
    }
}

/// The memory symbol after `marker` renamed.
pub open spec fn marker_line(line: Seq<char>, marker: Seq<char>, mm: Seq<(Seq<char>, Seq<char>)>) -> Seq<char> {
    let k = find_str(line, 0, marker);
    let start = k + marker.len();
    let after = line.skip(start);
    let end = stop_at(after, 0, ',', ':');
    if k >= line.len() {
        line
    } else {
        match lookup(mm, after.take(end)) {
            None => line,
            Some(p) => line.take(start) + p + after.skip(end),
        }
    }
}

/// A `loom.bind_mem` line with its memory, the symbol after the first `, @`, renamed.
pub open spec fn bind_mem_line(line: Seq<char>, mm: Seq<(Seq<char>, Seq<char>)>) -> Seq<char> {
    if contains_str(line, "loom.bind_mem"@) { marker_line(line, ", @"@, mm) } else { line }
}

/// One line after the memory renamings.
pub open spec fn memory_renamed(line: Seq<char>, mm: Seq<(Seq<char>, Seq<char>)>) -> Seq<char> {
    marker_line(marker_line(bind_mem_line(line, mm), "src_mem_space @"@, mm), "dst_mem_space @"@, mm)
}

/// The lines from `i` on rewritten, the module symbol only on its first renamable line.
pub open spec fn rewrite_lines(
    ls: Seq<Seq<char>>,
    i: int,
    done: bool,
    pm: Seq<(Seq<char>, Seq<char>)>,
    mm: Seq<(Seq<char>, Seq<char>)>,
) -> Seq<char>
    decreases ls.len() - i,
{
    if i < 0 || i >= ls.len() {
        Seq::empty()
    } else {
        let m = if done { None } else { module_line(ls[i], pm) };
        let l = match m { Some(x) => x, None => ls[i] };
        memory_renamed(l, mm) + "\n"@ + rewrite_lines(ls, i + 1, done || m is Some, pm, mm)
    }
}

/// A processor source with its module and memory symbols renamed; line endings become
/// `\n`, and a final newline is kept only where the source has one.
pub open spec fn rewritten_source(content: Seq<char>, pm: Seq<(Seq<char>, Seq<char>)>, mm: Seq<(Seq<char>, Seq<char>)>) -> Seq<char> {
    let r = rewrite_lines(rust_lines(content), 0, false, pm, mm);
    if content.len() > 0 && content.last() == '\n' { r } else if r.len() > 0 { r.drop_last() } else { r }
}

fn x_module_line(line: &[char], pm: &[(String, String)]) -> (r: Option<Vec<char>>)
    ensures
        match r {
            Some(v) => module_line(line@, pairs_model(pm@)) == Some(v@),
            None => module_line(line@, pairs_model(pm@)) is None,
        },
{
    let (lo, _) = crate::text::trim_range(line, 0, line.len());
    proof {
        crate::text::lemma_trim_bounds(line@, 0, line@.len() as int);
        assert(crate::text::trimmed(line@, 0, line@.len() as int).0 == crate::text::trim_lo(line@, 0, line@.len() as int));
    }
    let n = line.len();
    let t = copy_range(line, lo, n);
    proof { assert(t@ =~= line@.skip(crate::text::trim_lo(line@, 0, line@.len() as int))); }
    if !super::lex::x_starts(t.as_slice(), "module @") {
        return None;
    }
    let pre = chars_of("module @");
    let tn = t.len();
    let rest = copy_range(t.as_slice(), pre.len(), tn);
    proof { assert(rest@ =~= t@.skip("module @"@.len() as int)); }
    let end = x_stop_at(rest.as_slice(), 0, '{', '{');
    if end == 0 {
        return None;
    }
    let sym = copy_range(rest.as_slice(), 0, end);
    proof { assert(sym@ =~= rest@.take(end as int)); }
    let p = match x_lookup(pm, sym.as_slice()) {
        Some(p) => p,
        None => { return None; },
    };
    let mut from: Vec<char> = Vec::new();
    from.push('@');
    super::compact::push_all(&mut from, sym.as_slice());
    proof { assert(from@ =~= "@"@ + sym@) by { reveal_strlit("@"); } }
    let k = x_find_str(line, 0, from.as_slice());
    if k < n {
        proof { lemma_find_str(line@, 0, from@); }
        let mut out = copy_range(line, 0, k);
        out.push('@');
        super::compact::push_all(&mut out, p.as_slice());
        let tail = copy_range(line, k + from.len(), n);
        super::compact::push_all(&mut out, tail.as_slice());
        proof {
            assert(out@ =~= line@.take(k as int) + ("@"@ + p@) + line@.skip(k + from@.len())) by { reveal_strlit("@"); }
        }
        Some(out)
    } else {
        Some(copy_range(line, 0, n))
    }
}

fn x_marker_line(line: &[char], marker: &str, mm: &[(String, String)]) -> (r: Vec<char>)
    ensures
        r@ == marker_line(line@, marker@, pairs_model(mm@)),
{
    let mk = chars_of(marker);
    let n = line.len();
    let k = x_find_str(line, 0, mk.as_slice());
    if k >= n {
        let all = copy_range(line, 0, n);
        proof { assert(all@ =~= line@); }
        return all;
    }
    proof { lemma_find_str(line@, 0, marker@); }
    let start = k + mk.len();
    let after = copy_range(line, start, n);
    proof { assert(after@ =~= line@.skip(start as int)); }
    let end = x_stop_at(after.as_slice(), 0, ',', ':');
    let sym = copy_range(after.as_slice(), 0, end);
    proof { assert(sym@ =~= after@.take(end as int)); }
    match x_lookup(mm, sym.as_slice()) {
        None => {
            let all = copy_range(line, 0, n);
            proof { assert(all@ =~= line@); }
            all
        },
        Some(p) => {
            let mut out = copy_range(line, 0, start);
            super::compact::push_all(&mut out, p.as_slice());
            let an = after.len();
            let tail = copy_range(after.as_slice(), end, an);
            super::compact::push_all(&mut out, tail.as_slice());
            proof {
                assert(out@ =~= line@.take(start as int) + p@ + after@.skip(end as int));
            }
            out
        },
    }
}

fn x_memory_renamed(line: &[char], mm: &[(String, String)]) -> (r: Vec<char>)
    ensures
        r@ == memory_renamed(line@, pairs_model(mm@)),
{
    let b = if contains_str_vec(line, "loom.bind_mem") {
        x_marker_line(line, ", @", mm)
    } else {
        copy_range(line, 0, line.len())
    };
    proof { assert(b@ =~= bind_mem_line(line@, pairs_model(mm@))); }
    let s = x_marker_line(b.as_slice(), "src_mem_space @", mm);
    x_marker_line(s.as_slice(), "dst_mem_space @", mm)
}

/// Renames the module symbol (by the processor names) and the memory symbols (by the
/// memory names) of an MLIR source.
pub fn rewrite_mlir_source(content: &str, processor_name_map: &[(String, String)], memory_name_map: &[(String, String)]) -> (r: String)
    ensures
        r@ == rewritten_source(content@, pairs_model(processor_name_map@), pairs_model(memory_name_map@)),
{
    let ghost pm = pairs_model(processor_name_map@);
    let ghost mm = pairs_model(memory_name_map@);
    let c = chars_of(content);
    let ls = super::lower::lines_vec(c.as_slice());
    let ghost lm = super::compact::vecs_model(ls@);
    let mut out = String::new();
    let mut done = false;
    let mut i: usize = 0;
    proof { assert(out@ =~= Seq::<char>::empty()); }
    while i < ls.len()
        invariant
            i <= ls@.len(),
            lm == super::compact::vecs_model(ls@),
            pm == pairs_model(processor_name_map@),
            mm == pairs_model(memory_name_map@),
            rewrite_lines(lm, 0, false, pm, mm) == out@ + rewrite_lines(lm, i as int, done, pm, mm),
        decreases ls.len() - i,
    {
        let line = &ls[i];
        proof { assert(lm[i as int] == line@); }
        let mut l = copy_range(line.as_slice(), 0, line.len());
        proof { assert(l@ =~= line@); }
        if !done {
            match x_module_line(line.as_slice(), processor_name_map) {
                Some(m) => {
                    l = m;
                    done = true;
                },
                None => {},
            }
        }
        let r = x_memory_renamed(l.as_slice(), memory_name_map);
        let ghost before = out@;
        push_chars(&mut out, r.as_slice());
        push_str(&mut out, "\n");
        proof {
            assert(out@ =~= before + (r@ + "\n"@));
        }
        i += 1;
    }
    let ghost full = out@;
    proof { assert(lm == rust_lines(content@)); }
    if !(c.len() > 0 && c[c.len() - 1] == '\n') {
        let oc = chars_of(out.as_str());
        if oc.len() > 0 {
            let trimmed = crate::text::from_char_range(oc.as_slice(), 0, oc.len() - 1);
            proof { assert(trimmed@ =~= full.drop_last()); }
            return trimmed;
        }
    }
    out
}

} // verus!
