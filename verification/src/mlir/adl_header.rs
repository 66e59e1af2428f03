//! The header of a processor's MLIR module: its symbol name and its attribute dictionary,
//! read with comments and strings skipped, and rewritten for export.
use vstd::prelude::*;

use crate::arch::axis::Axis;
use crate::mlir::scan::{find_str, lemma_find_str, x_find_str};
use crate::text::{chars_of, find_char, has_prefix_at, is_space, lemma_find_char, push_str, starts_with_at};

verus! {

/// Unicode white space, as `char::is_whitespace` takes it.
pub open spec fn is_white(c: char) -> bool {
    let n = c as u32;
    (9 <= n <= 13) || n == 32 || n == 0x85 || n == 0xA0 || n == 0x1680 || (0x2000 <= n <= 0x200A)
        || n == 0x2028 || n == 0x2029 || n == 0x202F || n == 0x205F || n == 0x3000
}

pub fn white(c: char) -> (r: bool)
    ensures
        r == is_white(c),
{
    let n = c as u32;
    (9 <= n && n <= 13) || n == 32 || n == 0x85 || n == 0xA0 || n == 0x1680 || (0x2000 <= n && n <= 0x200A)
        || n == 0x2028 || n == 0x2029 || n == 0x202F || n == 0x205F || n == 0x3000
}

/// The first position in `[a, b)` that is not white space, or `b`.
pub open spec fn white_lo(s: Seq<char>, a: int, b: int) -> int
    decreases b - a,
{
    if a < b && is_white(s[a]) { white_lo(s, a + 1, b) } else { a }
}

/// The end of `[a, b)` with trailing white space left out.
pub open spec fn white_hi(s: Seq<char>, a: int, b: int) -> int
    decreases b - a,
{
    if a < b && is_white(s[b - 1]) { white_hi(s, a, b - 1) } else { b }
}

/// `s[a..b]` without leading and trailing white space, as `str::trim` gives it.
pub open spec fn trim_range(s: Seq<char>, a: int, b: int) -> (int, int) {
    let lo = white_lo(s, a, b);
    (lo, white_hi(s, lo, b))
}

pub open spec fn trimmed(s: Seq<char>) -> Seq<char> {
    let (lo, hi) = trim_range(s, 0, s.len() as int);
    s.subrange(lo, hi)
}

pub fn x_trim_range(s: &[char], a: usize, b: usize) -> (r: (usize, usize))
    requires
        a <= b <= s@.len(),
    ensures
        (r.0 as int, r.1 as int) == trim_range(s@, a as int, b as int),
        a <= r.0 <= r.1 <= b,
{
    let mut lo = a;
    while lo < b && white(s[lo])
        invariant
            a <= lo <= b <= s@.len(),
            white_lo(s@, a as int, b as int) == white_lo(s@, lo as int, b as int),
        decreases b - lo,
    {
        lo += 1;
    }
    let mut hi = b;
    while hi > lo && white(s[hi - 1])
        invariant
            lo <= hi <= b <= s@.len(),
            white_hi(s@, lo as int, b as int) == white_hi(s@, lo as int, hi as int),
        decreases hi - lo,
    {
        hi -= 1;
    }
    (lo, hi)
}

pub open spec fn unterminated_string() -> Seq<char> { "unterminated string in module header"@ }
pub open spec fn unterminated_comment() -> Seq<char> { "unterminated block comment in module header"@ }
pub open spec fn unterminated_delimiter() -> Seq<char> { "unterminated delimiter in module header"@ }

/// The position after the string whose contents start at `c`: a backslash skips the
/// character after it.
pub open spec fn string_end(s: Seq<char>, c: int) -> Result<int, Seq<char>>
    decreases s.len() + 2 - c,
{
    if c < 0 || c >= s.len() {
        Err(unterminated_string())
    } else if s[c] == '\\' {
        string_end(s, c + 2)
    } else if s[c] == '"' {
        Ok(c + 1)
    } else {
        string_end(s, c + 1)
    }
}

/// The position after the string literal that opens at `start`.
pub open spec fn scan_string(s: Seq<char>, start: int) -> Result<int, Seq<char>> {
    string_end(s, start + 1)
}

/// The position after the white space and comments from `c` on; a block comment that
/// never closes is an error.
pub open spec fn trivia_end(s: Seq<char>, c: int) -> Result<int, Seq<char>>
    decreases s.len() + 1 - c,
{
    proof {
        reveal_strlit("//");
        reveal_strlit("/*");
        reveal_strlit("*/");
    }
    if c < 0 || c > s.len() {
        Ok(c)
    } else if c < s.len() && is_space(s[c]) {
        trivia_end(s, c + 1)
    } else if has_prefix_at(s, c, "//"@) {
        let nl = find_char(s, c, s.len() as int, '\n');
        proof { lemma_find_char(s, c, s.len() as int, '\n'); }
        if nl < s.len() { trivia_end(s, nl + 1) } else { trivia_end(s, s.len() as int) }
    } else if has_prefix_at(s, c, "/*"@) {
        let e = find_str(s, c + 2, "*/"@);
        proof { lemma_find_str(s, c + 2, "*/"@); }
        if e < s.len() { trivia_end(s, e + 2) } else { Err(unterminated_comment()) }
    } else {
        Ok(c)
    }
}

pub proof fn lemma_string_end(s: Seq<char>, c: int)
    ensures
        string_end(s, c) matches Ok(e) ==> c < e <= s.len(),
    decreases s.len() + 2 - c,
{
    if 0 <= c < s.len() {
        if s[c] == '\\' {
            lemma_string_end(s, c + 2);
        } else if s[c] != '"' {
            lemma_string_end(s, c + 1);
        }
    }
}

pub proof fn lemma_trivia_end(s: Seq<char>, c: int)
    requires
        0 <= c <= s.len(),
    ensures
        trivia_end(s, c) matches Ok(e) ==> c <= e <= s.len(),
    decreases s.len() + 1 - c,
{
    reveal_strlit("//");
    reveal_strlit("/*");
    reveal_strlit("*/");
    if c < s.len() && is_space(s[c]) {
        lemma_trivia_end(s, c + 1);
    } else if has_prefix_at(s, c, "//"@) {
        lemma_find_char(s, c, s.len() as int, '\n');
        let nl = find_char(s, c, s.len() as int, '\n');
        if nl < s.len() { lemma_trivia_end(s, nl + 1); } else { lemma_trivia_end(s, s.len() as int); }
    } else if has_prefix_at(s, c, "/*"@) {
        lemma_find_str(s, c + 2, "*/"@);
        let e = find_str(s, c + 2, "*/"@);
        if e < s.len() { lemma_trivia_end(s, e + 2); }
    }
}

fn lit(t: &str) -> (r: Vec<char>)
    ensures
        r@ == t@,
{
    chars_of(t)
}

/// The position after the string literal that opens at `start`.
pub fn x_scan_string(s: &[char], start: usize) -> (r: Result<usize, String>)
    requires
        start < s@.len(),
    ensures
        match r {
            Ok(e) => scan_string(s@, start as int) == Ok::<int, Seq<char>>(e as int),
            Err(m) => scan_string(s@, start as int) == Err::<int, Seq<char>>(m@),
        },
{
    let n = s.len();
    let mut c = start + 1;
    while c < n
        invariant
            start < c <= s@.len(),
            n == s@.len(),
            string_end(s@, start + 1) == string_end(s@, c as int),
        decreases s@.len() + 2 - c,
    {
        if s[c] == '\\' {
            proof {
                assert(string_end(s@, c as int) == string_end(s@, c + 2));
                assert(string_end(s@, n as int) == Err::<int, Seq<char>>(unterminated_string()));
                assert(c + 2 > n ==> string_end(s@, c + 2) == Err::<int, Seq<char>>(unterminated_string()));
            }
            c = if n - c >= 2 { c + 2 } else { n };
        } else if s[c] == '"' {
            return Ok(c + 1);
        } else {
            c += 1;
        }
    }
    proof { reveal_strlit("unterminated string in module header"); }
    Err(crate::text::owned("unterminated string in module header"))
}

/// The position after the white space and comments from `start` on.
pub fn x_skip_trivia(s: &[char], start: usize) -> (r: Result<usize, String>)
    requires
        start <= s@.len(),
    ensures
        match r {
            Ok(e) => trivia_end(s@, start as int) == Ok::<int, Seq<char>>(e as int) && start <= e <= s@.len(),
            Err(m) => trivia_end(s@, start as int) == Err::<int, Seq<char>>(m@),
        },
{
    let line = lit("//");
    let block = lit("/*");
    let close = lit("*/");
    proof {
        reveal_strlit("//");
        reveal_strlit("/*");
        reveal_strlit("*/");
    }
    let mut c = start;
    loop
        invariant
            start <= c <= s@.len(),
            line@ == "//"@,
            block@ == "/*"@,
            close@ == "*/"@,
            trivia_end(s@, start as int) == trivia_end(s@, c as int),
        decreases s@.len() + 1 - c,
    {
        proof {
            reveal_strlit("//");
            reveal_strlit("/*");
            reveal_strlit("*/");
        }
        if c < s.len() && crate::text::space(s[c]) {
            c += 1;
        } else if starts_with_at(s, c, line.as_slice()) {
            let nl = crate::text::find_char_in(s, c, s.len(), '\n');
            proof { lemma_find_char(s@, c as int, s@.len() as int, '\n'); }
            if nl < s.len() { c = nl + 1; } else { c = s.len(); }
        } else if starts_with_at(s, c, block.as_slice()) {
            let e = x_find_str(s, c + 2, close.as_slice());
            proof { lemma_find_str(s@, c + 2, "*/"@); }
            if e < s.len() {
                c = e + 2;
            } else {
                proof { reveal_strlit("unterminated block comment in module header"); }
                return Err(crate::text::owned("unterminated block comment in module header"));
            }
        } else {
            return Ok(c);
        }
    }
}

/// The position of the delimiter that closes the one at `start`, strings and comments
/// skipped.
pub open spec fn closing_from(s: Seq<char>, c: int, depth: nat, open: char, close: char) -> Result<int, Seq<char>>
    decreases s.len() + 1 - c,
{
    if c < 0 || c >= s.len() {
        Err(unterminated_delimiter())
    } else if s[c] == '"' {
        match scan_string(s, c) {
            Err(m) => Err(m),
            Ok(e) => {
                proof { lemma_string_end(s, c + 1); }
                closing_from(s, e, depth, open, close)
            },
        }
    } else if has_prefix_at(s, c, "//"@) || has_prefix_at(s, c, "/*"@) {
        match trivia_end(s, c) {
            Err(m) => Err(m),
            Ok(e) => {
                proof { lemma_trivia_progress(s, c); }
                closing_from(s, e, depth, open, close)
            },
        }
    } else if s[c] == open {
        closing_from(s, c + 1, depth + 1, open, close)
    } else if s[c] == close {
        if depth <= 1 { Ok(c) } else { closing_from(s, c + 1, (depth - 1) as nat, open, close) }
    } else {
        closing_from(s, c + 1, depth, open, close)
    }
}

/// Trivia that starts with a comment ends after it.
pub proof fn lemma_trivia_progress(s: Seq<char>, c: int)
    requires
        0 <= c < s.len(),
        has_prefix_at(s, c, "//"@) || has_prefix_at(s, c, "/*"@),
    ensures
        trivia_end(s, c) matches Ok(e) ==> c < e <= s.len(),
{
    reveal_strlit("//");
    reveal_strlit("/*");
    reveal_strlit("*/");
    assert(!is_space(s[c])) by {
        if has_prefix_at(s, c, "//"@) { assert(s.subrange(c, c + 2)[0] == s[c]); } else { assert(s.subrange(c, c + 2)[0] == s[c]); }
    }
    if has_prefix_at(s, c, "//"@) {
        lemma_find_char(s, c, s.len() as int, '\n');
        let nl = find_char(s, c, s.len() as int, '\n');
        assert(s.subrange(c, c + 2)[0] == s[c]);
        assert(nl > c);
        if nl < s.len() { lemma_trivia_end(s, nl + 1); } else { lemma_trivia_end(s, s.len() as int); }
    } else {
        lemma_find_str(s, c + 2, "*/"@);
        let e = find_str(s, c + 2, "*/"@);
        if e < s.len() { lemma_trivia_end(s, e + 2); }
    }
}

pub fn x_matching_delimiter(s: &[char], start: usize, open: char, close: char) -> (r: Result<usize, String>)
    requires
        start <= s@.len(),
    ensures
        match r {
            Ok(e) => closing_from(s@, start as int, 0, open, close) == Ok::<int, Seq<char>>(e as int) && e < s@.len(),
            Err(m) => closing_from(s@, start as int, 0, open, close) == Err::<int, Seq<char>>(m@),
        },
{
    let line = lit("//");
    let block = lit("/*");
    proof {
        reveal_strlit("//");
        reveal_strlit("/*");
    }
    let mut depth: usize = 0;
    let mut c = start;
    while c < s.len()
        invariant
            start <= c <= s@.len(),
            line@ == "//"@,
            block@ == "/*"@,
            depth <= c,
            closing_from(s@, start as int, 0, open, close) == closing_from(s@, c as int, depth as nat, open, close),
        decreases s@.len() + 1 - c,
    {
        if s[c] == '"' {
            proof { lemma_string_end(s@, c + 1); }
            match x_scan_string(s, c) {
                Ok(e) => { c = e; },
                Err(m) => { return Err(m); },
            }
        } else if starts_with_at(s, c, line.as_slice()) || starts_with_at(s, c, block.as_slice()) {
            proof { lemma_trivia_progress(s@, c as int); }
            match x_skip_trivia(s, c) {
                Ok(e) => { c = e; },
                Err(m) => { return Err(m); },
            }
        } else if s[c] == open {
            depth += 1;
            c += 1;
        } else if s[c] == close {
            if depth <= 1 {
                return Ok(c);
            }
            depth -= 1;
            c += 1;
        } else {
            c += 1;
        }
    }
    proof { reveal_strlit("unterminated delimiter in module header"); }
    Err(crate::text::owned("unterminated delimiter in module header"))
}

} // verus!

verus! {

/// Appends the items joined by `sep`.
pub fn push_join(s: &mut String, items: &Vec<String>, sep: &str)
    ensures
        final(s)@ == old(s)@ + crate::mlir::lower::join(crate::text::texts(items@), sep@),
{
    let ghost v = crate::text::texts(items@);
    let ghost base = s@;
    proof { assert(crate::mlir::lower::join(v.take(0), sep@) =~= Seq::<char>::empty()); assert(s@ =~= base + crate::mlir::lower::join(v.take(0), sep@)); }
    let mut i: usize = 0;
    while i < items.len()
        invariant
            i <= items@.len(),
            v == crate::text::texts(items@),
            s@ == base + crate::mlir::lower::join(v.take(i as int), sep@),
        decreases items.len() - i,
    {
        let cs = chars_of(items[i].as_str());
        crate::mlir::lower::push_joined(s, i, sep, cs.as_slice(), Ghost(v), Ghost(base));
        i += 1;
    }
    proof { assert(v.take(v.len() as int) =~= v); }
}

pub open spec fn is_opening(c: char) -> bool { c == '{' || c == '[' || c == '(' || c == '<' }
pub open spec fn is_closing(c: char) -> bool { c == '}' || c == ']' || c == ')' || c == '>' }

pub open spec fn missing_equal(entry: Seq<char>) -> Seq<char> {
    "module attribute '"@ + trimmed(entry) + "' is missing '='"@
}

/// The position of the first `=` outside strings and brackets, from `c` on.
pub open spec fn equal_from(s: Seq<char>, c: int, depth: nat) -> Result<int, Seq<char>>
    decreases s.len() + 1 - c,
{
    if c < 0 || c >= s.len() {
        Err(missing_equal(s))
    } else if s[c] == '"' {
        match scan_string(s, c) {
            Err(m) => Err(m),
            Ok(e) => {
                proof { lemma_string_end(s, c + 1); }
                equal_from(s, e, depth)
            },
        }
    } else if is_opening(s[c]) {
        equal_from(s, c + 1, depth + 1)
    } else if is_closing(s[c]) {
        equal_from(s, c + 1, if depth > 0 { (depth - 1) as nat } else { 0 })
    } else if s[c] == '=' && depth == 0 {
        Ok(c)
    } else {
        equal_from(s, c + 1, depth)
    }
}

fn x_find_equal(s: &[char]) -> (r: Result<usize, String>)
    ensures
        match r {
            Ok(e) => equal_from(s@, 0, 0) == Ok::<int, Seq<char>>(e as int) && e < s@.len(),
            Err(m) => equal_from(s@, 0, 0) == Err::<int, Seq<char>>(m@),
        },
{
    let mut depth: usize = 0;
    let mut c: usize = 0;
    while c < s.len()
        invariant
            c <= s@.len(),
            depth <= c,
            equal_from(s@, 0, 0) == equal_from(s@, c as int, depth as nat),
        decreases s@.len() + 1 - c,
    {
        let x = s[c];
        if x == '"' {
            proof { lemma_string_end(s@, c + 1); }
            match x_scan_string(s, c) {
                Ok(e) => { c = e; },
                Err(m) => { return Err(m); },
            }
        } else if x == '{' || x == '[' || x == '(' || x == '<' {
            depth += 1;
            c += 1;
        } else if x == '}' || x == ']' || x == ')' || x == '>' {
            if depth > 0 { depth -= 1; }
            c += 1;
        } else if x == '=' && depth == 0 {
            return Ok(c);
        } else {
            c += 1;
        }
    }
    let (lo, hi) = x_trim_range(s, 0, s.len());
    let mut m = crate::text::owned("module attribute '");
    push_str(&mut m, crate::text::from_char_range(s, lo, hi).as_str());
    push_str(&mut m, "' is missing '='");
    proof {
        reveal_strlit("module attribute '");
        reveal_strlit("' is missing '='");
    }
    Err(m)
}

/// One entry of an attribute dictionary between `start` and `c`: nothing where it is
/// blank or only a comment, else its name and its value around the first top-level `=`.
pub open spec fn entry_item(d: Seq<char>, start: int, c: int) -> Result<Option<(Seq<char>, Seq<char>)>, Seq<char>> {
    let entry = trimmed(d.subrange(start, c));
    if entry.len() == 0 {
        Ok(None)
    } else {
        match trivia_end(entry, 0) {
            Err(m) => Err(m),
            Ok(k) => {
                let e = entry.subrange(k, entry.len() as int);
                if e.len() == 0 {
                    Ok(None)
                } else {
                    match equal_from(e, 0, 0) {
                        Err(m) => Err(m),
                        Ok(q) => Ok(Some((trimmed(e.subrange(0, q)), e.subrange(q + 1, e.len() as int)))),
                    }
                }
            },
        }
    }
}

pub open spec fn unbalanced() -> Seq<char> { "unbalanced module attribute"@ }

/// The entries of an attribute dictionary, read from `c` on.
pub open spec fn entries_from(d: Seq<char>, start: int, c: int, depth: nat, acc: Seq<(Seq<char>, Seq<char>)>)
    -> Result<Seq<(Seq<char>, Seq<char>)>, Seq<char>>
    decreases d.len() + 1 - c,
{
    if c < 0 || c > d.len() || start < 0 || start > c {
        Ok(acc)
    } else if c == d.len() || (d[c] == ',' && depth == 0) {
        match entry_item(d, start, c) {
            Err(m) => Err(m),
            Ok(None) => entries_from(d, c + 1, c + 1, depth, acc),
            Ok(Some(p)) => entries_from(d, c + 1, c + 1, depth, acc.push(p)),
        }
    } else if d[c] == '"' {
        match scan_string(d, c) {
            Err(m) => Err(m),
            Ok(e) => {
                proof { lemma_string_end(d, c + 1); }
                entries_from(d, start, e, depth, acc)
            },
        }
    } else if has_prefix_at(d, c, "//"@) || has_prefix_at(d, c, "/*"@) {
        match trivia_end(d, c) {
            Err(m) => Err(m),
            Ok(e) => {
                proof { lemma_trivia_progress(d, c); }
                entries_from(d, start, e, depth, acc)
            },
        }
    } else if is_opening(d[c]) {
        entries_from(d, start, c + 1, depth + 1, acc)
    } else if is_closing(d[c]) {
        if depth == 0 { Err(unbalanced()) } else { entries_from(d, start, c + 1, (depth - 1) as nat, acc) }
    } else {
        entries_from(d, start, c + 1, depth, acc)
    }
}

pub open spec fn pairs_view(v: Seq<(String, String)>) -> Seq<(Seq<char>, Seq<char>)> {
    v.map_values(|p: (String, String)| (p.0@, p.1@))
}

fn x_entry_item(d: &[char], start: usize, c: usize) -> (r: Result<Option<(String, String)>, String>)
    requires
        start <= c <= d@.len(),
    ensures
        match r {
            Ok(None) => entry_item(d@, start as int, c as int) == Ok::<Option<(Seq<char>, Seq<char>)>, Seq<char>>(None),
            Ok(Some(p)) => entry_item(d@, start as int, c as int) == Ok::<Option<(Seq<char>, Seq<char>)>, Seq<char>>(Some((p.0@, p.1@))),
            Err(m) => entry_item(d@, start as int, c as int) == Err::<Option<(Seq<char>, Seq<char>)>, Seq<char>>(m@),
        },
{
    let (lo, hi) = x_trim_range(d, start, c);
    let entry = copy_chars(d, lo, hi);
    proof {
        let sub = d@.subrange(start as int, c as int);
        lemma_trim_shift(d@, start as int, c as int);
        assert(entry@ == trimmed(sub));
    }
    if entry.len() == 0 {
        return Ok(None);
    }
    let k = match x_skip_trivia(entry.as_slice(), 0) {
        Ok(k) => k,
        Err(m) => { return Err(m); },
    };
    let n = entry.len();
    let e = copy_chars(entry.as_slice(), k, n);
    if e.len() == 0 {
        return Ok(None);
    }
    let q = match x_find_equal(e.as_slice()) {
        Ok(q) => q,
        Err(m) => { return Err(m); },
    };
    let (a, b) = x_trim_range(e.as_slice(), 0, q);
    let name = crate::text::from_char_range(e.as_slice(), a, b);
    let value = crate::text::from_char_range(e.as_slice(), q + 1, e.len());
    proof {
        lemma_trim_shift(e@, 0, q as int);
        assert(e@.subrange(0, q as int).subrange(0, q as int) =~= e@.subrange(0, q as int));
    }
    Ok(Some((name, value)))
}

/// Trimming a range is trimming its slice, shifted.
proof fn lemma_trim_shift(s: Seq<char>, a: int, b: int)
    requires
        0 <= a <= b <= s.len(),
    ensures
        ({
            let (lo, hi) = trim_range(s, a, b);
            s.subrange(lo, hi) == trimmed(s.subrange(a, b))
        }),
{
    let t = s.subrange(a, b);
    lemma_white_lo_shift(s, t, a, b, a);
    let lo = white_lo(s, a, b);
    lemma_white_lo_range(s, a, b);
    lemma_white_hi_shift(s, t, a, lo, b);
    lemma_white_hi_range(s, lo, b);
    assert(s.subrange(lo, white_hi(s, lo, b)) =~= t.subrange(lo - a, white_hi(s, lo, b) - a));
}

proof fn lemma_white_lo_range(s: Seq<char>, a: int, b: int)
    requires a <= b,
    ensures a <= white_lo(s, a, b) <= b,
    decreases b - a,
{
    if a < b && is_white(s[a]) { lemma_white_lo_range(s, a + 1, b); }
}

proof fn lemma_white_hi_range(s: Seq<char>, a: int, b: int)
    requires a <= b,
    ensures a <= white_hi(s, a, b) <= b,
    decreases b - a,
{
    if a < b && is_white(s[b - 1]) { lemma_white_hi_range(s, a, b - 1); }
}

proof fn lemma_white_lo_shift(s: Seq<char>, t: Seq<char>, a: int, b: int, x: int)
    requires
        0 <= a <= x <= b <= s.len(),
        t == s.subrange(a, b),
    ensures
        white_lo(s, x, b) - a == white_lo(t, x - a, b - a),
    decreases b - x,
{
    if x < b && is_white(s[x]) {
        assert(t[x - a] == s[x]);
        lemma_white_lo_shift(s, t, a, b, x + 1);
    } else if x < b {
        assert(t[x - a] == s[x]);
    }
}

proof fn lemma_white_hi_shift(s: Seq<char>, t: Seq<char>, a: int, lo: int, y: int)
    requires
        0 <= a <= lo <= y <= s.len(),
        y - a <= t.len(),
        forall|j: int| a <= j < y ==> t[j - a] == s[j],
    ensures
        white_hi(s, lo, y) - a == white_hi(t, lo - a, y - a),
    decreases y - lo,
{
    if lo < y && is_white(s[y - 1]) {
        assert(t[y - 1 - a] == s[y - 1]);
        lemma_white_hi_shift(s, t, a, lo, y - 1);
    } else if lo < y {
        assert(t[y - 1 - a] == s[y - 1]);
    }
}

/// The characters `s[a..b]`.
pub fn copy_chars(s: &[char], a: usize, b: usize) -> (r: Vec<char>)
    requires
        a <= b <= s@.len(),
    ensures
        r@ == s@.subrange(a as int, b as int),
{
    let mut out: Vec<char> = Vec::new();
    let mut i = a;
    while i < b
        invariant
            a <= i <= b <= s@.len(),
            out@ == s@.subrange(a as int, i as int),
        decreases b - i,
    {
        out.push(s[i]);
        proof { assert(s@.subrange(a as int, i + 1) =~= s@.subrange(a as int, i as int).push(s@[i as int])); }
        i += 1;
    }
    out
}

/// The entries of the attribute dictionary `d`, as `name = value` pairs in order.
pub fn top_level_entries(d: &[char]) -> (r: Result<Vec<(String, String)>, String>)
    ensures
        match r {
            Ok(v) => entries_from(d@, 0, 0, 0, Seq::empty()) == Ok::<Seq<(Seq<char>, Seq<char>)>, Seq<char>>(pairs_view(v@)),
            Err(m) => entries_from(d@, 0, 0, 0, Seq::empty()) == Err::<Seq<(Seq<char>, Seq<char>)>, Seq<char>>(m@),
        },
{
    let line = lit("//");
    let block = lit("/*");
    let n = d.len();
    let mut out: Vec<(String, String)> = Vec::new();
    let mut start: usize = 0;
    let mut c: usize = 0;
    let mut depth: usize = 0;
    proof { assert(pairs_view(out@) =~= Seq::<(Seq<char>, Seq<char>)>::empty()); }
    while c <= n
        invariant
            n == d@.len(),
            start <= c,
            c <= n,
            depth <= c,
            line@ == "//"@,
            block@ == "/*"@,
            entries_from(d@, 0, 0, 0, Seq::empty()) == entries_from(d@, start as int, c as int, depth as nat, pairs_view(out@)),
        decreases n + 1 - c,
    {
        proof {
            reveal_strlit("//");
            reveal_strlit("/*");
        }
        if c == n || (d[c] == ',' && depth == 0) {
            match x_entry_item(d, start, c) {
                Err(m) => { return Err(m); },
                Ok(None) => {},
                Ok(Some(p)) => {
                    let ghost before = out@;
                    out.push(p);
                    proof { assert(pairs_view(out@) =~= pairs_view(before).push((out@.last().0@, out@.last().1@))); }
                },
            }
            if c == n {
                proof { assert(entries_from(d@, n + 1, n + 1, depth as nat, pairs_view(out@)) == Ok::<Seq<(Seq<char>, Seq<char>)>, Seq<char>>(pairs_view(out@))); }
                return Ok(out);
            } else {
                start = c + 1;
                c = c + 1;
            }
        } else if d[c] == '"' {
            proof { lemma_string_end(d@, c + 1); }
            match x_scan_string(d, c) {
                Ok(e) => { c = e; },
                Err(m) => { return Err(m); },
            }
        } else if starts_with_at(d, c, line.as_slice()) || starts_with_at(d, c, block.as_slice()) {
            proof { lemma_trivia_progress(d@, c as int); }
            match x_skip_trivia(d, c) {
                Ok(e) => { c = e; },
                Err(m) => { return Err(m); },
            }
        } else if d[c] == '{' || d[c] == '[' || d[c] == '(' || d[c] == '<' {
            depth += 1;
            c += 1;
        } else if d[c] == '}' || d[c] == ']' || d[c] == ')' || d[c] == '>' {
            if depth == 0 {
                proof { reveal_strlit("unbalanced module attribute"); }
                return Err(crate::text::owned("unbalanced module attribute"));
            }
            depth -= 1;
            c += 1;
        } else {
            c += 1;
        }
    }
    Ok(out)
}

} // verus!

verus! {

/// A value with comments and white space outside strings left out, so that two spellings
/// of one attribute compare equal.
pub open spec fn normal_from(v: Seq<char>, c: int) -> Result<Seq<char>, Seq<char>>
    decreases v.len() + 1 - c,
{
    if c < 0 || c >= v.len() {
        Ok(Seq::empty())
    } else if v[c] == '"' {
        match scan_string(v, c) {
            Err(m) => Err(m),
            Ok(e) => {
                proof { lemma_string_end(v, c + 1); }
                match normal_from(v, e) {
                    Err(m) => Err(m),
                    Ok(r) => Ok(v.subrange(c, e) + r),
                }
            },
        }
    } else if has_prefix_at(v, c, "//"@) || has_prefix_at(v, c, "/*"@) {
        match trivia_end(v, c) {
            Err(m) => Err(m),
            Ok(e) => {
                proof { lemma_trivia_progress(v, c); }
                normal_from(v, e)
            },
        }
    } else {
        match normal_from(v, c + 1) {
            Err(m) => Err(m),
            Ok(r) => Ok(if is_white(v[c]) { r } else { seq![v[c]] + r }),
        }
    }
}

pub fn normalize_mlir(v: &[char]) -> (r: Result<Vec<char>, String>)
    ensures
        match r {
            Ok(x) => normal_from(v@, 0) == Ok::<Seq<char>, Seq<char>>(x@),
            Err(m) => normal_from(v@, 0) == Err::<Seq<char>, Seq<char>>(m@),
        },
{
    let line = lit("//");
    let block = lit("/*");
    let mut out: Vec<char> = Vec::new();
    let mut c: usize = 0;
    while c < v.len()
        invariant
            c <= v@.len(),
            line@ == "//"@,
            block@ == "/*"@,
            normal_from(v@, 0) == match normal_from(v@, c as int) {
                Ok(r) => Ok::<Seq<char>, Seq<char>>(out@ + r),
                Err(m) => Err::<Seq<char>, Seq<char>>(m),
            },
        decreases v@.len() + 1 - c,
    {
        proof {
            reveal_strlit("//");
            reveal_strlit("/*");
        }
        let ghost o = out@;
        if v[c] == '"' {
            proof { lemma_string_end(v@, c + 1); }
            match x_scan_string(v, c) {
                Ok(e) => {
                    let mut k = c;
                    while k < e
                        invariant
                            c <= k <= e <= v@.len(),
                            out@ == o + v@.subrange(c as int, k as int),
                        decreases e - k,
                    {
                        out.push(v[k]);
                        proof { assert(v@.subrange(c as int, k + 1) =~= v@.subrange(c as int, k as int).push(v@[k as int])); }
                        k += 1;
                    }
                    proof {
                        match normal_from(v@, e as int) {
                            Ok(r) => { assert(o + (v@.subrange(c as int, e as int) + r) =~= out@ + r); },
                            Err(_) => {},
                        }
                    }
                    c = e;
                },
                Err(m) => { return Err(m); },
            }
        } else if starts_with_at(v, c, line.as_slice()) || starts_with_at(v, c, block.as_slice()) {
            proof { lemma_trivia_progress(v@, c as int); }
            match x_skip_trivia(v, c) {
                Ok(e) => { c = e; },
                Err(m) => { return Err(m); },
            }
        } else {
            if !white(v[c]) {
                out.push(v[c]);
            }
            proof {
                match normal_from(v@, c + 1) {
                    Ok(r) => {
                        if !is_white(v@[c as int]) { assert(o + (seq![v@[c as int]] + r) =~= out@ + r); }
                    },
                    Err(_) => {},
                }
            }
            c += 1;
        }
    }
    proof { assert(out@ + Seq::<char>::empty() =~= out@); }
    Ok(out)
}

/// The end of an unquoted symbol from `a`: the first white space or `{`, or the end.
pub open spec fn symbol_end(s: Seq<char>, a: int) -> int
    decreases s.len() - a,
{
    if a < 0 || a >= s.len() {
        s.len() as int
    } else if is_white(s[a]) || s[a] == '{' {
        a
    } else {
        symbol_end(s, a + 1)
    }
}

pub open spec fn empty_symbol() -> Seq<char> { "processor module has an empty symbol name"@ }

/// The end of the module's symbol name that starts at `start`.
pub open spec fn scan_symbol(s: Seq<char>, start: int) -> Result<int, Seq<char>> {
    if 0 <= start < s.len() && s[start] == '"' {
        scan_string(s, start)
    } else {
        let e = symbol_end(s, start);
        if e > start { Ok(e) } else { Err(empty_symbol()) }
    }
}

pub proof fn lemma_symbol_end(s: Seq<char>, a: int)
    requires
        0 <= a,
    ensures
        symbol_end(s, a) <= s.len(),
        a < s.len() ==> a <= symbol_end(s, a),
    decreases s.len() - a,
{
    if 0 <= a < s.len() && !(is_white(s[a]) || s[a] == '{') {
        lemma_symbol_end(s, a + 1);
    }
}

fn x_scan_symbol(s: &[char], start: usize) -> (r: Result<usize, String>)
    requires
        start <= s@.len(),
    ensures
        match r {
            Ok(e) => scan_symbol(s@, start as int) == Ok::<int, Seq<char>>(e as int) && e <= s@.len(),
            Err(m) => scan_symbol(s@, start as int) == Err::<int, Seq<char>>(m@),
        },
{
    if start < s.len() && s[start] == '"' {
        proof { lemma_string_end(s@, start + 1); }
        return x_scan_string(s, start);
    }
    let mut e = start;
    while e < s.len() && !(white(s[e]) || s[e] == '{')
        invariant
            start <= e <= s@.len(),
            symbol_end(s@, start as int) == symbol_end(s@, e as int),
        decreases s@.len() - e,
    {
        e += 1;
    }
    if e > start {
        Ok(e)
    } else {
        proof { reveal_strlit("processor module has an empty symbol name"); }
        Err(crate::text::owned("processor module has an empty symbol name"))
    }
}

/// Where a module header's parts stand: the symbol name, the attribute dictionary's
/// braces if it has one, and the brace that opens the body.
pub struct ModuleHeader {
    pub name_start: usize,
    pub name_end: usize,
    pub attributes: Option<(usize, usize)>,
    pub body_open: usize,
}

pub type HeaderModel = (int, int, Option<(int, int)>, int);

pub open spec fn header_view(h: ModuleHeader) -> HeaderModel {
    (
        h.name_start as int,
        h.name_end as int,
        match h.attributes {
            Some((a, b)) => Some((a as int, b as int)),
            None => None,
        },
        h.body_open as int,
    )
}

pub open spec fn not_a_module() -> Seq<char> { "processor source must begin with a module operation"@ }
pub open spec fn no_symbol() -> Seq<char> { "processor module must have a symbol name"@ }
pub open spec fn not_a_dictionary() -> Seq<char> { "module attributes must be a dictionary"@ }
pub open spec fn no_body() -> Seq<char> { "processor module body is missing its opening brace"@ }

/// `module @name [attributes {..}] {`, comments and white space allowed between the parts.
pub open spec fn module_header(s: Seq<char>) -> Result<HeaderModel, Seq<char>> {
    match trivia_end(s, 0) {
        Err(m) => Err(m),
        Ok(c0) => if !has_prefix_at(s, c0, "module"@) || (c0 + 6 < s.len() && crate::text::is_ident_char(s[c0 + 6])) {
            Err(not_a_module())
        } else {
            match trivia_end(s, c0 + 6) {
                Err(m) => Err(m),
                Ok(c1) => if !(c1 < s.len() && s[c1] == '@') {
                    Err(no_symbol())
                } else {
                    match scan_symbol(s, c1 + 1) {
                        Err(m) => Err(m),
                        Ok(name_end) => match trivia_end(s, name_end) {
                            Err(m) => Err(m),
                            Ok(c2) => if has_prefix_at(s, c2, "attributes"@) {
                                match trivia_end(s, c2 + 10) {
                                    Err(m) => Err(m),
                                    Ok(c3) => if !(c3 < s.len() && s[c3] == '{') {
                                        Err(not_a_dictionary())
                                    } else {
                                        match closing_from(s, c3, 0, '{', '}') {
                                            Err(m) => Err(m),
                                            Ok(close) => match trivia_end(s, close + 1) {
                                                Err(m) => Err(m),
                                                Ok(c4) => if !(c4 < s.len() && s[c4] == '{') {
                                                    Err(no_body())
                                                } else {
                                                    Ok((c1 + 1, name_end, Some((c3, close)), c4))
                                                },
                                            },
                                        }
                                    },
                                }
                            } else if !(c2 < s.len() && s[c2] == '{') {
                                Err(no_body())
                            } else {
                                Ok((c1 + 1, name_end, None, c2))
                            },
                        },
                    }
                },
            }
        },
    }
}

pub fn parse_module_header(s: &[char]) -> (r: Result<ModuleHeader, String>)
    ensures
        match r {
            Ok(h) => module_header(s@) == Ok::<HeaderModel, Seq<char>>(header_view(h))
                && h.name_start <= h.name_end <= s@.len()
                && h.body_open < s@.len()
                && (h.attributes matches Some((a, b)) ==> h.name_end <= a < b < s@.len() && b <= h.body_open)
                && (h.attributes is None ==> h.name_end <= h.body_open),
            Err(m) => module_header(s@) == Err::<HeaderModel, Seq<char>>(m@),
        },
{
    let module = lit("module");
    let attributes = lit("attributes");
    proof {
        reveal_strlit("module");
        reveal_strlit("attributes");
        reveal_strlit("processor source must begin with a module operation");
        reveal_strlit("processor module must have a symbol name");
        reveal_strlit("module attributes must be a dictionary");
        reveal_strlit("processor module body is missing its opening brace");
    }
    let c0 = x_skip_trivia(s, 0)?;
    if !starts_with_at(s, c0, module.as_slice()) || (s.len() - c0 > 6 && crate::text::ident_char(s[c0 + 6])) {
        return Err(crate::text::owned("processor source must begin with a module operation"));
    }
    let c1 = x_skip_trivia(s, c0 + 6)?;
    if !(c1 < s.len() && s[c1] == '@') {
        return Err(crate::text::owned("processor module must have a symbol name"));
    }
    let name_end = x_scan_symbol(s, c1 + 1)?;
    proof { lemma_symbol_end(s@, c1 + 1); lemma_string_end(s@, c1 + 2); }
    let c2 = x_skip_trivia(s, name_end)?;
    if starts_with_at(s, c2, attributes.as_slice()) {
        let c3 = x_skip_trivia(s, c2 + 10)?;
        if !(c3 < s.len() && s[c3] == '{') {
            return Err(crate::text::owned("module attributes must be a dictionary"));
        }
        let close = x_matching_delimiter(s, c3, '{', '}')?;
        proof { lemma_closing_after(s@, c3 as int, '{', '}'); }
        let c4 = x_skip_trivia(s, close + 1)?;
        if !(c4 < s.len() && s[c4] == '{') {
            return Err(crate::text::owned("processor module body is missing its opening brace"));
        }
        Ok(ModuleHeader { name_start: c1 + 1, name_end, attributes: Some((c3, close)), body_open: c4 })
    } else {
        if !(c2 < s.len() && s[c2] == '{') {
            return Err(crate::text::owned("processor module body is missing its opening brace"));
        }
        Ok(ModuleHeader { name_start: c1 + 1, name_end, attributes: None, body_open: c2 })
    }
}

/// A closing delimiter found from an opening one lies after it.
proof fn lemma_closing_after(s: Seq<char>, c: int, open: char, close: char)
    requires
        0 <= c < s.len(),
        s[c] == open,
        open != close,
        open != '"',
        open != '/',
    ensures
        closing_from(s, c, 0, open, close) matches Ok(e) ==> c < e,
{
    reveal_strlit("//");
    reveal_strlit("/*");
    if has_prefix_at(s, c, "//"@) { assert(s.subrange(c, c + 2)[0] == s[c]); }
    if has_prefix_at(s, c, "/*"@) { assert(s.subrange(c, c + 2)[0] == s[c]); }
    lemma_closing_from(s, c + 1, 1, open, close);
}

proof fn lemma_closing_from(s: Seq<char>, c: int, depth: nat, open: char, close: char)
    requires
        0 <= c,
    ensures
        closing_from(s, c, depth, open, close) matches Ok(e) ==> c <= e,
    decreases s.len() + 1 - c,
{
    reveal_strlit("//");
    reveal_strlit("/*");
    if c < s.len() {
        if s[c] == '"' {
            lemma_string_end(s, c + 1);
            if let Ok(e) = scan_string(s, c) { lemma_closing_from(s, e, depth, open, close); }
        } else if has_prefix_at(s, c, "//"@) || has_prefix_at(s, c, "/*"@) {
            lemma_trivia_progress(s, c);
            if let Ok(e) = trivia_end(s, c) { lemma_closing_from(s, e, depth, open, close); }
        } else if s[c] == open {
            lemma_closing_from(s, c + 1, depth + 1, open, close);
        } else if s[c] == close {
            if depth > 1 { lemma_closing_from(s, c + 1, (depth - 1) as nat, open, close); }
        } else {
            lemma_closing_from(s, c + 1, depth, open, close);
        }
    }
}

} // verus!

verus! {

/// `s` from `p` on with every `needle` that no letter, digit or underscore follows replaced
/// by `@exported`.
pub open spec fn replaced_from(s: Seq<char>, p: int, needle: Seq<char>, exported: Seq<char>) -> Seq<char>
    decreases s.len() + 1 - p,
{
    if p < 0 || p > s.len() || needle.len() == 0 {
        Seq::empty()
    } else {
        let i = find_str(s, p, needle);
        proof { lemma_find_str(s, p, needle); }
        if i >= s.len() {
            s.subrange(p, s.len() as int)
        } else {
            let end = i + needle.len();
            let boundary = end >= s.len() || !crate::text::is_ident_char(s[end]);
            s.subrange(p, i) + (if boundary { "@"@ + exported } else { needle }) + replaced_from(s, end, needle, exported)
        }
    }
}

/// Every reference `@authored` in `s` replaced by `@exported`.
pub open spec fn replaced(s: Seq<char>, authored: Seq<char>, exported: Seq<char>) -> Seq<char> {
    replaced_from(s, 0, "@"@ + authored, exported)
}

/// The replacements of `symbols` applied in turn.
pub open spec fn replace_all(s: Seq<char>, symbols: Seq<(Seq<char>, Seq<char>)>) -> Seq<char>
    decreases symbols.len(),
{
    if symbols.len() == 0 {
        s
    } else {
        replaced(replace_all(s, symbols.drop_last()), symbols.last().0, symbols.last().1)
    }
}

pub fn replace_symbol(line: &[char], authored: &str, exported: &str) -> (r: Vec<char>)
    ensures
        r@ == replaced(line@, authored@, exported@),
{
    let mut needle = lit("@");
    let a = chars_of(authored);
    let x = chars_of(exported);
    let mut k: usize = 0;
    while k < a.len()
        invariant
            k <= a@.len(),
            needle@ == "@"@ + a@.take(k as int),
        decreases a.len() - k,
    {
        proof { reveal_strlit("@"); }
        needle.push(a[k]);
        proof { assert(a@.take(k + 1) =~= a@.take(k as int).push(a@[k as int])); }
        k += 1;
    }
    proof {
        reveal_strlit("@");
        assert(a@.take(a@.len() as int) =~= a@);
        assert(needle@ =~= "@"@ + authored@);
    }
    let n = line.len();
    let mut out: Vec<char> = Vec::new();
    let mut p: usize = 0;
    while p <= n
        invariant
            p <= n,
            n == line@.len(),
            needle@ == "@"@ + authored@,
            needle@.len() > 0,
            x@ == exported@,
            out@ + replaced_from(line@, p as int, needle@, exported@) == replaced(line@, authored@, exported@),
        decreases n + 1 - p,
    {
        let i = x_find_str(line, p, needle.as_slice());
        proof { lemma_find_str(line@, p as int, needle@); }
        let ghost o = out@;
        if i >= n {
            let mut q = p;
            while q < n
                invariant
                    p <= q <= n,
                    n == line@.len(),
                    out@ == o + line@.subrange(p as int, q as int),
                decreases n - q,
            {
                out.push(line[q]);
                proof { assert(line@.subrange(p as int, q + 1) =~= line@.subrange(p as int, q as int).push(line@[q as int])); }
                q += 1;
            }
            proof { assert(out@ =~= o + replaced_from(line@, p as int, needle@, exported@)); }
            return out;
        }
        let end = i + needle.len();
        let boundary = end >= n || !crate::text::ident_char(line[end]);
        let mut q = p;
        while q < i
            invariant
                p <= q <= i <= n,
                n == line@.len(),
                out@ == o + line@.subrange(p as int, q as int),
            decreases i - q,
        {
            out.push(line[q]);
            proof { assert(line@.subrange(p as int, q + 1) =~= line@.subrange(p as int, q as int).push(line@[q as int])); }
            q += 1;
        }
        let ghost o2 = out@;
        let piece = if boundary { let mut t = lit("@"); let mut j: usize = 0;
            while j < x.len()
                invariant
                    j <= x@.len(),
                    t@ == "@"@ + x@.take(j as int),
                decreases x.len() - j,
            {
                proof { reveal_strlit("@"); }
                t.push(x[j]);
                proof { assert(x@.take(j + 1) =~= x@.take(j as int).push(x@[j as int])); }
                j += 1;
            }
            proof { assert(x@.take(x@.len() as int) =~= x@); }
            t
        } else {
            copy_chars(needle.as_slice(), 0, needle.len())
        };
        let mut j: usize = 0;
        while j < piece.len()
            invariant
                j <= piece@.len(),
                out@ == o2 + piece@.take(j as int),
            decreases piece.len() - j,
        {
            out.push(piece[j]);
            proof { assert(piece@.take(j + 1) =~= piece@.take(j as int).push(piece@[j as int])); }
            j += 1;
        }
        proof {
            assert(piece@.take(piece@.len() as int) =~= piece@);
            assert(needle@.subrange(0, needle@.len() as int) =~= needle@);
            assert(out@ + replaced_from(line@, end as int, needle@, exported@)
                =~= o + replaced_from(line@, p as int, needle@, exported@));
        }
        p = end;
    }
    out
}

} // verus!

verus! {

pub open spec fn quoted(v: Seq<char>) -> Seq<char> {
    "\""@ + crate::mlir::export::escaped(v) + "\""@
}

/// The metadata every exported processor module carries: its array, its definition and the
/// names of its domain's axes.
pub open spec fn expected_attributes(array: Seq<char>, family: Seq<char>, domain: Seq<Axis>) -> Seq<(Seq<char>, Seq<char>)> {
    seq![
        ("mlar.processor_array"@, quoted(array)),
        ("mlar.processor_definition"@, quoted(family)),
        ("mlar.processor_domain"@, "["@ + crate::mlir::lower::join(domain.map_values(|a: Axis| quoted(a.name@)), ", "@) + "]"@),
    ]
}

pub open spec fn assignment(p: (Seq<char>, Seq<char>)) -> Seq<char> {
    p.0 + " = "@ + p.1
}

/// The value of the first entry named `name`.
pub open spec fn first_value(entries: Seq<(Seq<char>, Seq<char>)>, name: Seq<char>) -> Option<Seq<char>>
    decreases entries.len(),
{
    if entries.len() == 0 {
        None
    } else if entries[0].0 == name {
        Some(entries[0].1)
    } else {
        first_value(entries.drop_first(), name)
    }
}

pub open spec fn conflict(name: Seq<char>, existing: Seq<char>, value: Seq<char>) -> Seq<char> {
    "module attribute '"@ + name + "' conflicts with generated value: found '"@ + trimmed(existing) + "', expected '"@ + value + "'"@
}

/// The assignments of `exp` that the dictionary lacks; a present one must equal the
/// generated value up to white space and comments.
pub open spec fn missing_attributes(entries: Seq<(Seq<char>, Seq<char>)>, exp: Seq<(Seq<char>, Seq<char>)>) -> Result<Seq<Seq<char>>, Seq<char>>
    decreases exp.len(),
{
    if exp.len() == 0 {
        Ok(Seq::empty())
    } else {
        match missing_attributes(entries, exp.drop_last()) {
            Err(m) => Err(m),
            Ok(missing) => {
                let (name, value) = exp.last();
                match first_value(entries, name) {
                    None => Ok(missing.push(assignment(exp.last()))),
                    Some(existing) => match normal_from(existing, 0) {
                        Err(m) => Err(m),
                        Ok(a) => match normal_from(value, 0) {
                            Err(m) => Err(m),
                            Ok(b) => if a == b { Ok(missing) } else { Err(conflict(name, existing, value)) },
                        },
                    },
                }
            },
        }
    }
}

/// What is inserted into the header: the missing entries after the existing dictionary,
/// or a whole new dictionary.
pub open spec fn insertion(s: Seq<char>, h: HeaderModel, exp: Seq<(Seq<char>, Seq<char>)>) -> Result<Seq<char>, Seq<char>> {
    match h.2 {
        Some((open, close)) => {
            let attrs = s.subrange(open + 1, close);
            match entries_from(attrs, 0, 0, 0, Seq::empty()) {
                Err(m) => Err(m),
                Ok(entries) => match missing_attributes(entries, exp) {
                    Err(m) => Err(m),
                    Ok(missing) => Ok(if missing.len() == 0 {
                        Seq::empty()
                    } else {
                        (if trimmed(attrs).len() > 0 { ", "@ } else { Seq::empty() }) + crate::mlir::lower::join(missing, ", "@)
                    }),
                },
            }
        },
        None => Ok(" attributes {"@ + crate::mlir::lower::join(exp.map_values(|p: (Seq<char>, Seq<char>)| assignment(p)), ", "@) + "} "@),
    }
}

/// A processor's module renamed to `module_name`, given the export metadata, and with its
/// memory symbols replaced.
pub open spec fn rewritten(
    s: Seq<char>,
    module_name: Seq<char>,
    array: Seq<char>,
    family: Seq<char>,
    domain: Seq<Axis>,
    symbols: Seq<(Seq<char>, Seq<char>)>,
) -> Result<Seq<char>, Seq<char>> {
    match module_header(s) {
        Err(m) => Err(m),
        Ok(h) => match insertion(s, h, expected_attributes(array, family, domain)) {
            Err(m) => Err(m),
            Ok(ins) => {
                let at = match h.2 {
                    Some((_, close)) => close,
                    None => h.3,
                };
                Ok(replace_all(
                    s.subrange(0, h.0) + module_name + s.subrange(h.1, at) + ins + s.subrange(at, s.len() as int),
                    symbols,
                ))
            },
        },
    }
}

fn quoted_text(v: &str) -> (r: String)
    ensures
        r@ == quoted(v@),
{
    let mut t = crate::text::owned("\"");
    let e = crate::mlir::export::escape_mlir_string(v);
    push_str(&mut t, e.as_str());
    push_str(&mut t, "\"");
    proof { reveal_strlit("\""); }
    t
}

fn expected_values(array: &str, family: &str, domain: &[Axis]) -> (r: Vec<(String, String)>)
    ensures
        pairs_view(r@) == expected_attributes(array@, family@, domain@),
{
    let mut names: Vec<String> = Vec::new();
    let mut i: usize = 0;
    while i < domain.len()
        invariant
            i <= domain@.len(),
            crate::text::texts(names@) == domain@.take(i as int).map_values(|a: Axis| quoted(a.name@)),
        decreases domain.len() - i,
    {
        let ghost before = names@;
        names.push(quoted_text(domain[i].name.as_str()));
        proof {
            assert(crate::text::texts(names@) =~= crate::text::texts(before).push(quoted(domain@[i as int].name@)));
            assert(domain@.take(i + 1).map_values(|a: Axis| quoted(a.name@))
                =~= domain@.take(i as int).map_values(|a: Axis| quoted(a.name@)).push(quoted(domain@[i as int].name@)));
        }
        i += 1;
    }
    proof { assert(domain@.take(domain@.len() as int) =~= domain@); }
    let mut list = crate::text::owned("[");
    push_join(&mut list, &names, ", ");
    push_str(&mut list, "]");
    let v = vec![
        (crate::text::owned("mlar.processor_array"), quoted_text(array)),
        (crate::text::owned("mlar.processor_definition"), quoted_text(family)),
        (crate::text::owned("mlar.processor_domain"), list),
    ];
    proof {
        reveal_strlit("[");
        reveal_strlit("]");
        assert(pairs_view(v@) =~= expected_attributes(array@, family@, domain@));
    }
    v
}

pub fn find_value(entries: &Vec<(String, String)>, name: &str) -> (r: Option<usize>)
    ensures
        match r {
            Some(i) => i < entries@.len() && first_value(pairs_view(entries@), name@) == Some(entries@[i as int].1@),
            None => first_value(pairs_view(entries@), name@) is None,
        },
{
    let ghost m = pairs_view(entries@);
    let mut i: usize = 0;
    proof { assert(m.skip(0) =~= m); }
    while i < entries.len()
        invariant
            i <= entries@.len(),
            m == pairs_view(entries@),
            first_value(m, name@) == first_value(m.skip(i as int), name@),
        decreases entries.len() - i,
    {
        proof {
            assert(m.skip(i as int)[0] == (entries@[i as int].0@, entries@[i as int].1@));
            assert(m.skip(i as int).drop_first() =~= m.skip(i + 1));
        }
        if crate::text::str_eq(entries[i].0.as_str(), name) {
            return Some(i);
        }
        i += 1;
    }
    None
}

fn missing_of(entries: &Vec<(String, String)>, exp: &Vec<(String, String)>) -> (r: Result<Vec<String>, String>)
    ensures
        match r {
            Ok(v) => missing_attributes(pairs_view(entries@), pairs_view(exp@)) == Ok::<Seq<Seq<char>>, Seq<char>>(crate::text::texts(v@)),
            Err(m) => missing_attributes(pairs_view(entries@), pairs_view(exp@)) == Err::<Seq<Seq<char>>, Seq<char>>(m@),
        },
{
    let ghost es = pairs_view(entries@);
    let ghost xs = pairs_view(exp@);
    let mut out: Vec<String> = Vec::new();
    let mut i: usize = 0;
    proof { assert(crate::text::texts(out@) =~= Seq::<Seq<char>>::empty()); assert(xs.take(0) =~= Seq::<(Seq<char>, Seq<char>)>::empty()); }
    while i < exp.len()
        invariant
            i <= exp@.len(),
            es == pairs_view(entries@),
            xs == pairs_view(exp@),
            missing_attributes(es, xs.take(i as int)) == Ok::<Seq<Seq<char>>, Seq<char>>(crate::text::texts(out@)),
        decreases exp.len() - i,
    {
        proof {
            assert(xs.take(i + 1).drop_last() =~= xs.take(i as int));
            assert(xs.take(i + 1).last() == (exp@[i as int].0@, exp@[i as int].1@));
        }
        let name = &exp[i].0;
        let value = &exp[i].1;
        match find_value(entries, name.as_str()) {
            None => {
                let mut t = crate::text::owned(name.as_str());
                push_str(&mut t, " = ");
                push_str(&mut t, value.as_str());
                let ghost before = out@;
                out.push(t);
                proof {
                    reveal_strlit(" = ");
                    assert(crate::text::texts(out@) =~= crate::text::texts(before).push(assignment((name@, value@))));
                }
            },
            Some(k) => {
                let existing = &entries[k].1;
                let ec = chars_of(existing.as_str());
                let a = match normalize_mlir(ec.as_slice()) {
                    Ok(a) => a,
                    Err(m) => {
                        proof { lemma_missing_sticky(es, xs, i + 1); }
                        return Err(m);
                    },
                };
                let vc = chars_of(value.as_str());
                let b = match normalize_mlir(vc.as_slice()) {
                    Ok(b) => b,
                    Err(m) => {
                        proof { lemma_missing_sticky(es, xs, i + 1); }
                        return Err(m);
                    },
                };
                if !crate::text::chars_eq(a.as_slice(), b.as_slice()) {
                    let mut m = crate::text::owned("module attribute '");
                    push_str(&mut m, name.as_str());
                    push_str(&mut m, "' conflicts with generated value: found '");
                    let (lo, hi) = x_trim_range(ec.as_slice(), 0, ec.len());
                    push_str(&mut m, crate::text::from_char_range(ec.as_slice(), lo, hi).as_str());
                    push_str(&mut m, "', expected '");
                    push_str(&mut m, value.as_str());
                    push_str(&mut m, "'");
                    proof {
                        reveal_strlit("module attribute '");
                        reveal_strlit("' conflicts with generated value: found '");
                        reveal_strlit("', expected '");
                        reveal_strlit("'");
                        lemma_missing_sticky(es, xs, i + 1);
                    }
                    return Err(m);
                }
            },
        }
        i += 1;
    }
    proof { assert(xs.take(xs.len() as int) =~= xs); }
    Ok(out)
}

proof fn lemma_missing_sticky(es: Seq<(Seq<char>, Seq<char>)>, xs: Seq<(Seq<char>, Seq<char>)>, k: int)
    requires
        0 <= k <= xs.len(),
        missing_attributes(es, xs.take(k)) is Err,
    ensures
        missing_attributes(es, xs) == missing_attributes(es, xs.take(k)),
    decreases xs.len(),
{
    if k == xs.len() {
        assert(xs.take(k) =~= xs);
    } else {
        assert(xs.drop_last().take(k) =~= xs.take(k));
        lemma_missing_sticky(es, xs.drop_last(), k);
    }
}

fn push_range(out: &mut Vec<char>, s: &[char], a: usize, b: usize)
    requires
        a <= b <= s@.len(),
    ensures
        final(out)@ == old(out)@ + s@.subrange(a as int, b as int),
{
    let mut i = a;
    while i < b
        invariant
            a <= i <= b <= s@.len(),
            out@ == old(out)@ + s@.subrange(a as int, i as int),
        decreases b - i,
    {
        out.push(s[i]);
        proof { assert(s@.subrange(a as int, i + 1) =~= s@.subrange(a as int, i as int).push(s@[i as int])); }
        i += 1;
    }
}

/// Renames a processor's module to `module_name`, adds the export metadata to its
/// attribute dictionary (refusing metadata that differs from it), and replaces each
/// `@authored` memory symbol by its exported one, in the order of `symbols`.
pub fn rewrite_raw_mlir_module(
    source: &str,
    module_name: &str,
    processor_array: &str,
    processor_definition: &str,
    processor_domain: &[Axis],
    memory_symbols: &Vec<(String, String)>,
) -> (r: Result<String, String>)
    ensures
        match r {
            Ok(t) => rewritten(source@, module_name@, processor_array@, processor_definition@, processor_domain@, pairs_view(memory_symbols@))
                == Ok::<Seq<char>, Seq<char>>(t@),
            Err(m) => rewritten(source@, module_name@, processor_array@, processor_definition@, processor_domain@, pairs_view(memory_symbols@))
                == Err::<Seq<char>, Seq<char>>(m@),
        },
{
    let s = chars_of(source);
    let h = parse_module_header(s.as_slice())?;
    let exp = expected_values(processor_array, processor_definition, processor_domain);
    let ghost hv = header_view(h);
    let mut ins = String::new();
    match h.attributes {
        Some((open, close)) => {
            let attrs = copy_chars(s.as_slice(), open + 1, close);
            let entries = top_level_entries(attrs.as_slice())?;
            let missing = missing_of(&entries, &exp)?;
            if missing.len() > 0 {
                let (lo, hi) = x_trim_range(attrs.as_slice(), 0, attrs.len());
                if hi > lo {
                    push_str(&mut ins, ", ");
                }
                push_join(&mut ins, &missing, ", ");
                proof {
                    reveal_strlit(", ");
                    assert(trimmed(attrs@).len() > 0 <==> hi > lo);
                }
            }
            proof {
                if missing@.len() == 0 { assert(ins@ =~= Seq::<char>::empty()); }
                else if hi_gt(attrs@) { assert(ins@ =~= ", "@ + crate::mlir::lower::join(crate::text::texts(missing@), ", "@)); }
                else { assert(ins@ =~= Seq::<char>::empty() + crate::mlir::lower::join(crate::text::texts(missing@), ", "@)); }
            }
        },
        None => {
            push_str(&mut ins, " attributes {");
            let mut items: Vec<String> = Vec::new();
            let mut i: usize = 0;
            while i < exp.len()
                invariant
                    i <= exp@.len(),
                    crate::text::texts(items@) == pairs_view(exp@).take(i as int).map_values(|p: (Seq<char>, Seq<char>)| assignment(p)),
                decreases exp.len() - i,
            {
                let mut t = crate::text::owned(exp[i].0.as_str());
                push_str(&mut t, " = ");
                push_str(&mut t, exp[i].1.as_str());
                let ghost before = items@;
                items.push(t);
                proof {
                    reveal_strlit(" = ");
                    assert(crate::text::texts(items@) =~= crate::text::texts(before).push(assignment((exp@[i as int].0@, exp@[i as int].1@))));
                    assert(pairs_view(exp@).take(i + 1).map_values(|p: (Seq<char>, Seq<char>)| assignment(p))
                        =~= pairs_view(exp@).take(i as int).map_values(|p: (Seq<char>, Seq<char>)| assignment(p)).push(assignment((exp@[i as int].0@, exp@[i as int].1@))));
                }
                i += 1;
            }
            proof { assert(pairs_view(exp@).take(exp@.len() as int) =~= pairs_view(exp@)); }
            push_join(&mut ins, &items, ", ");
            push_str(&mut ins, "} ");
            proof {
                reveal_strlit(" attributes {");
                reveal_strlit("} ");
            }
        },
    }
    let at = match h.attributes {
        Some((_, close)) => close,
        None => h.body_open,
    };
    let mut out: Vec<char> = Vec::new();
    push_range(&mut out, s.as_slice(), 0, h.name_start);
    let mc = chars_of(module_name);
    push_range(&mut out, mc.as_slice(), 0, mc.len());
    push_range(&mut out, s.as_slice(), h.name_end, at);
    let ic = chars_of(ins.as_str());
    push_range(&mut out, ic.as_slice(), 0, ic.len());
    push_range(&mut out, s.as_slice(), at, s.len());
    proof {
        assert(mc@.subrange(0, mc@.len() as int) =~= mc@);
        assert(ic@.subrange(0, ic@.len() as int) =~= ic@);
    }
    let ghost syms = pairs_view(memory_symbols@);
    let ghost first = out@;
    let mut k: usize = 0;
    proof { assert(syms.take(0) =~= Seq::<(Seq<char>, Seq<char>)>::empty()); }
    while k < memory_symbols.len()
        invariant
            k <= memory_symbols@.len(),
            syms == pairs_view(memory_symbols@),
            out@ == replace_all(first, syms.take(k as int)),
        decreases memory_symbols.len() - k,
    {
        proof {
            assert(syms.take(k + 1).drop_last() =~= syms.take(k as int));
            assert(syms.take(k + 1).last() == (memory_symbols@[k as int].0@, memory_symbols@[k as int].1@));
        }
        out = replace_symbol(out.as_slice(), memory_symbols[k].0.as_str(), memory_symbols[k].1.as_str());
        k += 1;
    }
    proof { assert(syms.take(syms.len() as int) =~= syms); }
    Ok(crate::text::from_chars(out.as_slice()))
}

pub open spec fn hi_gt(attrs: Seq<char>) -> bool {
    trimmed(attrs).len() > 0
}

} // verus!

verus! {

/// The axes `s[a..b]`.
pub fn copy_axes(s: &[Axis], a: usize, b: usize) -> (r: Vec<Axis>)
    requires
        a <= b <= s@.len(),
    ensures
        r@ == s@.subrange(a as int, b as int),
{
    let mut out: Vec<Axis> = Vec::new();
    let mut i = a;
    while i < b
        invariant
            a <= i <= b <= s@.len(),
            out@ == s@.subrange(a as int, i as int),
        decreases b - i,
    {
        out.push(s[i].clone());
        proof { assert(s@.subrange(a as int, i + 1) =~= s@.subrange(a as int, i as int).push(s@[i as int])); }
        i += 1;
    }
    out
}

} // verus!
