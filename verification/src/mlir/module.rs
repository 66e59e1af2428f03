//! MLIR modules: their symbol name, their function blocks, and the functions read from them.
use vstd::prelude::*;

use crate::arch::index_parser::{char_at, skip_ws, x_skip_ws};
use crate::math::expr::{add_sym, distinct_names, names, Sym};
use super::func::{func_model, read_func, FuncModel, MlirFunc, MlirFuncDetails, MlirModule};
use super::lex::{lemma_ends, lines_model, opt_pos, starts, sym_at, tag_at, trimmed_lines, x_sym_at, x_tag_at};
use super::ops::{dim_syms, syms_model, texts_model, CopyModel, GatherModel};
use super::read::trim_text;
use super::scan::find_str;

verus! {

/// Another name for [`MlirModule`].
pub type MlirModuleRef = MlirModule;

/// Another name for [`MlirFunc`].
pub type MlirFuncRef = MlirFunc;

/// Another name for [`MlirModule`].
pub type MLIRModuleRef = MlirModule;

/// Another name for [`MlirFunc`].
pub type MLIRFuncRef = MlirFunc;

/// Another name for [`MlirFuncDetails`].
pub type MLIRFunc = MlirFuncDetails;

/// `module [@name]` at the start of a trimmed line: the name, if the line declares a module.
pub open spec fn module_decl(l: Seq<char>) -> Option<Option<Seq<char>>> {
    match tag_at(l, 0, "module"@) {
        None => None,
        Some(t) => if t < l.len() && !(crate::text::is_space(l[t]) || l[t] == '{' || l[t] == '@') {
            None
        } else {
            let q = skip_ws(l, t);
            match sym_at(l, q) {
                Some(e) => Some(Some(l.subrange(q + 1, e))),
                None => Some(None),
            }
        },
    }
}

/// The module declarations of the lines, in order.
pub open spec fn module_decls(ls: Seq<Seq<char>>) -> Seq<Option<Seq<char>>>
    decreases ls.len(),
{
    if ls.len() == 0 {
        Seq::empty()
    } else {
        module_decls(ls.drop_last()) + match module_decl(ls.last()) {
            Some(d) => seq![d],
            None => Seq::empty(),
        }
    }
}

/// The one module's name, or how many modules there are when that is not one.
pub open spec fn single_module(s: Seq<char>) -> Result<Option<Seq<char>>, Seq<char>> {
    let ds = module_decls(trimmed_lines(s));
    if ds.len() == 1 {
        Ok(ds[0])
    } else {
        Err("MLIR file must contain exactly one module, found "@ + crate::text::decimal(ds.len()))
    }
}

fn x_module_decl(l: &[char]) -> (r: Option<Option<String>>)
    ensures
        match r {
            None => module_decl(l@) is None,
            Some(None) => module_decl(l@) == Some(None::<Seq<char>>),
            Some(Some(n)) => module_decl(l@) == Some(Some(n@)),
        },
{
    let t = match x_tag_at(l, 0, "module") {
        None => return None,
        Some(t) => t,
    };
    if t < l.len() && !(crate::text::space(l[t]) || l[t] == '{' || l[t] == '@') {
        return None;
    }
    proof { lemma_ends(l@, t as int); }
    let q = x_skip_ws(l, t);
    match x_sym_at(l, q) {
        Some(e) => Some(Some(crate::text::from_char_range(l, q + 1, e))),
        None => Some(None),
    }
}

pub open spec fn name_model(o: Option<String>) -> Option<Seq<char>> {
    match o {
        Some(n) => Some(n@),
        None => None,
    }
}

pub open spec fn decls_model(v: Seq<Option<String>>) -> Seq<Option<Seq<char>>> {
    v.map_values(|d: Option<String>| match d {
        Some(n) => Some(n@),
        None => None,
    })
}

fn x_single_module(s: &[char]) -> (r: Result<Option<String>, String>)
    ensures
        match r {
            Ok(Some(n)) => single_module(s@) == Ok::<Option<Seq<char>>, Seq<char>>(Some(n@)),
            Ok(None) => single_module(s@) == Ok::<Option<Seq<char>>, Seq<char>>(None),
            Err(m) => single_module(s@) == Err::<Option<Seq<char>>, Seq<char>>(m@),
        },
{
    let lines = super::lex::x_trimmed_lines(s);
    let mut decls: Vec<Option<String>> = Vec::new();
    let mut i: usize = 0;
    proof { assert(decls_model(decls@) =~= module_decls(lines_model(lines@).take(0))); }
    while i < lines.len()
        invariant
            i <= lines@.len(),
            decls_model(decls@) == module_decls(lines_model(lines@).take(i as int)),
        decreases lines.len() - i,
    {
        proof { super::read::lemma_lines_step(lines@, i as int); }
        let ghost before = decls@;
        match x_module_decl(lines[i].as_slice()) {
            Some(d) => {
                let ghost dm = decls_model(seq![d])[0];
                decls.push(d);
                proof { assert(decls_model(decls@) =~= decls_model(before) + seq![dm]); }
            },
            None => {
                proof { assert(decls_model(decls@) =~= decls_model(before) + Seq::<Option<Seq<char>>>::empty()); }
            },
        }
        i += 1;
    }
    proof { super::read::lemma_lines_all(lines@); }
    if decls.len() == 1 {
        let mut decls = decls;
        let d = decls.remove(0);
        match d {
            Some(n) => Ok(Some(n)),
            None => Ok(None),
        }
    } else {
        let mut m = crate::text::owned("MLIR file must contain exactly one module, found ");
        crate::text::push_decimal(&mut m, decls.len() as u64);
        Err(m)
    }
}


/// The `func.func` blocks of `s` from `cursor` on: from the marker to the brace that
/// closes the first `{` after it.
pub open spec fn blocks(s: Seq<char>, cursor: int) -> Result<Seq<(int, int)>, Seq<char>>
    decreases s.len() - cursor,
{
    if cursor < 0 {
        Ok(Seq::empty())
    } else {
        let start = find_str(s, cursor, "func.func @"@);
        if start >= s.len() {
            Ok(Seq::empty())
        } else {
            let open = crate::text::find_char(s, start, s.len() as int, '{');
            if open >= s.len() {
                Err("missing '{' after function declaration"@)
            } else {
                match super::lex::closing_at(s, open, '{', '}') {
                    None => Err("unbalanced braces in function body"@),
                    Some(close) => if close < cursor {
                        Ok(Seq::empty())
                    } else {
                        proof { super::lex::lemma_balanced(s, open + 1, 1, '{', '}'); }
                        match blocks(s, close + 1) {
                            Ok(rest) => Ok(seq![(start, close + 1)] + rest),
                            Err(e) => Err(e),
                        }
                    },
                }
            }
        }
    }
}

/// The functions of the blocks, each read, or the first failure.
pub open spec fn read_blocks(s: Seq<char>, bs: Seq<(int, int)>) -> Result<Seq<FuncModel>, Seq<char>>
    decreases bs.len(),
{
    if bs.len() == 0 {
        Ok(Seq::empty())
    } else {
        match read_func(trim_text(s.subrange(bs[0].0, bs[0].1))) {
            Err(e) => Err(e),
            Ok(f) => match read_blocks(s, bs.drop_first()) {
                Ok(rest) => Ok(seq![f] + rest),
                Err(e) => Err(e),
            },
        }
    }
}

/// What reading module text gives: its name and its functions.
pub open spec fn module_text(s: Seq<char>) -> Result<(Option<Seq<char>>, Seq<FuncModel>), Seq<char>> {
    match single_module(s) {
        Err(e) => Err(e),
        Ok(name) => match blocks(s, 0) {
            Err(e) => Err(e),
            Ok(bs) => match read_blocks(s, bs) {
                Err(e) => Err(e),
                Ok(fs) => Ok((name, fs)),
            },
        },
    }
}

fn x_blocks(s: &[char]) -> (r: Result<Vec<(usize, usize)>, String>)
    ensures
        match r {
            Ok(v) => blocks(s@, 0) == Ok::<Seq<(int, int)>, Seq<char>>(super::scan::ranges_model(v@))
                && forall|k: int| 0 <= k < v@.len() ==> (#[trigger] v@[k]).0 <= v@[k].1 <= s@.len(),
            Err(m) => blocks(s@, 0) == Err::<Seq<(int, int)>, Seq<char>>(m@),
        },
{
    let pat = crate::text::chars_of("func.func @");
    proof { reveal_strlit("func.func @"); }
    let mut out: Vec<(usize, usize)> = Vec::new();
    let mut cursor: usize = 0;
    proof { assert(super::scan::ranges_model(out@) =~= Seq::<(int, int)>::empty()); }
    loop
        invariant
            cursor <= s@.len() + 1,
            pat@ == "func.func @"@,
            forall|k: int| 0 <= k < out@.len() ==> (#[trigger] out@[k]).0 <= out@[k].1 <= s@.len(),
            blocks(s@, 0) == match blocks(s@, cursor as int) {
                Ok(rest) => Ok(super::scan::ranges_model(out@) + rest),
                Err(e) => Err(e),
            },
        decreases s@.len() + 1 - cursor,
    {
        let start = super::scan::x_find_str(s, cursor, pat.as_slice());
        if start >= s.len() {
            proof { assert(super::scan::ranges_model(out@) + Seq::<(int, int)>::empty() =~= super::scan::ranges_model(out@)); }
            return Ok(out);
        }
        let open = crate::text::find_char_in(s, start, s.len(), '{');
        if open >= s.len() {
            return Err(crate::text::owned("missing '{' after function declaration"));
        }
        match super::lex::x_closing_at(s, open, '{', '}') {
            None => return Err(crate::text::owned("unbalanced braces in function body")),
            Some(close) => {
                if close < cursor {
                    proof { assert(super::scan::ranges_model(out@) + Seq::<(int, int)>::empty() =~= super::scan::ranges_model(out@)); }
                    return Ok(out);
                }
                proof { super::lex::lemma_balanced(s@, open + 1, 1, '{', '}'); }
                let ghost before = out@;
                out.push((start, close + 1));
                proof {
                    assert(super::scan::ranges_model(out@) =~= super::scan::ranges_model(before) + seq![(start as int, close + 1)]);
                    match blocks(s@, close + 1) {
                        Ok(rest) => {
                            assert(super::scan::ranges_model(before) + (seq![(start as int, close + 1)] + rest)
                                =~= super::scan::ranges_model(out@) + rest);
                        },
                        Err(_) => {},
                    }
                }
                cursor = close + 1;
            },
        }
    }
}

impl MlirModule {
    /// An in-memory module with no path and no name.
    pub fn unnamed(functions: Vec<MlirFunc>) -> (r: MlirModule)
        ensures
            r.path is None,
            r.module_name is None,
            r.functions == functions,
    {
        MlirModule { path: None, module_name: None, functions }
    }

    /// An in-memory module with a name.
    pub fn from_functions(name: &str, functions: Vec<MlirFunc>) -> (r: MlirModule)
        ensures
            r.path is None,
            r.module_name matches Some(n) && n@ == name@,
            r.functions == functions,
    {
        MlirModule { path: None, module_name: Some(crate::text::owned(name)), functions }
    }

    /// A reference to an external module, with no function filter.
    pub fn new(path: &str) -> (r: MlirModule)
        ensures
            r.path matches Some(p) && p@ == path@,
            r.module_name is None,
            r.functions@.len() == 0,
    {
        MlirModule { path: Some(crate::text::owned(path)), module_name: None, functions: Vec::new() }
    }

    /// A reference to an external module restricted to the named functions.
    pub fn with_functions(path: &str, functions: &[&str]) -> (r: MlirModule)
        ensures
            r.path matches Some(p) && p@ == path@,
            r.module_name is None,
            r.functions@.len() == functions@.len(),
            forall|i: int| 0 <= i < functions@.len() ==> #[trigger] func_model(r.functions@[i])
                == (FuncModel { name: functions@[i]@, symbols: Seq::empty(), details: None }),
            forall|i: int| 0 <= i < r.functions@.len() ==> (#[trigger] r.functions@[i]).sym_map is None,
    {
        let mut out: Vec<MlirFunc> = Vec::new();
        let mut i: usize = 0;
        while i < functions.len()
            invariant
                i <= functions@.len(),
                out@.len() == i,
                forall|k: int| 0 <= k < i ==> #[trigger] func_model(out@[k])
                    == (FuncModel { name: functions@[k]@, symbols: Seq::empty(), details: None }),
                forall|k: int| 0 <= k < i ==> (#[trigger] out@[k]).sym_map is None,
            decreases functions.len() - i,
        {
            let f = MlirFunc::named(functions[i]);
            proof { assert(syms_model(f.symbols@) =~= Seq::<Seq<char>>::empty()); }
            out.push(f);
            i += 1;
        }
        MlirModule { path: Some(crate::text::owned(path)), module_name: None, functions: out }
    }

    /// Reads module text: exactly one `module [@name]` declaration, and every `func.func`.
    pub fn from_mlir_source(source: &str) -> (r: Result<MlirModule, String>)
        ensures
            match r {
                Ok(m) => m.path is None && module_text(source@) == Ok::<(Option<Seq<char>>, Seq<FuncModel>), Seq<char>>((
                    name_model(m.module_name),
                    m.functions@.map_values(|f: MlirFunc| func_model(f)),
                )) && forall|i: int| 0 <= i < m.functions@.len() ==> (#[trigger] m.functions@[i]).sym_map is None,
                Err(e) => module_text(source@) == Err::<(Option<Seq<char>>, Seq<FuncModel>), Seq<char>>(e@),
            },
    {
        let cs = crate::text::chars_of(source);
        let s = cs.as_slice();
        let module_name = match x_single_module(s) {
            Err(e) => return Err(e),
            Ok(n) => n,
        };
        let bs = match x_blocks(s) {
            Err(e) => return Err(e),
            Ok(bs) => bs,
        };
        let ghost bm = super::scan::ranges_model(bs@);
        let mut functions: Vec<MlirFunc> = Vec::new();
        let mut i: usize = 0;
        proof { assert(bm.skip(0) =~= bm); }
        while i < bs.len()
            invariant
                i <= bs@.len(),
                bm == super::scan::ranges_model(bs@),
                s@ == source@,
                blocks(s@, 0) == Ok::<Seq<(int, int)>, Seq<char>>(bm),
                single_module(s@) == Ok::<Option<Seq<char>>, Seq<char>>(name_model(module_name)),
                forall|k: int| 0 <= k < bs@.len() ==> (#[trigger] bs@[k]).0 <= bs@[k].1 <= s@.len(),
                forall|k: int| 0 <= k < functions@.len() ==> (#[trigger] functions@[k]).sym_map is None,
                read_blocks(s@, bm) == match read_blocks(s@, bm.skip(i as int)) {
                    Ok(rest) => Ok(functions@.map_values(|f: MlirFunc| func_model(f)) + rest),
                    Err(e) => Err(e),
                },
            decreases bs.len() - i,
        {
            let (a, b) = bs[i];
            let block = crate::text::from_char_range(s, a, b);
            proof {
                assert(bm.skip(i as int)[0] == (a as int, b as int));
                assert(bm.skip(i as int).drop_first() =~= bm.skip(i + 1));
            }
            match MlirFunc::from_mlir(block.as_str()) {
                Err(e) => {
                    proof {
                        assert(block@ == s@.subrange(bm.skip(i as int)[0].0, bm.skip(i as int)[0].1));
                        assert(read_blocks(s@, bm.skip(i as int)) == Err::<Seq<FuncModel>, Seq<char>>(e@));
                        assert(read_blocks(s@, bm) == Err::<Seq<FuncModel>, Seq<char>>(e@));
                    }
                    return Err(e);
                },
                Ok(f) => {
                    let ghost before = functions@;
                    let ghost fm = func_model(f);
                    functions.push(f);
                    proof {
                        assert(functions@.map_values(|f: MlirFunc| func_model(f)) =~= before.map_values(|f: MlirFunc| func_model(f)) + seq![fm]);
                        match read_blocks(s@, bm.skip(i + 1)) {
                            Ok(rest) => {
                                assert(before.map_values(|f: MlirFunc| func_model(f)) + (seq![fm] + rest)
                                    =~= functions@.map_values(|f: MlirFunc| func_model(f)) + rest);
                            },
                            Err(_) => {},
                        }
                    }
                },
            }
            i += 1;
        }
        proof {
            assert(bm.skip(bs@.len() as int) =~= Seq::<(int, int)>::empty());
            assert(functions@.map_values(|f: MlirFunc| func_model(f)) + Seq::<FuncModel>::empty()
                =~= functions@.map_values(|f: MlirFunc| func_model(f)));
        }
        Ok(MlirModule { path: None, module_name, functions })
    }

    /// The first function with this name.
    pub fn op(&self, name: &str) -> (r: Option<&MlirFunc>)
        ensures
            match r {
                Some(f) => exists|i: int| 0 <= i < self.functions@.len() && self.functions@[i] == *f
                    && f.name@ == name@ && forall|j: int| 0 <= j < i ==> self.functions@[j].name@ != name@,
                None => forall|j: int| 0 <= j < self.functions@.len() ==> self.functions@[j].name@ != name@,
            },
    {
        let mut i: usize = 0;
        while i < self.functions.len()
            invariant
                i <= self.functions@.len(),
                forall|j: int| 0 <= j < i ==> self.functions@[j].name@ != name@,
            decreases self.functions.len() - i,
        {
            if crate::text::str_eq(self.functions[i].name.as_str(), name) {
                return Some(&self.functions[i]);
            }
            i += 1;
        }
        None
    }
}

/// The symbols bound to shapes and areas of a function.
pub open spec fn shape_syms(f: MlirFunc) -> Set<Seq<char>> {
    match f.mlir_details {
        None => Set::empty(),
        Some(d) => {
            let td = d.tensor_symbol_bindings@;
            let md = d.memref_symbol_bindings@;
            Set::new(|n: Seq<char>|
                (exists|i: int| 0 <= i < td.len() && syms_model(td[i].symbols@).contains(n))
                || (exists|i: int| 0 <= i < md.len() && syms_model(md[i].symbols@).contains(n))
                || (exists|i: int| 0 <= i < d.copy_ops@.len() && dim_syms(d.copy_ops@[i]@.dims).contains(n))
                || (exists|i: int| 0 <= i < d.gather_ops@.len() && dim_syms(d.gather_ops@[i]@.area).contains(n)))
        },
    }
}

/// Adds each symbol of `more` by name.
fn add_all(out: &mut Vec<Sym>, more: &Vec<Sym>)
    ensures
        names(final(out)@) == names(old(out)@) + syms_model(more@).to_set(),
        distinct_names(old(out)@) ==> distinct_names(final(out)@),
{
    let mut i: usize = 0;
    proof { assert(names(out@) =~= names(old(out)@) + syms_model(more@).take(0).to_set()); }
    while i < more.len()
        invariant
            i <= more@.len(),
            names(out@) == names(old(out)@) + syms_model(more@).take(i as int).to_set(),
            distinct_names(old(out)@) ==> distinct_names(out@),
        decreases more.len() - i,
    {
        add_sym(out, &more[i]);
        proof {
            let a = syms_model(more@).take(i as int);
            let b = syms_model(more@).take(i + 1);
            let x = more@[i as int]@;
            assert(b =~= a.push(x));
            assert forall|n: Seq<char>| b.to_set().contains(n) == (a.to_set().contains(n) || n == x) by {
                if b.contains(n) {
                    let k = choose|k: int| 0 <= k < b.len() && b[k] == n;
                    if k < i {
                        assert(a[k] == n);
                    }
                }
                if a.contains(n) {
                    let k = choose|k: int| 0 <= k < a.len() && a[k] == n;
                    assert(b[k] == n);
                }
                if n == x {
                    assert(b[i as int] == x);
                }
            }
            assert(names(old(out)@) + b.to_set() =~= (names(old(out)@) + a.to_set()).insert(x));
        }
        i += 1;
    }
    proof { assert(syms_model(more@).take(more@.len() as int) =~= syms_model(more@)); }
}

impl MlirFunc {
    /// A function with no symbols and no interface metadata.
    pub fn named(name: &str) -> (r: MlirFunc)
        ensures
            r.name@ == name@,
            r.symbols@.len() == 0,
            r.mlir_details is None,
            r.sym_map is None,
    {
        MlirFunc { name: crate::text::owned(name), symbols: Vec::new(), mlir_details: None, sym_map: None }
    }

    /// A function with declared symbols and no interface metadata.
    pub fn with_symbols(name: &str, symbols: Vec<Sym>) -> (r: MlirFunc)
        ensures
            r.name@ == name@,
            r.symbols == symbols,
            r.mlir_details is None,
            r.sym_map is None,
    {
        MlirFunc { name: crate::text::owned(name), symbols, mlir_details: None, sym_map: None }
    }

    /// The symbols of the tensor and memref shape bindings and of the copy and gather
    /// areas, each once.
    pub fn shape_symbols(&self) -> (r: Vec<Sym>)
        ensures
            names(r@) == shape_syms(*self),
            distinct_names(r@),
    {
        let mut out: Vec<Sym> = Vec::new();
        proof { assert(names(out@) =~= Set::<Seq<char>>::empty()); }
        match &self.mlir_details {
            None => {
                proof { assert(shape_syms(*self) =~= Set::<Seq<char>>::empty()); }
                out
            },
            Some(d) => {
                let ghost td = d.tensor_symbol_bindings@;
                let ghost md = d.memref_symbol_bindings@;
                let mut i: usize = 0;
                while i < d.tensor_symbol_bindings.len()
                    invariant
                        i <= td.len(),
                        td == d.tensor_symbol_bindings@,
                        distinct_names(out@),
                        names(out@) == Set::new(|n: Seq<char>| exists|k: int| 0 <= k < i && syms_model(td[k].symbols@).contains(n)),
                    decreases td.len() - i,
                {
                    let ghost before = names(out@);
                    add_all(&mut out, &d.tensor_symbol_bindings[i].symbols);
                    proof {
                        assert(names(out@) =~= Set::new(|n: Seq<char>| exists|k: int| 0 <= k < i + 1 && syms_model(td[k].symbols@).contains(n))) by {
                            assert forall|n: Seq<char>| names(out@).contains(n) implies (exists|k: int| 0 <= k < i + 1 && syms_model(td[k].symbols@).contains(n)) by {
                                if !before.contains(n) {
                                    assert(syms_model(td[i as int].symbols@).contains(n));
                                }
                            }
                        }
                    }
                    i += 1;
                }
                let ghost s1 = names(out@);
                let mut j: usize = 0;
                while j < d.memref_symbol_bindings.len()
                    invariant
                        j <= md.len(),
                        md == d.memref_symbol_bindings@,
                        distinct_names(out@),
                        names(out@) == s1 + Set::new(|n: Seq<char>| exists|k: int| 0 <= k < j && syms_model(md[k].symbols@).contains(n)),
                    decreases md.len() - j,
                {
                    let ghost before = names(out@);
                    add_all(&mut out, &d.memref_symbol_bindings[j].symbols);
                    proof {
                        assert(names(out@) =~= s1 + Set::new(|n: Seq<char>| exists|k: int| 0 <= k < j + 1 && syms_model(md[k].symbols@).contains(n))) by {
                            assert forall|n: Seq<char>| names(out@).contains(n) && !s1.contains(n) implies (exists|k: int| 0 <= k < j + 1 && syms_model(md[k].symbols@).contains(n)) by {
                                if !before.contains(n) {
                                    assert(syms_model(md[j as int].symbols@).contains(n));
                                }
                            }
                        }
                    }
                    j += 1;
                }
                let ghost s2 = names(out@);
                let ghost cd = d.copy_ops@;
                let mut k: usize = 0;
                while k < d.copy_ops.len()
                    invariant
                        k <= cd.len(),
                        cd == d.copy_ops@,
                        distinct_names(out@),
                        names(out@) == s2 + Set::new(|n: Seq<char>| exists|q: int| 0 <= q < k && dim_syms(cd[q]@.dims).contains(n)),
                    decreases cd.len() - k,
                {
                    let ghost before = names(out@);
                    let more = d.copy_ops[k].broadcast_symbols();
                    add_all(&mut out, &more);
                    proof {
                        assert(names(out@) =~= s2 + Set::new(|n: Seq<char>| exists|q: int| 0 <= q < k + 1 && dim_syms(cd[q]@.dims).contains(n))) by {
                            assert forall|n: Seq<char>| names(out@).contains(n) && !s2.contains(n) implies (exists|q: int| 0 <= q < k + 1 && dim_syms(cd[q]@.dims).contains(n)) by {
                                if !before.contains(n) {
                                    assert(dim_syms(cd[k as int]@.dims).contains(n));
                                }
                            }
                        }
                    }
                    k += 1;
                }
                let ghost s3 = names(out@);
                let ghost gd = d.gather_ops@;
                let mut g: usize = 0;
                while g < d.gather_ops.len()
                    invariant
                        g <= gd.len(),
                        gd == d.gather_ops@,
                        distinct_names(out@),
                        names(out@) == s3 + Set::new(|n: Seq<char>| exists|q: int| 0 <= q < g && dim_syms(gd[q]@.area).contains(n)),
                    decreases gd.len() - g,
                {
                    let ghost before = names(out@);
                    let more = d.gather_ops[g].area_symbols();
                    add_all(&mut out, &more);
                    proof {
                        assert(names(out@) =~= s3 + Set::new(|n: Seq<char>| exists|q: int| 0 <= q < g + 1 && dim_syms(gd[q]@.area).contains(n))) by {
                            assert forall|n: Seq<char>| names(out@).contains(n) && !s3.contains(n) implies (exists|q: int| 0 <= q < g + 1 && dim_syms(gd[q]@.area).contains(n)) by {
                                if !before.contains(n) {
                                    assert(dim_syms(gd[g as int]@.area).contains(n));
                                }
                            }
                        }
                    }
                    g += 1;
                }
                proof { assert(names(out@) =~= shape_syms(*self)); }
                out
            },
        }
    }
}

impl MlirFuncDetails {
    /// The type of the first memref argument of this name.
    pub fn memref_type(&self, memref: &str) -> (r: Option<&str>)
        ensures
            match r {
                Some(t) => exists|i: int| 0 <= i < self.memref_arg_types@.len() && self.memref_arg_types@[i].0@ == memref@
                    && self.memref_arg_types@[i].1@ == t@
                    && forall|j: int| 0 <= j < i ==> self.memref_arg_types@[j].0@ != memref@,
                None => forall|j: int| 0 <= j < self.memref_arg_types@.len() ==> self.memref_arg_types@[j].0@ != memref@,
            },
    {
        let mut i: usize = 0;
        while i < self.memref_arg_types.len()
            invariant
                i <= self.memref_arg_types@.len(),
                forall|j: int| 0 <= j < i ==> self.memref_arg_types@[j].0@ != memref@,
            decreases self.memref_arg_types.len() - i,
        {
            if crate::text::str_eq(self.memref_arg_types[i].0.as_str(), memref) {
                return Some(self.memref_arg_types[i].1.as_str());
            }
            i += 1;
        }
        None
    }
}

} // verus!
