//! A processor definition file: its name and type, the source of its functions (compact
//! Loom or native MLIR), its resources, and the performance alternatives of its functions.
use vstd::prelude::*;

use super::perf_yaml::{
    func_names, funcs_model, function_name_set, lemma_no_problem_distinct, mismatch_text,
    model_builds, model_built, model_failed, names_mismatch, perf_error_text, perf_names,
    same_names, PerfErrModel, PerformanceYaml,
};
use super::processor::{OperationModel, ProcessorDefinition, ProcessorType};
use super::yaml::{invalid, ArchLoadError, ResourceYaml};
use crate::math::expr::{contains_name, distinct_names, names, sort_symbols, sorted_names, Sym};
use crate::mlir::func::MlirFunc;
use crate::mlir::loom::{func_matches, loom_source_model};
use crate::mlir::module::module_text;
use crate::text::{owned, push_str, str_eq};

verus! {

/// A processor definition as the YAML file holds it.
pub struct ProcessorYaml {
    pub name: Option<String>,
    pub processor_type: Option<ProcessorType>,
    /// The source file, relative to the definition file.
    pub source: String,
    pub resources: Vec<ResourceYaml>,
    pub performance: Option<PerformanceYaml>,
}

/// The source is compact Loom (`Some(true)`), native MLIR (`Some(false)`), or neither, by
/// its file extension.
pub open spec fn source_kind(ext: Option<&str>) -> Option<bool> {
    match ext {
        Some(x) => if x@ == "loom"@ { Some(true) } else if x@ == "mlir"@ { Some(false) } else { None },
        None => None,
    }
}

/// The functions `fs` are what the source gives.
pub open spec fn source_gives(loom: bool, src: Seq<char>, fs: Seq<MlirFunc>) -> bool {
    if loom {
        loom_source_model(src) matches Ok(ms) && fs.len() == ms.len()
            && forall|k: int| 0 <= k < ms.len() ==> func_matches(#[trigger] fs[k], ms[k])
    } else {
        module_text(src) matches Ok(x) && x.1 == funcs_model(fs)
    }
}

/// Why the source gives no functions, if it does not.
pub open spec fn source_fails(loom: bool, src: Seq<char>) -> Option<Seq<char>> {
    if loom {
        match loom_source_model(src) {
            Err(e) => Some("invalid compact Loom source: "@ + e),
            Ok(_) => None,
        }
    } else {
        match module_text(src) {
            Err(e) => Some(e),
            Ok(_) => None,
        }
    }
}

/// A file stem without its trailing `.processor` suffixes.
pub open spec fn trim_processor(t: Seq<char>) -> Seq<char>
    decreases t.len(),
{
    if t.len() >= 10 && t.subrange(t.len() - 10, t.len() as int) == ".processor"@ {
        trim_processor(t.subrange(0, t.len() - 10))
    } else {
        t
    }
}

/// The definition's name: its own, else the definition file's stem without `.processor`,
/// else `processor`.
pub open spec fn processor_name(y: ProcessorYaml, stem: Option<&str>) -> Seq<char> {
    match y.name {
        Some(n) => n@,
        None => match stem {
            Some(t) => trim_processor(t@),
            None => "processor"@,
        },
    }
}

/// One operation of the definition: the function with its model's symbols added and all
/// sorted, and the function's model.
pub open spec fn operation_built(p: PerformanceYaml, f: MlirFunc, op: OperationModel) -> bool {
    &&& model_built(p, f, op.perf)
    &&& op.func.name == f.name
    &&& op.func.mlir_details == f.mlir_details
    &&& op.func.sym_map == f.sym_map
    &&& names(op.func.symbols@) == names(f.symbols@) + names(op.perf.symbols@)
    &&& sorted_names(op.func.symbols@)
}

/// `d` is the definition that the file, its stem, and the source with its extension give.
pub open spec fn definition_built(y: ProcessorYaml, stem: Option<&str>, ext: Option<&str>, src: Seq<char>, d: ProcessorDefinition) -> bool {
    &&& source_kind(ext) matches Some(loom)
    &&& y.performance matches Some(p)
    &&& exists|fs: Seq<MlirFunc>| {
        &&& #[trigger] source_gives(loom, src, fs)
        &&& func_names(fs) == perf_names(p)
        &&& d.functions@.len() == fs.len()
        &&& forall|k: int| 0 <= k < fs.len() ==> operation_built(p, fs[k], #[trigger] d.functions@[k])
    }
    &&& d.name@ == processor_name(y, stem)
    &&& d.processor_type == y.processor_type
    &&& d.source@ == src
    &&& d.resources@.len() == y.resources@.len()
    &&& forall|k: int| 0 <= k < d.resources@.len() ==> {
        &&& (#[trigger] d.resources@[k]).name@ == y.resources@[k].name@
        &&& d.resources@[k].capacity == y.resources@[k].capacity
        &&& d.resources@[k].indices@.len() == 0
    }
}

/// `e` is why no definition is had: the extension, the source, a missing performance
/// section, function names that differ, or the first function without a model.
pub open spec fn definition_failed(y: ProcessorYaml, yaml_path: Seq<char>, source_path: Seq<char>, ext: Option<&str>, src: Seq<char>, e: ArchLoadError) -> bool {
    match source_kind(ext) {
        None => invalid(e, source_path + " must have a .loom or .mlir extension"@),
        Some(loom) => match source_fails(loom, src) {
            Some(m) => invalid(e, source_path + ": "@ + m),
            None => match y.performance {
                None => invalid(e, yaml_path + " must define `performance`"@),
                Some(p) => exists|fs: Seq<MlirFunc>| #[trigger] source_gives(loom, src, fs) && if func_names(fs) != perf_names(p) {
                    exists|t: Seq<char>| names_mismatch(func_names(fs), perf_names(p), t)
                        && invalid(e, yaml_path + " function names do not match compact Loom source: "@ + t)
                } else {
                    exists|k: int, pe: PerfErrModel| {
                        &&& 0 <= k < fs.len()
                        &&& forall|j: int| 0 <= j < k ==> model_builds(p, #[trigger] fs[j])
                        &&& #[trigger] model_failed(p, fs[k], pe)
                        &&& invalid(e, perf_error_text(pe))
                    }
                },
            },
        },
    }
}

/// The symbols of both lists, each once, sorted.
fn merged_symbols(a: &Vec<Sym>, b: &Vec<Sym>) -> (r: Vec<Sym>)
    requires
        distinct_names(a@),
    ensures
        names(r@) == names(a@) + names(b@),
        sorted_names(r@),
{
    let mut out: Vec<Sym> = Vec::new();
    let mut i: usize = 0;
    proof { assert(names(out@) =~= Set::<Seq<char>>::empty()); }
    while i < a.len()
        invariant
            i <= a@.len(),
            distinct_names(a@),
            out@ == a@.take(i as int),
        decreases a.len() - i,
    {
        out.push(a[i].clone());
        proof { assert(out@ =~= a@.take(i + 1)); }
        i += 1;
    }
    proof { assert(out@ =~= a@); }
    let mut j: usize = 0;
    while j < b.len()
        invariant
            j <= b@.len(),
            distinct_names(out@),
            names(out@) == names(a@) + names(b@.take(j as int)),
        decreases b.len() - j,
    {
        let ghost before = out@;
        let s = &b[j];
        if !contains_name(&out, s) {
            out.push(s.clone());
        }
        proof {
            assert(names(out@) =~= names(before).insert(s@)) by {
                assert forall|n: Seq<char>| names(out@).contains(n) implies names(before).insert(s@).contains(n) by {
                    let k = choose|k: int| 0 <= k < out@.len() && #[trigger] out@[k]@ == n;
                    if k < before.len() { assert(before[k] == out@[k]); }
                }
                assert forall|n: Seq<char>| names(before).insert(s@).contains(n) implies names(out@).contains(n) by {
                    if n == s@ {
                        if out@.len() > before.len() { assert(out@[before.len() as int]@ == n); }
                    } else {
                        let k = choose|k: int| 0 <= k < before.len() && #[trigger] before[k]@ == n;
                        assert(out@[k] == before[k]);
                    }
                }
            }
            let t = b@.take(j + 1);
            let t0 = b@.take(j as int);
            assert(names(t) =~= names(t0).insert(s@)) by {
                assert forall|n: Seq<char>| names(t).contains(n) implies names(t0).insert(s@).contains(n) by {
                    let k = choose|k: int| 0 <= k < t.len() && #[trigger] t[k]@ == n;
                    if k < j { assert(t0[k] == t[k]); }
                }
                assert forall|n: Seq<char>| names(t0).insert(s@).contains(n) implies names(t).contains(n) by {
                    if n == s@ {
                        assert(t[j as int]@ == n);
                    } else {
                        let k = choose|k: int| 0 <= k < t0.len() && #[trigger] t0[k]@ == n;
                        assert(t[k] == t0[k]);
                    }
                }
            }
            assert(names(out@) =~= names(a@) + names(t));
        }
        j += 1;
    }
    proof { assert(b@.take(b@.len() as int) =~= b@); }
    sort_symbols(out)
}

/// The stem without its trailing `.processor` suffixes.
fn x_trim_processor(t: &str) -> (r: String)
    ensures
        r@ == trim_processor(t@),
{
    let cs = crate::text::chars_of(t);
    let suffix = crate::text::chars_of(".processor");
    let mut n: usize = cs.len();
    proof { assert(cs@.subrange(0, n as int) =~= t@); }
    while n >= 10 && crate::text::starts_with_at(cs.as_slice(), n - 10, suffix.as_slice())
        invariant
            n <= cs@.len(),
            suffix@ == ".processor"@,
            trim_processor(t@) == trim_processor(cs@.subrange(0, n as int)),
        decreases n,
    {
        proof {
            reveal_strlit(".processor");
            let u = cs@.subrange(0, n as int);
            assert(u.subrange(u.len() - 10, u.len() as int) =~= cs@.subrange(n - 10, n as int));
            assert(u.subrange(0, u.len() - 10) =~= cs@.subrange(0, n - 10));
        }
        n -= 10;
    }
    proof {
        reveal_strlit(".processor");
        let u = cs@.subrange(0, n as int);
        if n >= 10 {
            assert(u.subrange(u.len() - 10, u.len() as int) =~= cs@.subrange(n - 10, n as int));
        }
    }
    crate::text::from_char_range(cs.as_slice(), 0, n)
}

fn ext_error(source_path: &str) -> (r: ArchLoadError)
    ensures
        invalid(r, source_path@ + " must have a .loom or .mlir extension"@),
{
    let mut m = owned(source_path);
    push_str(&mut m, " must have a .loom or .mlir extension");
    ArchLoadError::Invalid(m)
}

fn path_error(path: &str, message: &str) -> (r: ArchLoadError)
    ensures
        invalid(r, path@ + message@),
{
    let mut m = owned(path);
    push_str(&mut m, message);
    ArchLoadError::Invalid(m)
}

impl ProcessorYaml {
    /// The processor definition this file describes, given the definition file's path and
    /// stem and the source file's path, extension and text (read from the file that
    /// `source` names, beside the definition file). The source must be compact Loom or
    /// native MLIR and parse; the performance section must exist and name exactly the
    /// source's functions; each function gets its model and the model's symbols; the name
    /// is the file's own, else the stem without `.processor`.
    pub fn build_definition(
        &self,
        yaml_path: &str,
        yaml_stem: Option<&str>,
        source_path: &str,
        source_extension: Option<&str>,
        source: String,
    ) -> (r: Result<ProcessorDefinition, ArchLoadError>)
        ensures
            match r {
                Ok(d) => definition_built(*self, yaml_stem, source_extension, source@, d),
                Err(e) => definition_failed(*self, yaml_path@, source_path@, source_extension, source@, e),
            },
    {
        let loom = match source_extension {
            Some(x) => if str_eq(x, "loom") {
                true
            } else if str_eq(x, "mlir") {
                false
            } else {
                return Err(ext_error(source_path));
            },
            None => { return Err(ext_error(source_path)); },
        };
        proof { assert(source_kind(source_extension) == Some(loom)); }
        let module = if loom {
            match crate::mlir::loom::parse_loom_source(source.as_str()) {
                Ok(m) => m,
                Err(err) => {
                    let mut t = owned(": ");
                    push_str(&mut t, err.message().as_str());
                    let e = path_error(source_path, t.as_str());
                    proof { assert(source_path@ + t@ =~= source_path@ + ": "@ + source_fails(loom, source@)->0); }
                    return Err(e);
                },
            }
        } else {
            match crate::mlir::func::MlirModule::from_mlir_source(source.as_str()) {
                Ok(m) => m,
                Err(err) => {
                    let mut t = owned(": ");
                    push_str(&mut t, err.as_str());
                    let e = path_error(source_path, t.as_str());
                    proof { assert(source_path@ + t@ =~= source_path@ + ": "@ + source_fails(loom, source@)->0); }
                    return Err(e);
                },
            }
        };
        let ghost fs = module.functions@;
        proof {
            if !loom {
                assert(funcs_model(fs) =~= module.functions@.map_values(|f: MlirFunc| crate::mlir::func::func_model(f)));
            }
            assert(source_gives(loom, source@, fs));
            assert(source_fails(loom, source@) is None);
        }
        let spec = match &self.performance {
            Some(p) => p,
            None => { return Err(path_error(yaml_path, " must define `performance`")); },
        };
        let source_names = function_name_set(&module.functions);
        let performance_names = spec.function_names();
        if !same_names(&source_names, &performance_names) {
            let mut t = owned(" function names do not match compact Loom source: ");
            let m = mismatch_text(&source_names, &performance_names);
            push_str(&mut t, m.as_str());
            let e = path_error(yaml_path, t.as_str());
            proof {
                assert(yaml_path@ + t@ =~= yaml_path@ + " function names do not match compact Loom source: "@ + m@);
                assert(names_mismatch(func_names(fs), perf_names(*spec), m@));
            }
            return Err(e);
        }
        let mut funcs = module.functions;
        let n = funcs.len();
        let mut ops: Vec<OperationModel> = Vec::new();
        let mut i: usize = 0;
        while i < n
            invariant
                n == fs.len(),
                i <= n,
                funcs@ == fs.skip(i as int),
                source_kind(source_extension) == Some(loom),
                source_fails(loom, source@) is None,
                self.performance == Some(*spec),
                source_gives(loom, source@, fs),
                func_names(fs) == perf_names(*spec),
                ops@.len() == i,
                forall|k: int| 0 <= k < i ==> operation_built(*spec, fs[k], #[trigger] ops@[k]),
            decreases n - i,
        {
            let mut f = funcs.remove(0);
            proof {
                assert(f == fs[i as int]);
                assert(funcs@ =~= fs.skip(i + 1));
            }
            let perf = match spec.model_for_func(&f) {
                Ok(m) => m,
                Err(pe) => {
                    let e = ArchLoadError::Invalid(pe.message());
                    proof {
                        assert forall|j: int| 0 <= j < i implies model_builds(*spec, #[trigger] fs[j]) by {
                            assert(model_built(*spec, fs[j], ops@[j].perf));
                        }
                        assert(model_failed(*spec, fs[i as int], pe@));
                        assert(invalid(e, perf_error_text(pe@)));
                    }
                    return Err(e);
                },
            };
            proof { lemma_no_problem_distinct(f.symbols@); }
            let symbols = merged_symbols(&f.symbols, &perf.symbols);
            let ghost f0 = f;
            f.symbols = symbols;
            let op = OperationModel::new(f, perf);
            proof { assert(operation_built(*spec, f0, op)); }
            ops.push(op);
            i += 1;
        }
        let name = match &self.name {
            Some(t) => t.clone(),
            None => match yaml_stem {
                Some(t) => x_trim_processor(t),
                None => owned("processor"),
            },
        };
        let resources = super::chip::x_resources(&self.resources);
        let d = ProcessorDefinition { name, processor_type: self.processor_type, source, functions: ops, resources };
        proof {
            assert(source_gives(loom, source@, fs) && func_names(fs) == perf_names(*spec) && d.functions@.len() == fs.len()
                && forall|k: int| 0 <= k < fs.len() ==> operation_built(*spec, fs[k], #[trigger] d.functions@[k]));
        }
        Ok(d)
    }
}

} // verus!
