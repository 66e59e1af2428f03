//! Building an architecture from a chip file: the parameters and their bindings are
//! checked, the catalog and the dimension sizes resolved, and the placements, networks,
//! resources and scopes assembled into a builder that checks the result.
use vstd::prelude::*;

use super::architecture::Architecture;
use super::axis::Axis;
use super::builder::ArchitectureBuilder;
use super::network::NetworkTopology;
use super::processor::{Connection, ProcessorDefinition};
use super::resource::Resource;
use super::scope::Scope;
use super::memory::MemoryDefinition;
use super::yaml::{
    axes_pairs, binding_names, bindings_ok, catalog_literals_ok, catalog_spec, chip_literals_ok,
    chip_assembled, chip_failure, network_fails_at, chip_prelude, defs_model, dims_list, dims_spec, distinct_texts, expr_bindings, invalid,
    builder_placement, connection_built, definition_files, network_builds, network_built, network_error,
    placement_model, position_of, scope_built, MemoryPlacementYaml, NetworkYaml,
    ProcessorPlacementYaml, ResourceYaml, ScopeYaml, add_distinct, loaded_defs,
    least_unbound, literal_ok, resolve_spec, unknown_binding, ArchLoadError, ChipYaml,
    DimensionSizeYaml, MemoryCatalogYaml,
};
use crate::math::expr::{mappings_model, Expr, Sym};
use crate::text::{chars_lt, chars_of, owned, push_str, seq_lt, str_eq, texts};

verus! {

/// Whether the parameters are pairwise distinct.
fn x_distinct(params: &Vec<String>) -> (r: bool)
    ensures
        r == distinct_texts(texts(params@)),
{
    let ghost t = texts(params@);
    let mut i: usize = 0;
    while i < params.len()
        invariant
            i <= params@.len(),
            t == texts(params@),
            forall|a: int, b: int| 0 <= a < b < t.len() && a < i ==> #[trigger] t[a] != #[trigger] t[b],
        decreases params.len() - i,
    {
        let mut j: usize = i + 1;
        while j < params.len()
            invariant
                i < params@.len(),
                i + 1 <= j <= params@.len(),
                t == texts(params@),
                forall|a: int, b: int| 0 <= a < b < t.len() && a < i ==> #[trigger] t[a] != #[trigger] t[b],
                forall|b: int| i < b < j ==> t[i as int] != #[trigger] t[b],
            decreases params.len() - j,
        {
            if str_eq(params[i].as_str(), params[j].as_str()) {
                proof { assert(t[i as int] == t[j as int]); }
                return false;
            }
            j += 1;
        }
        i += 1;
    }
    true
}

/// Whether `p` is the name of a binding.
fn is_bound(bindings: &[(String, u64)], p: &str) -> (r: bool)
    ensures
        r == binding_names(bindings@).contains(p@),
{
    let ghost names = binding_names(bindings@);
    let mut i: usize = 0;
    while i < bindings.len()
        invariant
            i <= bindings@.len(),
            names == binding_names(bindings@),
            forall|k: int| 0 <= k < i ==> #[trigger] names[k] != p@,
        decreases bindings.len() - i,
    {
        if str_eq(bindings[i].0.as_str(), p) {
            proof { assert(names[i as int] == p@); }
            return true;
        }
        i += 1;
    }
    false
}

/// The position of the first binding whose name is not a parameter.
fn x_unknown_binding(params: &Vec<String>, bindings: &[(String, u64)]) -> (r: Option<usize>)
    ensures
        match r {
            Some(k) => k < bindings@.len() && unknown_binding(texts(params@), bindings@) == Some(bindings@[k as int].0@),
            None => unknown_binding(texts(params@), bindings@) is None,
        },
{
    let ghost p = texts(params@);
    let mut i: usize = 0;
    proof { assert(bindings@.skip(0) =~= bindings@); }
    while i < bindings.len()
        invariant
            i <= bindings@.len(),
            p == texts(params@),
            unknown_binding(p, bindings@) == unknown_binding(p, bindings@.skip(i as int)),
        decreases bindings.len() - i,
    {
        proof {
            assert(bindings@.skip(i as int)[0] == bindings@[i as int]);
            assert(bindings@.skip(i as int).drop_first() =~= bindings@.skip(i + 1));
        }
        if !crate::math::checked::contains_text(params.as_slice(), bindings[i].0.as_str()) {
            return Some(i);
        }
        i += 1;
    }
    None
}

/// Two least unbound parameters are the same.
pub proof fn lemma_least_unbound_unique(params: Seq<Seq<char>>, b: Seq<(String, u64)>, p: Seq<char>, q: Seq<char>)
    requires
        least_unbound(params, b, p),
        least_unbound(params, b, q),
    ensures
        p == q,
{
    crate::text::lemma_seq_lt_total(p, q);
}

/// The position of the least parameter, by name, that has no binding.
fn x_least_unbound(params: &Vec<String>, bindings: &[(String, u64)]) -> (r: Option<usize>)
    ensures
        match r {
            Some(k) => k < params@.len() && least_unbound(texts(params@), bindings@, params@[k as int]@),
            None => !exists|p: Seq<char>| least_unbound(texts(params@), bindings@, p),
        },
{
    let ghost t = texts(params@);
    let ghost names = binding_names(bindings@);
    let mut best: Option<usize> = None;
    let mut i: usize = 0;
    while i < params.len()
        invariant
            i <= params@.len(),
            t == texts(params@),
            names == binding_names(bindings@),
            match best {
                Some(k) => k < i && !names.contains(t[k as int])
                    && forall|j: int| 0 <= j < i && !names.contains(#[trigger] t[j]) ==> !seq_lt(t[j], t[k as int]),
                None => forall|j: int| 0 <= j < i ==> names.contains(#[trigger] t[j]),
            },
        decreases params.len() - i,
    {
        if !is_bound(bindings, params[i].as_str()) {
            match best {
                None => {
                    proof { crate::text::lemma_seq_lt_irreflexive(t[i as int]); }
                    best = Some(i);
                },
                Some(k) => {
                    let a = chars_of(params[i].as_str());
                    let c = chars_of(params[k].as_str());
                    if chars_lt(a.as_slice(), c.as_slice()) {
                        proof {
                            crate::text::lemma_seq_lt_irreflexive(t[i as int]);
                            assert forall|j: int| 0 <= j < i + 1 && !names.contains(#[trigger] t[j]) implies !seq_lt(t[j], t[i as int]) by {
                                if j < i && seq_lt(t[j], t[i as int]) {
                                    crate::text::lemma_seq_lt_transitive(t[j], t[i as int], t[k as int]);
                                }
                            }
                        }
                        best = Some(i);
                    }
                },
            }
        }
        i += 1;
    }
    match best {
        Some(k) => {
            proof {
                assert(t[k as int] == params@[k as int]@);
                assert forall|q: Seq<char>| t.contains(q) && !names.contains(q) implies !seq_lt(q, t[k as int]) by {
                    let j = choose|j: int| 0 <= j < t.len() && t[j] == q;
                }
            }
            Some(k)
        },
        None => {
            proof {
                assert forall|q: Seq<char>| !least_unbound(t, bindings@, q) by {
                    if t.contains(q) {
                        let j = choose|j: int| 0 <= j < t.len() && t[j] == q;
                    }
                }
            }
            None
        },
    }
}

pub proof fn lemma_dims_err(
    ds: Seq<(String, DimensionSizeYaml)>,
    declared: Seq<Seq<char>>,
    subs: Seq<(Seq<char>, crate::math::expr::ExprModel)>,
    j: int,
)
    requires
        0 <= j <= ds.len(),
        dims_spec(ds.take(j), declared, subs) is Err,
    ensures
        dims_spec(ds, declared, subs) == dims_spec(ds.take(j), declared, subs),
    decreases ds.len(),
{
    if ds.len() == j {
        assert(ds.take(j) =~= ds);
    } else {
        assert(ds.drop_last().take(j) =~= ds.take(j));
        lemma_dims_err(ds.drop_last(), declared, subs, j);
    }
}

/// The dimensions resolved in order, as axes and as named sizes.
fn x_dims(ds: &Vec<(String, DimensionSizeYaml)>, declared: &[String], subs: &[(Sym, Expr)]) -> (r: Result<(Vec<Axis>, Vec<(String, u64)>), ArchLoadError>)
    requires
        forall|k: int| 0 <= k < ds@.len() ==> literal_ok(#[trigger] ds@[k].1),
    ensures
        match r {
            Ok((axes, named)) => dims_spec(ds@, texts(declared@), mappings_model(subs@)) == Ok::<Seq<(Seq<char>, u64)>, Seq<char>>(axes_pairs(axes@))
                && named@.len() == axes@.len()
                && forall|k: int| 0 <= k < named@.len() ==> #[trigger] named@[k] == (ds@[k].0, axes@[k].extent),
            Err(e) => dims_spec(ds@, texts(declared@), mappings_model(subs@)) matches Err(m) && invalid(e, m),
        },
{
    let ghost d = texts(declared@);
    let ghost sm = mappings_model(subs@);
    let mut axes: Vec<Axis> = Vec::new();
    let mut named: Vec<(String, u64)> = Vec::new();
    let mut i: usize = 0;
    proof { assert(axes_pairs(axes@) =~= Seq::<(Seq<char>, u64)>::empty()); assert(ds@.take(0) =~= Seq::<(String, DimensionSizeYaml)>::empty()); }
    while i < ds.len()
        invariant
            i <= ds@.len(),
            d == texts(declared@),
            sm == mappings_model(subs@),
            forall|k: int| 0 <= k < ds@.len() ==> literal_ok(#[trigger] ds@[k].1),
            dims_spec(ds@.take(i as int), d, sm) == Ok::<Seq<(Seq<char>, u64)>, Seq<char>>(axes_pairs(axes@)),
            named@.len() == axes@.len(),
            axes@.len() == i,
            forall|k: int| 0 <= k < named@.len() ==> #[trigger] named@[k] == (ds@[k].0, axes@[k].extent),
        decreases ds.len() - i,
    {
        let name = &ds[i].0;
        proof {
            assert(ds@.take(i + 1).drop_last() =~= ds@.take(i as int));
            assert(ds@.take(i + 1).last() == ds@[i as int]);
            assert(literal_ok(ds@[i as int].1));
        }
        let mut label = owned("dimension '");
        push_str(&mut label, name.as_str());
        push_str(&mut label, "'");
        proof { assert(label@ =~= "dimension '"@ + name@ + "'"@); }
        let v = match ds[i].1.resolve(label.as_str(), declared, subs) {
            Ok(v) => v,
            Err(e) => {
                proof { lemma_dims_err(ds@, d, sm, i + 1); }
                return Err(e);
            },
        };
        let ghost before = axes@;
        axes.push(Axis::new(name.as_str(), v));
        named.push((name.clone(), v));
        proof { assert(axes_pairs(axes@) =~= axes_pairs(before).push((name@, v))); }
        i += 1;
    }
    proof { assert(ds@.take(ds@.len() as int) =~= ds@); }
    Ok((axes, named))
}

/// The parameters checked against the bindings, the catalog built and the dimensions
/// resolved.
fn x_prelude(c: &ChipYaml, catalog: MemoryCatalogYaml, bindings: &[(String, u64)]) -> (r: Result<(Vec<MemoryDefinition>, Vec<Axis>, Vec<(String, u64)>), ArchLoadError>)
    requires
        chip_literals_ok(*c, catalog, bindings@),
    ensures
        match r {
            Ok((defs, axes, named)) => chip_prelude(*c, catalog, bindings@) == Ok::<(Seq<super::yaml::DefModel>, Seq<(Seq<char>, u64)>), Seq<char>>((defs_model(defs@), axes_pairs(axes@)))
                && named@ == dims_list(*c, axes_pairs(axes@)),
            Err(e) => chip_prelude(*c, catalog, bindings@) matches Err(m) && invalid(e, m),
        },
{
    let ghost params = texts(c.parameters@);
    if !x_distinct(&c.parameters) {
        let m = owned("duplicate architecture parameter");
        return Err(ArchLoadError::Invalid(m));
    }
    match x_unknown_binding(&c.parameters, bindings) {
        Some(k) => {
            let mut m = owned("binding supplied for unknown architecture parameter '");
            push_str(&mut m, bindings[k].0.as_str());
            push_str(&mut m, "'");
            proof { assert(m@ =~= "binding supplied for unknown architecture parameter '"@ + bindings@[k as int].0@ + "'"@); }
            return Err(ArchLoadError::Invalid(m));
        },
        None => {},
    }
    match x_least_unbound(&c.parameters, bindings) {
        Some(k) => {
            let mut m = owned("architecture parameter '");
            push_str(&mut m, c.parameters[k].as_str());
            push_str(&mut m, "' has no binding");
            proof {
                let p = choose|p: Seq<char>| least_unbound(params, bindings@, p);
                lemma_least_unbound_unique(params, bindings@, p, c.parameters@[k as int]@);
                assert(m@ =~= "architecture parameter '"@ + c.parameters@[k as int]@ + "' has no binding"@);
            }
            return Err(ArchLoadError::Invalid(m));
        },
        None => {},
    }
    let (ebind, _abind) = super::yaml::x_bindings(bindings);
    let (defs, _regions) = catalog.build(c.parameters.as_slice(), ebind.as_slice())?;
    let (axes, named) = x_dims(&c.dimensions, c.parameters.as_slice(), ebind.as_slice())?;
    proof { assert(named@ =~= dims_list(*c, axes_pairs(axes@))); }
    Ok((defs, axes, named))
}

/// The memory placements as (name, model, axes).
fn x_placements(ms: &Vec<(String, MemoryPlacementYaml)>) -> (r: Vec<(String, String, Vec<String>)>)
    ensures
        r@.map_values(|p: (String, String, Vec<String>)| builder_placement(p))
            == ms@.map_values(|m: (String, MemoryPlacementYaml)| placement_model(m)),
{
    let mut out: Vec<(String, String, Vec<String>)> = Vec::new();
    let mut i: usize = 0;
    while i < ms.len()
        invariant
            i <= ms@.len(),
            out@.map_values(|p: (String, String, Vec<String>)| builder_placement(p))
                == ms@.map_values(|m: (String, MemoryPlacementYaml)| placement_model(m)).take(i as int),
        decreases ms.len() - i,
    {
        let ghost before = out@;
        let name = &ms[i].0;
        let p = match &ms[i].1 {
            MemoryPlacementYaml::Direct(d) => (name.clone(), name.clone(), d.clone()),
            MemoryPlacementYaml::Detailed { model, dimensions } => (name.clone(), model.clone(), dimensions.clone()),
        };
        proof {
            assert(builder_placement(p) == placement_model(ms@[i as int]));
        }
        out.push(p);
        proof {
            assert(out@.map_values(|p: (String, String, Vec<String>)| builder_placement(p))
                =~= before.map_values(|p: (String, String, Vec<String>)| builder_placement(p)).push(placement_model(ms@[i as int])));
            assert(ms@.map_values(|m: (String, MemoryPlacementYaml)| placement_model(m)).take(i + 1)
                =~= ms@.map_values(|m: (String, MemoryPlacementYaml)| placement_model(m)).take(i as int).push(placement_model(ms@[i as int])));
        }
        i += 1;
    }
    proof {
        assert(ms@.map_values(|m: (String, MemoryPlacementYaml)| placement_model(m)).take(ms@.len() as int)
            =~= ms@.map_values(|m: (String, MemoryPlacementYaml)| placement_model(m)));
    }
    out
}

/// The resources of the chip, not indexed.
pub(crate) fn x_resources(rs: &Vec<ResourceYaml>) -> (r: Vec<Resource>)
    ensures
        r@.len() == rs@.len(),
        forall|k: int| 0 <= k < r@.len() ==> {
            &&& (#[trigger] r@[k]).name@ == rs@[k].name@
            &&& r@[k].capacity == rs@[k].capacity
            &&& r@[k].indices@.len() == 0
        },
{
    let mut out: Vec<Resource> = Vec::new();
    let mut i: usize = 0;
    while i < rs.len()
        invariant
            i <= rs@.len(),
            out@.len() == i,
            forall|k: int| 0 <= k < out@.len() ==> {
                &&& (#[trigger] out@[k]).name@ == rs@[k].name@
                &&& out@[k].capacity == rs@[k].capacity
                &&& out@[k].indices@.len() == 0
            },
        decreases rs.len() - i,
    {
        out.push(rs[i].build());
        i += 1;
    }
    out
}

/// The scopes of the chip.
fn x_scopes(ss: &Vec<ScopeYaml>) -> (r: Vec<Scope>)
    ensures
        r@.len() == ss@.len(),
        forall|k: int| 0 <= k < r@.len() ==> scope_built(ss@[k], #[trigger] r@[k]),
{
    let mut out: Vec<Scope> = Vec::new();
    let mut i: usize = 0;
    while i < ss.len()
        invariant
            i <= ss@.len(),
            out@.len() == i,
            forall|k: int| 0 <= k < out@.len() ==> scope_built(ss@[k], #[trigger] out@[k]),
        decreases ss.len() - i,
    {
        out.push(ss[i].build());
        i += 1;
    }
    out
}

/// The networks before `k` build, and network `k` fails with the error `e`.
pub open spec fn networks_fail_at(nets: Seq<NetworkYaml>, named: Seq<(String, u64)>, b: Seq<(String, u64)>, e: ArchLoadError, k: int) -> bool {
    &&& 0 <= k < nets.len()
    &&& forall|j: int| 0 <= j < k ==> network_builds(#[trigger] nets[j], named, b)
    &&& exists|m: Seq<char>| invalid(e, m) && network_error(nets[k], named, b, m)
}

/// The networks built in order; the first that fails gives the error.
fn x_networks(nets: &Vec<NetworkYaml>, named: &Vec<(String, u64)>, bindings: &[(String, u64)]) -> (r: Result<Vec<NetworkTopology>, ArchLoadError>)
    requires
        bindings_ok(bindings@),
    ensures
        match r {
            Ok(v) => v@.len() == nets@.len()
                && forall|k: int| 0 <= k < v@.len() ==> network_built(nets@[k], named@, bindings@, #[trigger] v@[k]),
            Err(e) => exists|k: int| #[trigger] networks_fail_at(nets@, named@, bindings@, e, k),
        },
{
    let mut out: Vec<NetworkTopology> = Vec::new();
    let mut i: usize = 0;
    while i < nets.len()
        invariant
            i <= nets@.len(),
            bindings_ok(bindings@),
            out@.len() == i,
            forall|k: int| 0 <= k < out@.len() ==> network_built(nets@[k], named@, bindings@, #[trigger] out@[k]),
        decreases nets.len() - i,
    {
        let sizes = named.as_slice();
        let built = nets[i].build(sizes, bindings);
        match built {
            Ok(t) => out.push(t),
            Err(e) => {
                proof {
                    assert(sizes@ == named@);
                    let m = choose|m: Seq<char>| invalid(e, m) && network_error(nets@[i as int], named@, bindings@, m);
                    assert forall|j: int| 0 <= j < i implies network_builds(#[trigger] nets@[j], named@, bindings@) by {
                        assert(network_built(nets@[j], named@, bindings@, out@[j]));
                    }
                    assert(invalid(e, m) && network_error(nets@[i as int], named@, bindings@, m));
                    assert(0 <= i < nets@.len());
                    assert(networks_fail_at(nets@, named@, bindings@, e, i as int));
                }
                return Err(e);
            },
        }
        i += 1;
    }
    Ok(out)
}

/// The loaded processor definitions, or the first error among them.
fn x_loaded(loaded: Vec<Result<ProcessorDefinition, ArchLoadError>>) -> (r: Result<Vec<ProcessorDefinition>, ArchLoadError>)
    ensures
        match r {
            Ok(v) => (forall|j: int| 0 <= j < loaded@.len() ==> (#[trigger] loaded@[j]) is Ok) && v@ == loaded_defs(loaded@),
            Err(e) => exists|k: int| 0 <= k < loaded@.len() && loaded@[k] is Err
                && (forall|j: int| 0 <= j < k ==> (#[trigger] loaded@[j]) is Ok) && e == loaded@[k]->Err_0,
        },
{
    let ghost all = loaded@;
    let n = loaded.len();
    let mut rest = loaded;
    let mut out: Vec<ProcessorDefinition> = Vec::new();
    let mut i: usize = 0;
    while rest.len() > 0
        invariant
            i + rest@.len() == all.len(),
            all.len() == n,
            all == loaded@,
            rest@ == all.skip(i as int),
            out@.len() == i,
            forall|j: int| 0 <= j < i ==> (#[trigger] all[j]) is Ok && out@[j] == all[j]->Ok_0,
        decreases rest@.len(),
    {
        let ghost before = rest@;
        let x = rest.remove(0);
        proof {
            assert(x == all[i as int]);
            assert(rest@ =~= all.skip(i + 1));
        }
        match x {
            Ok(d) => out.push(d),
            Err(e) => {
                proof {
                    assert(0 <= i < all.len() && all[i as int] is Err && e == all[i as int]->Err_0);
                    assert(forall|j: int| 0 <= j < i ==> (#[trigger] all[j]) is Ok);
                    assert(all == loaded@);
                }
                return Err(e);
            },
        }
        i += 1;
    }
    proof { assert(out@ =~= loaded_defs(all)); }
    Ok(out)
}

/// Each file's first use holds it.
pub proof fn lemma_definition_files_contain(ps: Seq<(String, ProcessorPlacementYaml)>, k: int)
    requires
        0 <= k < ps.len(),
    ensures
        definition_files(ps).contains(ps[k].1.definition@),
    decreases ps.len(),
{
    let acc = definition_files(ps.drop_last());
    if k == ps.len() - 1 {
        let t = ps[k].1.definition@;
        if !acc.contains(t) {
            assert(acc.push(t)[acc.len() as int] == t);
        }
    } else {
        lemma_definition_files_contain(ps.drop_last(), k);
        assert(ps.drop_last()[k] == ps[k]);
        let x = ps[k].1.definition@;
        let i = choose|i: int| 0 <= i < acc.len() && acc[i] == x;
        let t = ps.last().1.definition@;
        if !acc.contains(t) {
            assert(acc.push(t)[i] == x);
        }
    }
}

/// Each processor placement connected to the definition loaded from its file.
fn x_connections(ps: &Vec<(String, ProcessorPlacementYaml)>, files: &Vec<String>, defs: &Vec<ProcessorDefinition>) -> (r: Vec<(String, String, Connection)>)
    requires
        texts(files@) == definition_files(ps@),
        defs@.len() == files@.len(),
    ensures
        r@.len() == ps@.len(),
        forall|k: int| 0 <= k < r@.len() ==> {
            &&& (#[trigger] r@[k]).0@ == ps@[k].0@
            &&& r@[k].1@ == defs@[position_of(texts(files@), ps@[k].1.definition@)].name@
            &&& connection_built(ps@[k].1, r@[k].2)
        },
{
    let mut out: Vec<(String, String, Connection)> = Vec::new();
    let mut i: usize = 0;
    while i < ps.len()
        invariant
            i <= ps@.len(),
            texts(files@) == definition_files(ps@),
            defs@.len() == files@.len(),
            out@.len() == i,
            forall|k: int| 0 <= k < out@.len() ==> {
                &&& (#[trigger] out@[k]).0@ == ps@[k].0@
                &&& out@[k].1@ == defs@[position_of(texts(files@), ps@[k].1.definition@)].name@
                &&& connection_built(ps@[k].1, out@[k].2)
            },
        decreases ps.len() - i,
    {
        proof { lemma_definition_files_contain(ps@, i as int); }
        let at = super::yaml::position_in(files, &ps[i].1.definition);
        let def_name = defs[at].name.clone();
        let conn = ps[i].1.build();
        let ghost before = out@;
        out.push((ps[i].0.clone(), def_name, conn));
        proof {
            assert(out@[i as int].1@ == defs@[position_of(texts(files@), ps@[i as int].1.definition@)].name@);
            assert(connection_built(ps@[i as int].1, out@[i as int].2));
            assert forall|k: int| 0 <= k < i implies #[trigger] out@[k] == before[k] by {}
        }
        i += 1;
    }
    out
}

impl ChipYaml {
    /// The architecture the chip describes under the given parameter bindings, from its
    /// memory catalog and the processor definitions loaded from its definition files (in
    /// the order of `definition_files`). Fails on a duplicate parameter, a binding for an
    /// unknown parameter, a parameter without a binding, a catalog or dimension size that
    /// does not resolve, a network that cannot be built, a definition that could not be
    /// loaded, or an architecture the builder refuses, first in that order.
    #[verifier::spinoff_prover]
    pub fn build_with_bindings(
        &self,
        catalog: MemoryCatalogYaml,
        loaded: Vec<Result<ProcessorDefinition, ArchLoadError>>,
        bindings: &[(String, u64)],
    ) -> (r: Result<Architecture, ArchLoadError>)
        requires
            chip_literals_ok(*self, catalog, bindings@),
            super::yaml::bindings_sorted(bindings@),
            loaded@.len() == definition_files(self.processors@).len(),
        ensures
            match r {
                Ok(a) => chip_prelude(*self, catalog, bindings@) matches Ok(p)
                    && (forall|j: int| 0 <= j < loaded@.len() ==> (#[trigger] loaded@[j]) is Ok)
                    && exists|b: ArchitectureBuilder| chip_assembled(*self, p.0, p.1, loaded_defs(loaded@), bindings@, b)
                        && super::builder::built_from(b, a) && super::valid::arch_valid(a),
                Err(e) => match chip_prelude(*self, catalog, bindings@) {
                    Err(m) => invalid(e, m),
                    Ok(p) => chip_failure(*self, p.0, p.1, loaded@, bindings@, e),
                },
            },
    {
        let (defs, axes, named) = x_prelude(self, catalog, bindings)?;
        let ghost dims = axes_pairs(axes@);
        let networks = match x_networks(&self.networks, &named, bindings) {
            Ok(v) => v,
            Err(e) => {
                proof {
                    let k = choose|k: int| networks_fail_at(self.networks@, named@, bindings@, e, k);
                    assert(network_fails_at(*self, dims, bindings@, e, k));
                }
                return Err(e);
            },
        };
        proof {
            assert forall|j: int| 0 <= j < self.networks@.len() implies network_builds(#[trigger] self.networks@[j], dims_list(*self, dims), bindings@) by {
                assert(network_built(self.networks@[j], named@, bindings@, networks@[j]));
            }
        }
        let ghost all = loaded@;
        let processor_definitions = match x_loaded(loaded) {
            Ok(v) => v,
            Err(e) => {
                proof {
                    let k = choose|k: int| 0 <= k < all.len() && all[k] is Err
                        && (forall|j: int| 0 <= j < k ==> (#[trigger] all[j]) is Ok) && e == all[k]->Err_0;
                    assert(chip_failure(*self, defs_model(defs@), dims, all, bindings@, e));
                }
                return Err(e);
            },
        };
        let files = self.definition_files();
        let connections = x_connections(&self.processors, &files, &processor_definitions);
        let builder = ArchitectureBuilder {
            name: self.name.clone(),
            dimensions: axes,
            memory_definitions: defs,
            placements: x_placements(&self.memories),
            processor_definitions,
            connections,
            resources: x_resources(&self.resources),
            networks,
            scopes: x_scopes(&self.scopes),
        };
        proof {
            assert(chip_assembled(*self, defs_model(defs@), dims, loaded_defs(all), bindings@, builder));
        }
        let ghost b = builder;
        let built = builder.build();
        let ghost p = chip_prelude(*self, catalog, bindings@)->Ok_0;
        proof {
            assert(chip_prelude(*self, catalog, bindings@) == Ok::<(Seq<super::yaml::DefModel>, Seq<(Seq<char>, u64)>), Seq<char>>((defs_model(defs@), dims)));
            assert(all == loaded@);
            assert(chip_assembled(*self, p.0, p.1, loaded_defs(loaded@), bindings@, b));
        }
        let result: Result<Architecture, ArchLoadError> = match built {
            Ok(a) => {
                proof {
                    assert(super::builder::built_from(b, a) && super::valid::arch_valid(a));
                }
                Ok(a)
            },
            Err(err) => {
                let e = ArchLoadError::Invalid(err.message());
                proof {
                    assert(!super::builder::buildable(b));
                    assert(chip_failure(*self, p.0, p.1, loaded@, bindings@, e));
                }
                Err(e)
            },
        };
        proof {
            match &result {
                Ok(a) => {
                    assert(chip_prelude(*self, catalog, bindings@) matches Ok(p)
                        && (forall|j: int| 0 <= j < loaded@.len() ==> (#[trigger] loaded@[j]) is Ok)
                        && exists|b: ArchitectureBuilder| chip_assembled(*self, p.0, p.1, loaded_defs(loaded@), bindings@, b)
                            && super::builder::built_from(b, *a) && super::valid::arch_valid(*a));
                },
                Err(e) => {
                    assert(chip_failure(*self, p.0, p.1, loaded@, bindings@, *e));
                },
            }
        }
        result
    }

    /// The architecture the chip describes when it has no parameters to bind.
    pub fn build(&self, catalog: MemoryCatalogYaml, loaded: Vec<Result<ProcessorDefinition, ArchLoadError>>) -> (r: Result<Architecture, ArchLoadError>)
        requires
            chip_literals_ok(*self, catalog, Seq::empty()),
            loaded@.len() == definition_files(self.processors@).len(),
        ensures
            match r {
                Ok(a) => chip_prelude(*self, catalog, Seq::empty()) matches Ok(p)
                    && (forall|j: int| 0 <= j < loaded@.len() ==> (#[trigger] loaded@[j]) is Ok)
                    && exists|b: ArchitectureBuilder| chip_assembled(*self, p.0, p.1, loaded_defs(loaded@), Seq::empty(), b)
                        && super::builder::built_from(b, a) && super::valid::arch_valid(a),
                Err(e) => match chip_prelude(*self, catalog, Seq::empty()) {
                    Err(m) => invalid(e, m),
                    Ok(p) => chip_failure(*self, p.0, p.1, loaded@, Seq::empty(), e),
                },
            },
    {
        let none: Vec<(String, u64)> = Vec::new();
        proof { assert(none@ =~= Seq::<(String, u64)>::empty()); }
        self.build_with_bindings(catalog, loaded, none.as_slice())
    }
}

} // verus!
