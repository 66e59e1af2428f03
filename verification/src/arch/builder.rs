//! Building an architecture: memories placed over named axes, processor definitions
//! connected to them, and the checks that the result is a valid architecture.
use vstd::prelude::*;

use super::architecture::{ArchErrorModel, Architecture, ArchitectureError};
use super::axis::Axis;
use super::checks::{
    axis_index, axis_named, distinct_names, find_axis, lemma_first_dup_distinct, ports_with_implicit, resolved_domain,
    resolve_implicit_endpoints, validate_unique,
};
use super::memory::{MemoryArray, MemoryDefinition};
use super::network::NetworkTopology;
use super::processor::{Connection, ConnectionPort, ProcessorArray, ProcessorDefinition};
use super::resolve::{
    definition_index, definition_named, find_definition, first_index, lemma_first_index, lemma_first_index_is_first,
    memory_index, memory_named,
};
use super::resource::Resource;
use super::scope::Scope;
use super::valid::{arch_head_error, arch_valid, check_head, find_pdef, pdef_index, pdef_named, pdef_names};
use super::ownership::{dup_error, or_else};
use crate::text::{str_texts, texts};

verus! {

/// Collects the parts of an architecture and builds it.
#[derive(Debug)]
pub struct ArchitectureBuilder {
    pub name: String,
    pub dimensions: Vec<Axis>,
    pub memory_definitions: Vec<MemoryDefinition>,
    /// Memory placements: the memory's name, its definition, and its axes in order.
    pub placements: Vec<(String, String, Vec<String>)>,
    pub processor_definitions: Vec<ProcessorDefinition>,
    /// Processor placements: the array's name, its definition, and its connection.
    pub connections: Vec<(String, String, Connection)>,
    pub resources: Vec<Resource>,
    pub networks: Vec<NetworkTopology>,
    pub scopes: Vec<Scope>,
}

// ---------------------------------------------------------------------------
// What a build produces

/// The names of the memory placements.
pub open spec fn placement_names(b: ArchitectureBuilder) -> Seq<Seq<char>> {
    b.placements@.map_values(|p: (String, String, Vec<String>)| p.0@)
}

/// Placement `i` names a known definition and known dimensions.
pub open spec fn placement_ok(b: ArchitectureBuilder, i: int) -> bool {
    let p = b.placements@[i];
    &&& definition_index(b.memory_definitions@, p.1@) >= 0
    &&& forall|k: int| 0 <= k < p.2@.len() ==> axis_index(b.dimensions@, #[trigger] p.2@[k]@) >= 0
}

/// The axes of placement `i`: its dimensions, in order, as architecture axes.
pub open spec fn placement_axes(b: ArchitectureBuilder, i: int) -> Seq<Axis> {
    b.placements@[i].2@.map_values(|x: String| b.dimensions@[axis_index(b.dimensions@, x@)])
}

/// `m` is the memory array of placement `i`.
pub open spec fn placed(b: ArchitectureBuilder, i: int, m: MemoryArray) -> bool {
    &&& m.name@ == b.placements@[i].0@
    &&& m.definition@ == b.placements@[i].1@
    &&& m.axes@ == placement_axes(b, i)
}

/// The name of the `j`-th resource of a processor placed as `p` from a definition
/// resource named `r`: `p.r`.
pub open spec fn renamed(p: Seq<char>, r: Seq<char>) -> Seq<char> {
    p + "."@ + r
}

/// A resource's name, indices and capacity.
pub open spec fn res_model(r: Resource) -> (Seq<char>, Seq<Axis>, Option<u64>) {
    (r.name@, r.indices@, r.capacity)
}

/// Whether a resource is named `n`.
pub open spec fn resource_named(n: Seq<char>) -> spec_fn(Resource) -> bool {
    |r: Resource| r.name@ == n
}

/// The definition of connection `k`.
pub open spec fn conn_def(b: ArchitectureBuilder, k: int) -> ProcessorDefinition {
    b.processor_definitions@[pdef_index(b.processor_definitions@, b.connections@[k].1@)]
}

/// The resources of the processor of connection `k` over `axes`: the definition's
/// resources, renamed after the placement and indexed by its axes, then the shared
/// resources that the connection names.
pub open spec fn processor_resources(b: ArchitectureBuilder, k: int, axes: Seq<Axis>) -> Seq<(Seq<char>, Seq<Axis>, Option<u64>)> {
    let c = b.connections@[k];
    let own = conn_def(b, k).resources@;
    Seq::new(own.len(), |j: int| (renamed(c.0@, own[j].name@), axes, own[j].capacity))
        + Seq::new(c.2.resources@.len(), |s: int| res_model(b.resources@[first_index(b.resources@, resource_named(c.2.resources@[s]@))]))
}

/// `p` is the processor array of connection `k` over the placed memories `mems`.
pub open spec fn connected(b: ArchitectureBuilder, mems: Seq<MemoryArray>, k: int, p: ProcessorArray) -> bool {
    let c = b.connections@[k];
    &&& p.name@ == c.0@
    &&& p.definition@ == c.1@
    &&& p.connection.domain@ == c.2.domain@
    &&& p.connection.resources@ == c.2.resources@
    &&& ports_with_implicit(c.2.inputs@, p.connection.inputs@, mems)
    &&& ports_with_implicit(c.2.outputs@, p.connection.outputs@, mems)
    &&& p.axes@ == resolved_domain(p.connection, b.dimensions@)
    &&& p.resources@.map_values(|r: Resource| res_model(r)) == processor_resources(b, k, p.axes@)
}

/// The renamed definition resources of the first `n` processors.
pub open spec fn own_resources(b: ArchitectureBuilder, procs: Seq<ProcessorArray>, n: int) -> Seq<(Seq<char>, Seq<Axis>, Option<u64>)>
    decreases n,
{
    if n <= 0 {
        Seq::empty()
    } else {
        own_resources(b, procs, n - 1) + processor_resources(b, n - 1, procs[n - 1].axes@).take(conn_def(b, n - 1).resources@.len() as int)
    }
}

/// `a` is the architecture that the builder's parts make.
pub open spec fn built_from(b: ArchitectureBuilder, a: Architecture) -> bool {
    &&& a.name == b.name
    &&& a.axes == b.dimensions
    &&& a.memory_definitions == b.memory_definitions
    &&& a.processor_definitions == b.processor_definitions
    &&& a.networks == b.networks
    &&& a.scopes == b.scopes
    &&& a.memories@.len() == b.placements@.len()
    &&& forall|i: int| 0 <= i < a.memories@.len() ==> placed(b, i, #[trigger] a.memories@[i])
    &&& a.processors@.len() == b.connections@.len()
    &&& forall|k: int| 0 <= k < a.processors@.len() ==> connected(b, a.memories@, k, #[trigger] a.processors@[k])
    &&& a.resources@.map_values(|r: Resource| res_model(r))
        == b.resources@.map_values(|r: Resource| res_model(r)) + own_resources(b, a.processors@, a.processors@.len() as int)
}

/// The index of the first placement named `n`, or -1.
pub open spec fn placement_index(b: ArchitectureBuilder, n: Seq<char>) -> int {
    first_index(placement_names(b), super::definition::name_is(n))
}

/// The port's memory is placed, and if it needs pointwise selectors, every dimension of
/// its placement is in the domain.
pub open spec fn implicit_placed(b: ArchitectureBuilder, p: ConnectionPort, domain: Set<Seq<char>>) -> bool {
    let pi = placement_index(b, p.endpoint.memory@);
    &&& pi >= 0
    &&& p.endpoint.indices@.len() == 0 && b.placements@[pi].2@.len() > 0
        ==> forall|k: int| 0 <= k < b.placements@[pi].2@.len() ==> domain.contains(#[trigger] b.placements@[pi].2@[k]@)
}

/// The processor resource names of connection `k`: its own renamed resources, then the
/// shared ones it names.
pub open spec fn processor_resource_names(b: ArchitectureBuilder, k: int) -> Seq<Seq<char>> {
    let c = b.connections@[k];
    let own = conn_def(b, k).resources@;
    Seq::new(own.len(), |j: int| renamed(c.0@, own[j].name@)) + texts(c.2.resources@)
}

/// Connection `k` names a known definition and known domain axes, its ports can get their
/// implicit selectors, the shared resources it names exist, and its processor resources
/// have distinct names.
pub open spec fn connection_buildable(b: ArchitectureBuilder, k: int) -> bool {
    let c = b.connections@[k];
    let dom = super::index::string_names(c.2.domain@);
    &&& pdef_index(b.processor_definitions@, c.1@) >= 0
    &&& forall|d: int| 0 <= d < c.2.domain@.len() ==> axis_index(b.dimensions@, #[trigger] c.2.domain@[d]@) >= 0
    &&& forall|j: int| 0 <= j < c.2.inputs@.len() ==> implicit_placed(b, #[trigger] c.2.inputs@[j], dom)
    &&& forall|j: int| 0 <= j < c.2.outputs@.len() ==> implicit_placed(b, #[trigger] c.2.outputs@[j], dom)
    &&& forall|s: int| 0 <= s < c.2.resources@.len() ==> first_index(b.resources@, resource_named(#[trigger] c.2.resources@[s]@)) >= 0
    &&& distinct_names(processor_resource_names(b, k))
}

/// The parts can be assembled: distinct placement names, resolvable placements, named
/// processor definitions, and buildable connections.
pub open spec fn assemblable(b: ArchitectureBuilder) -> bool {
    &&& distinct_names(placement_names(b))
    &&& forall|i: int| 0 <= i < b.placements@.len() ==> #[trigger] placement_ok(b, i)
    &&& forall|i: int| 0 <= i < b.processor_definitions@.len() ==> (#[trigger] b.processor_definitions@[i]).name@.len() > 0
    &&& forall|k: int| 0 <= k < b.connections@.len() ==> #[trigger] connection_buildable(b, k)
}

/// A placement that names an unknown definition or an unknown dimension.
pub open spec fn placement_bad(b: ArchitectureBuilder) -> spec_fn((String, String, Vec<String>)) -> bool {
    |p: (String, String, Vec<String>)| !(definition_index(b.memory_definitions@, p.1@) >= 0
        && forall|k: int| 0 <= k < p.2@.len() ==> axis_index(b.dimensions@, #[trigger] p.2@[k]@) >= 0)
}

/// A dimension name that is not an axis.
pub open spec fn dimension_unknown(b: ArchitectureBuilder) -> spec_fn(String) -> bool {
    |d: String| axis_index(b.dimensions@, d@) < 0
}

/// The error for the first placement that names an unknown definition, or else an unknown
/// dimension.
pub open spec fn placement_error(b: ArchitectureBuilder) -> Option<ArchErrorModel> {
    let i = first_index(b.placements@, placement_bad(b));
    if i < 0 {
        None
    } else {
        let p = b.placements@[i];
        if definition_index(b.memory_definitions@, p.1@) < 0 {
            Some(ArchErrorModel::UnknownReference("memory placement '"@ + p.0@ + "'"@, "memory definition"@, p.1@))
        } else {
            Some(ArchErrorModel::Invalid("placement '"@ + p.0@ + "' uses unknown dimension '"@
                + p.2@[first_index(p.2@, dimension_unknown(b))]@ + "'"@))
        }
    }
}

/// The error of the first checks `build` makes: the name, axes and memory definitions,
/// repeated processor definitions, repeated placements, then the first placement that
/// does not resolve.
pub open spec fn build_error(b: ArchitectureBuilder) -> Option<ArchErrorModel> {
    or_else(arch_head_error(b.name@, b.dimensions@, b.memory_definitions@),
    or_else(dup_error(pdef_names(b.processor_definitions@), "processor definition"@),
    or_else(dup_error(placement_names(b), "memory placement"@),
        placement_error(b))))
}

/// What `build` accepts: the first checks pass, the parts can be assembled, and what they
/// make is valid.
pub open spec fn buildable(b: ArchitectureBuilder) -> bool {
    &&& build_error(b) is None
    &&& assemblable(b)
    &&& forall|a: Architecture| #[trigger] built_from(b, a) ==> arch_valid(a)
}

// ---------------------------------------------------------------------------
// Assembling

/// `q` copies `p` field for field.
pub open spec fn port_copy(p: ConnectionPort, q: ConnectionPort) -> bool {
    &&& q.name == p.name
    &&& q.endpoint.memory == p.endpoint.memory
    &&& q.endpoint.indices@ == p.endpoint.indices@
    &&& q.endpoint.bank == p.endpoint.bank
}

fn copy_ports(v: &Vec<ConnectionPort>) -> (r: Vec<ConnectionPort>)
    ensures
        r@.len() == v@.len(),
        forall|j: int| 0 <= j < v@.len() ==> port_copy(v@[j], #[trigger] r@[j]),
{
    let mut out: Vec<ConnectionPort> = Vec::new();
    let mut i: usize = 0;
    while i < v.len()
        invariant
            i <= v@.len(),
            out@.len() == i,
            forall|j: int| 0 <= j < i ==> port_copy(v@[j], #[trigger] out@[j]),
        decreases v.len() - i,
    {
        out.push(v[i].clone());
        i += 1;
    }
    out
}

fn copy_connection(c: &Connection) -> (r: Connection)
    ensures
        r.domain@ == c.domain@,
        r.resources@ == c.resources@,
        r.inputs@.len() == c.inputs@.len(),
        r.outputs@.len() == c.outputs@.len(),
        forall|j: int| 0 <= j < c.inputs@.len() ==> port_copy(c.inputs@[j], #[trigger] r.inputs@[j]),
        forall|j: int| 0 <= j < c.outputs@.len() ==> port_copy(c.outputs@[j], #[trigger] r.outputs@[j]),
{
    Connection {
        domain: crate::text::clone_strings(c.domain.as_slice()),
        inputs: copy_ports(&c.inputs),
        outputs: copy_ports(&c.outputs),
        resources: crate::text::clone_strings(c.resources.as_slice()),
    }
}

/// The placed memory arrays map names to placements index for index.
proof fn lemma_placed_index(b: ArchitectureBuilder, mems: Seq<MemoryArray>, n: Seq<char>)
    requires
        mems.len() == b.placements@.len(),
        forall|i: int| 0 <= i < mems.len() ==> placed(b, i, #[trigger] mems[i]),
    ensures
        memory_index(mems, n) == placement_index(b, n),
{
    assert forall|i: int| 0 <= i < mems.len() implies memory_named(n)(#[trigger] mems[i]) == super::definition::name_is(n)(placement_names(b)[i]) by {
        assert(placed(b, i, mems[i]));
    }
    super::resolve::lemma_first_index_congruent(mems, memory_named(n), placement_names(b), super::definition::name_is(n));
}

/// With placed memories, a port can get its implicit selectors exactly when its placement
/// allows it.
proof fn lemma_implicit_placed(b: ArchitectureBuilder, mems: Seq<MemoryArray>, p: ConnectionPort, q: ConnectionPort, dom: Set<Seq<char>>)
    requires
        mems.len() == b.placements@.len(),
        forall|i: int| 0 <= i < mems.len() ==> placed(b, i, #[trigger] mems[i]),
        forall|i: int| 0 <= i < b.placements@.len() ==> #[trigger] placement_ok(b, i),
        port_copy(p, q),
    ensures
        super::checks::implicit_ok(q, mems, dom) == implicit_placed(b, p, dom),
{
    lemma_placed_index(b, mems, p.endpoint.memory@);
    let pi = placement_index(b, p.endpoint.memory@);
    if pi >= 0 {
        lemma_first_index_is_first(placement_names(b), super::definition::name_is(p.endpoint.memory@));
        assert(placed(b, pi, mems[pi]));
        assert(placement_ok(b, pi));
        let ax = mems[pi].axes@;
        assert forall|k: int| 0 <= k < ax.len() implies (#[trigger] ax[k]).name@ == b.placements@[pi].2@[k]@ by {
            let x = b.placements@[pi].2@[k]@;
            lemma_first_index_is_first(b.dimensions@, axis_named(x));
        }
        if super::checks::implicit_ok(q, mems, dom) && p.endpoint.indices@.len() == 0 && b.placements@[pi].2@.len() > 0 {
            assert(super::checks::needs_pointwise(q, mems));
            assert forall|k: int| 0 <= k < b.placements@[pi].2@.len() implies dom.contains(#[trigger] b.placements@[pi].2@[k]@) by {
                assert(ax[k].name@ == b.placements@[pi].2@[k]@);
            }
        }
        if implicit_placed(b, p, dom) && super::checks::needs_pointwise(q, mems) {
            assert(p.endpoint.indices@.len() == 0 && b.placements@[pi].2@.len() > 0);
            assert forall|k: int| 0 <= k < ax.len() implies dom.contains(#[trigger] ax[k].name@) by {
                assert(b.placements@[pi].2@[k]@ == ax[k].name@);
            }
        }
    }
}

fn place_memories(b: &ArchitectureBuilder) -> (r: Result<Vec<MemoryArray>, ArchitectureError>)
    ensures
        match r {
            Ok(mems) => (forall|i: int| 0 <= i < b.placements@.len() ==> #[trigger] placement_ok(*b, i))
                && mems@.len() == b.placements@.len()
                && forall|i: int| 0 <= i < mems@.len() ==> placed(*b, i, #[trigger] mems@[i]),
            Err(_) => !(forall|i: int| 0 <= i < b.placements@.len() ==> #[trigger] placement_ok(*b, i)),
        },
        match r {
            Ok(_) => placement_error(*b) is None,
            Err(e) => placement_error(*b) == Some(e@),
        },
{
    let ghost bad = placement_bad(*b);
    let ghost du = dimension_unknown(*b);
    let mut mems: Vec<MemoryArray> = Vec::new();
    let mut i: usize = 0;
    while i < b.placements.len()
        invariant
            i <= b.placements@.len(),
            bad == placement_bad(*b),
            du == dimension_unknown(*b),
            forall|j: int| 0 <= j < i ==> !bad(#[trigger] b.placements@[j]),
            mems@.len() == i,
            forall|j: int| 0 <= j < i ==> #[trigger] placement_ok(*b, j),
            forall|j: int| 0 <= j < i ==> placed(*b, j, #[trigger] mems@[j]),
        decreases b.placements.len() - i,
    {
        let pl = &b.placements[i];
        proof { lemma_first_index_is_first(b.memory_definitions@, definition_named(pl.1@)); }
        if find_definition(b.memory_definitions.as_slice(), pl.1.as_str()).is_none() {
            proof {
                assert(!placement_ok(*b, i as int));
                lemma_first_index(b.placements@, bad, i as int);
            }
            let mut owner = crate::text::owned("memory placement '");
            crate::text::push_str(&mut owner, pl.0.as_str());
            crate::text::push_str(&mut owner, "'");
            proof { assert(owner@ =~= "memory placement '"@ + pl.0@ + "'"@); }
            return Err(ArchitectureError::UnknownReference {
                owner,
                kind: crate::text::owned("memory definition"),
                name: pl.1.clone(),
            });
        }
        let mut axes: Vec<Axis> = Vec::new();
        let mut k: usize = 0;
        while k < pl.2.len()
            invariant
                k <= pl.2@.len(),
                i < b.placements@.len(),
                *pl == b.placements@[i as int],
                axes@.len() == k,
                forall|x: int| 0 <= x < k ==> axis_index(b.dimensions@, #[trigger] pl.2@[x]@) >= 0,
                forall|x: int| 0 <= x < k ==> #[trigger] axes@[x] == b.dimensions@[axis_index(b.dimensions@, pl.2@[x]@)],
                bad == placement_bad(*b),
                du == dimension_unknown(*b),
                forall|j: int| 0 <= j < i ==> !bad(#[trigger] b.placements@[j]),
                definition_index(b.memory_definitions@, pl.1@) >= 0,
            decreases pl.2.len() - k,
        {
            proof { lemma_first_index_is_first(b.dimensions@, axis_named(pl.2@[k as int]@)); }
            match find_axis(b.dimensions.as_slice(), pl.2[k].as_str()) {
                Some(a) => {
                    axes.push(b.dimensions[a].clone());
                },
                None => {
                    proof {
                        assert(!placement_ok(*b, i as int));
                        lemma_first_index(b.placements@, bad, i as int);
                        assert forall|x: int| 0 <= x < k implies !du(#[trigger] pl.2@[x]) by {}
                        lemma_first_index(pl.2@, du, k as int);
                    }
                    let mut m = crate::text::owned("placement '");
                    crate::text::push_str(&mut m, pl.0.as_str());
                    crate::text::push_str(&mut m, "' uses unknown dimension '");
                    crate::text::push_str(&mut m, pl.2[k].as_str());
                    crate::text::push_str(&mut m, "'");
                    proof { assert(m@ =~= "placement '"@ + pl.0@ + "' uses unknown dimension '"@ + pl.2@[k as int]@ + "'"@); }
                    return Err(ArchitectureError::Invalid(m));
                },
            }
            k += 1;
        }
        proof { assert(axes@ =~= placement_axes(*b, i as int)); }
        mems.push(MemoryArray::new(pl.0.as_str(), pl.1.as_str(), axes));
        i += 1;
    }
    proof { lemma_first_index(b.placements@, bad, i as int); }
    Ok(mems)
}

fn domain_axes(names: &Vec<String>, dims: &[Axis]) -> (r: Option<Vec<Axis>>)
    ensures
        match r {
            Some(v) => (forall|d: int| 0 <= d < names@.len() ==> axis_index(dims@, #[trigger] names@[d]@) >= 0)
                && v@ == names@.map_values(|n: String| dims@[axis_index(dims@, n@)]),
            None => !(forall|d: int| 0 <= d < names@.len() ==> axis_index(dims@, #[trigger] names@[d]@) >= 0),
        },
{
    let mut out: Vec<Axis> = Vec::new();
    let mut k: usize = 0;
    while k < names.len()
        invariant
            k <= names@.len(),
            out@.len() == k,
            forall|x: int| 0 <= x < k ==> axis_index(dims@, #[trigger] names@[x]@) >= 0,
            forall|x: int| 0 <= x < k ==> #[trigger] out@[x] == dims@[axis_index(dims@, names@[x]@)],
        decreases names.len() - k,
    {
        proof { lemma_first_index_is_first(dims@, axis_named(names@[k as int]@)); }
        match find_axis(dims, names[k].as_str()) {
            Some(a) => {
                out.push(dims[a].clone());
            },
            None => {
                return None;
            },
        }
        k += 1;
    }
    proof { assert(out@ =~= names@.map_values(|n: String| dims@[axis_index(dims@, n@)])); }
    Some(out)
}

fn renamed_text(placement: &str, name: &str) -> (r: String)
    ensures
        r@ == renamed(placement@, name@),
{
    let mut m = crate::text::owned(placement);
    crate::text::push_str(&mut m, ".");
    crate::text::push_str(&mut m, name);
    m
}

impl ArchitectureBuilder {
    pub fn new(name: &str) -> (r: ArchitectureBuilder)
        ensures
            r.name@ == name@,
            r.dimensions@.len() == 0,
            r.memory_definitions@.len() == 0,
            r.placements@.len() == 0,
            r.processor_definitions@.len() == 0,
            r.connections@.len() == 0,
            r.resources@.len() == 0,
            r.networks@.len() == 0,
            r.scopes@.len() == 0,
    {
        ArchitectureBuilder {
            name: crate::text::owned(name),
            dimensions: Vec::new(),
            memory_definitions: Vec::new(),
            placements: Vec::new(),
            processor_definitions: Vec::new(),
            connections: Vec::new(),
            resources: Vec::new(),
            networks: Vec::new(),
            scopes: Vec::new(),
        }
    }

    /// Adds an axis.
    pub fn axis(self, name: &str, extent: u64) -> (r: ArchitectureBuilder)
        ensures
            r.dimensions@.len() == self.dimensions@.len() + 1,
            r.dimensions@.drop_last() == self.dimensions@,
            r.dimensions@.last().name@ == name@,
            r.dimensions@.last().extent == extent,
            r.name == self.name,
            r.memory_definitions == self.memory_definitions,
            r.placements == self.placements,
            r.processor_definitions == self.processor_definitions,
            r.connections == self.connections,
            r.resources == self.resources,
            r.networks == self.networks,
            r.scopes == self.scopes,
    {
        let mut b = self;
        b.dimensions.push(Axis::new(name, extent));
        proof { assert(b.dimensions@.drop_last() =~= self.dimensions@); }
        b
    }

    /// Adds a memory definition.
    pub fn memory_definition(self, definition: MemoryDefinition) -> (r: ArchitectureBuilder)
        ensures
            r.memory_definitions@ == self.memory_definitions@.push(definition),
            r.name == self.name,
            r.dimensions == self.dimensions,
            r.placements == self.placements,
            r.processor_definitions == self.processor_definitions,
            r.connections == self.connections,
            r.resources == self.resources,
            r.networks == self.networks,
            r.scopes == self.scopes,
    {
        let mut b = self;
        b.memory_definitions.push(definition);
        b
    }

    /// Places a definition under its own name over the given dimensions, in order.
    pub fn place_memory(self, definition: &str, dimensions: &[&str]) -> (r: ArchitectureBuilder)
        ensures
            r.placements@.len() == self.placements@.len() + 1,
            r.placements@.drop_last() == self.placements@,
            r.placements@.last().0@ == definition@,
            r.placements@.last().1@ == definition@,
            texts(r.placements@.last().2@) == str_texts(dimensions@),
            r.name == self.name,
            r.dimensions == self.dimensions,
            r.memory_definitions == self.memory_definitions,
            r.processor_definitions == self.processor_definitions,
            r.connections == self.connections,
            r.resources == self.resources,
            r.networks == self.networks,
            r.scopes == self.scopes,
    {
        self.place_memory_as(definition, definition, dimensions)
    }

    /// Places a definition under `name` over the given dimensions, in order.
    pub fn place_memory_as(self, name: &str, definition: &str, dimensions: &[&str]) -> (r: ArchitectureBuilder)
        ensures
            r.placements@.len() == self.placements@.len() + 1,
            r.placements@.drop_last() == self.placements@,
            r.placements@.last().0@ == name@,
            r.placements@.last().1@ == definition@,
            texts(r.placements@.last().2@) == str_texts(dimensions@),
            r.name == self.name,
            r.dimensions == self.dimensions,
            r.memory_definitions == self.memory_definitions,
            r.processor_definitions == self.processor_definitions,
            r.connections == self.connections,
            r.resources == self.resources,
            r.networks == self.networks,
            r.scopes == self.scopes,
    {
        let mut b = self;
        b.placements.push((crate::text::owned(name), crate::text::owned(definition), crate::text::strings_of(dimensions)));
        proof { assert(b.placements@.drop_last() =~= self.placements@); }
        b
    }

    /// Adds a processor definition.
    pub fn processor_definition(self, definition: ProcessorDefinition) -> (r: ArchitectureBuilder)
        ensures
            r.processor_definitions@ == self.processor_definitions@.push(definition),
            r.name == self.name,
            r.dimensions == self.dimensions,
            r.memory_definitions == self.memory_definitions,
            r.placements == self.placements,
            r.connections == self.connections,
            r.resources == self.resources,
            r.networks == self.networks,
            r.scopes == self.scopes,
    {
        let mut b = self;
        b.processor_definitions.push(definition);
        b
    }

    /// Places a processor definition under its own name with the given connection.
    pub fn connect(self, definition: &str, connection: Connection) -> (r: ArchitectureBuilder)
        ensures
            r.connections@.len() == self.connections@.len() + 1,
            r.connections@.drop_last() == self.connections@,
            r.connections@.last().0@ == definition@,
            r.connections@.last().1@ == definition@,
            r.connections@.last().2 == connection,
            r.name == self.name,
            r.dimensions == self.dimensions,
            r.memory_definitions == self.memory_definitions,
            r.placements == self.placements,
            r.processor_definitions == self.processor_definitions,
            r.resources == self.resources,
            r.networks == self.networks,
            r.scopes == self.scopes,
    {
        self.connect_as(definition, definition, connection)
    }

    /// Places a processor definition under an explicit placement name with the given
    /// connection.
    pub fn connect_as(self, placement_name: &str, processor_definition: &str, connection: Connection) -> (r: ArchitectureBuilder)
        ensures
            r.connections@.len() == self.connections@.len() + 1,
            r.connections@.drop_last() == self.connections@,
            r.connections@.last().0@ == placement_name@,
            r.connections@.last().1@ == processor_definition@,
            r.connections@.last().2 == connection,
            r.name == self.name,
            r.dimensions == self.dimensions,
            r.memory_definitions == self.memory_definitions,
            r.placements == self.placements,
            r.processor_definitions == self.processor_definitions,
            r.resources == self.resources,
            r.networks == self.networks,
            r.scopes == self.scopes,
    {
        let mut b = self;
        b.connections.push((crate::text::owned(placement_name), crate::text::owned(processor_definition), connection));
        proof { assert(b.connections@.drop_last() =~= self.connections@); }
        b
    }

    /// Adds a shared resource.
    pub fn resource(self, resource: Resource) -> (r: ArchitectureBuilder)
        ensures
            r.resources@ == self.resources@.push(resource),
            r.name == self.name,
            r.dimensions == self.dimensions,
            r.memory_definitions == self.memory_definitions,
            r.placements == self.placements,
            r.processor_definitions == self.processor_definitions,
            r.connections == self.connections,
            r.networks == self.networks,
            r.scopes == self.scopes,
    {
        let mut b = self;
        b.resources.push(resource);
        b
    }

    /// Adds a network.
    pub fn network(self, network: NetworkTopology) -> (r: ArchitectureBuilder)
        ensures
            r.networks@ == self.networks@.push(network),
            r.name == self.name,
            r.dimensions == self.dimensions,
            r.memory_definitions == self.memory_definitions,
            r.placements == self.placements,
            r.processor_definitions == self.processor_definitions,
            r.connections == self.connections,
            r.resources == self.resources,
            r.scopes == self.scopes,
    {
        let mut b = self;
        b.networks.push(network);
        b
    }

    /// Adds a scope.
    pub fn scope(self, scope: Scope) -> (r: ArchitectureBuilder)
        ensures
            r.scopes@ == self.scopes@.push(scope),
            r.name == self.name,
            r.dimensions == self.dimensions,
            r.memory_definitions == self.memory_definitions,
            r.placements == self.placements,
            r.processor_definitions == self.processor_definitions,
            r.connections == self.connections,
            r.resources == self.resources,
            r.networks == self.networks,
    {
        let mut b = self;
        b.scopes.push(scope);
        b
    }
}

impl Architecture {
    /// A builder for an architecture of this name.
    pub fn builder(name: &str) -> (r: ArchitectureBuilder)
        ensures
            r.name@ == name@,
            r.dimensions@.len() == 0,
            r.memory_definitions@.len() == 0,
            r.placements@.len() == 0,
            r.processor_definitions@.len() == 0,
            r.connections@.len() == 0,
            r.resources@.len() == 0,
            r.networks@.len() == 0,
            r.scopes@.len() == 0,
    {
        ArchitectureBuilder::new(name)
    }
}

proof fn lemma_own_resources_prefix(b: ArchitectureBuilder, p1: Seq<ProcessorArray>, p2: Seq<ProcessorArray>, n: int)
    requires
        0 <= n <= p1.len(),
        n <= p2.len(),
        forall|j: int| 0 <= j < n ==> (#[trigger] p1[j]).axes@ == p2[j].axes@,
    ensures
        own_resources(b, p1, n) == own_resources(b, p2, n),
    decreases n,
{
    if n > 0 {
        lemma_own_resources_prefix(b, p1, p2, n - 1);
        assert(p1[n - 1].axes@ == p2[n - 1].axes@);
    }
}

fn find_resource(v: &Vec<Resource>, name: &str) -> (r: Option<usize>)
    ensures
        match r {
            Some(i) => i as int == first_index(v@, resource_named(name@)),
            None => first_index(v@, resource_named(name@)) == -1,
        },
{
    let ghost p = resource_named(name@);
    let mut i: usize = 0;
    while i < v.len()
        invariant
            i <= v@.len(),
            p == resource_named(name@),
            forall|j: int| 0 <= j < i ==> !p(#[trigger] v@[j]),
        decreases v.len() - i,
    {
        if crate::text::str_eq(v[i].name.as_str(), name) {
            proof { lemma_first_index(v@, p, i as int); }
            return Some(i);
        }
        i += 1;
    }
    proof { lemma_first_index(v@, p, i as int); }
    None
}

fn domain_of(names: &Vec<String>, dims: &[Axis]) -> (r: Result<Vec<Axis>, usize>)
    ensures
        match r {
            Ok(v) => (forall|d: int| 0 <= d < names@.len() ==> axis_index(dims@, #[trigger] names@[d]@) >= 0)
                && v@ == names@.map_values(|n: String| dims@[axis_index(dims@, n@)]),
            Err(k) => k < names@.len() && axis_index(dims@, names@[k as int]@) < 0,
        },
{
    let mut out: Vec<Axis> = Vec::new();
    let mut k: usize = 0;
    while k < names.len()
        invariant
            k <= names@.len(),
            out@.len() == k,
            forall|x: int| 0 <= x < k ==> axis_index(dims@, #[trigger] names@[x]@) >= 0,
            forall|x: int| 0 <= x < k ==> #[trigger] out@[x] == dims@[axis_index(dims@, names@[x]@)],
        decreases names.len() - k,
    {
        proof { lemma_first_index_is_first(dims@, axis_named(names@[k as int]@)); }
        match find_axis(dims, names[k].as_str()) {
            Some(a) => {
                out.push(dims[a].clone());
            },
            None => {
                return Err(k);
            },
        }
        k += 1;
    }
    proof { assert(out@ =~= names@.map_values(|n: String| dims@[axis_index(dims@, n@)])); }
    Ok(out)
}

impl ArchitectureBuilder {
    /// Builds the architecture: places the memories over their dimensions, gives each
    /// connection's ports their implicit pointwise selectors, indexes each processor over
    /// its connection's domain with its definition's resources (renamed after the
    /// placement) and the shared resources it names, and checks the result as
    /// `Architecture::validate` does.
    pub fn build(self) -> (r: Result<Architecture, ArchitectureError>)
        ensures
            match r {
                Ok(a) => built_from(self, a) && arch_valid(a) && assemblable(self),
                Err(_) => !buildable(self),
            },
            build_error(self) matches Some(x) ==> r matches Err(e) && e@ == x,
    {
        let ghost b = self;
        check_head(self.name.as_str(), self.dimensions.as_slice(), self.memory_definitions.as_slice())?;
        let mut pnames: Vec<&str> = Vec::new();
        let mut i: usize = 0;
        while i < self.processor_definitions.len()
            invariant
                i <= self.processor_definitions@.len(),
                pnames@.len() == i,
                forall|k: int| 0 <= k < i ==> (#[trigger] pnames@[k])@ == self.processor_definitions@[k].name@,
            decreases self.processor_definitions.len() - i,
        {
            pnames.push(self.processor_definitions[i].name.as_str());
            i += 1;
        }
        proof { assert(str_texts(pnames@) =~= pdef_names(self.processor_definitions@)); }
        validate_unique(&pnames, "processor definition")?;
        let mut names: Vec<&str> = Vec::new();
        let mut i: usize = 0;
        while i < self.placements.len()
            invariant
                i <= self.placements@.len(),
                names@.len() == i,
                forall|k: int| 0 <= k < i ==> (#[trigger] names@[k])@ == self.placements@[k].0@,
            decreases self.placements.len() - i,
        {
            names.push(self.placements[i].0.as_str());
            i += 1;
        }
        proof {
            assert(str_texts(names@) =~= placement_names(b));
            lemma_first_dup_distinct(placement_names(b));
        }
        validate_unique(&names, "memory placement")?;
        let memories = place_memories(&self)?;
        self.build_rest(memories)
    }

    /// The rest of `build`, once the first checks pass and the memories are placed.
    fn build_rest(self, memories: Vec<MemoryArray>) -> (r: Result<Architecture, ArchitectureError>)
        requires
            build_error(self) is None,
            distinct_names(placement_names(self)),
            forall|i: int| 0 <= i < self.placements@.len() ==> #[trigger] placement_ok(self, i),
            memories@.len() == self.placements@.len(),
            forall|i: int| 0 <= i < memories@.len() ==> placed(self, i, #[trigger] memories@[i]),
        ensures
            match r {
                Ok(a) => built_from(self, a) && arch_valid(a) && assemblable(self),
                Err(_) => !buildable(self),
            },
    {
        let ghost b = self;
        let mut i: usize = 0;
        while i < self.processor_definitions.len()
            invariant
                i <= self.processor_definitions@.len(),
                forall|k: int| 0 <= k < i ==> (#[trigger] self.processor_definitions@[k]).name@.len() > 0,
            decreases self.processor_definitions.len() - i,
        {
            if crate::text::is_empty(self.processor_definitions[i].name.as_str()) {
                return Err(ArchitectureError::Invalid(crate::text::owned("processor definition name cannot be empty")));
            }
            i += 1;
        }
        let mut resources: Vec<Resource> = Vec::new();
        let mut i: usize = 0;
        while i < self.resources.len()
            invariant
                i <= self.resources@.len(),
                resources@.len() == i,
                forall|k: int| 0 <= k < i ==> res_model(#[trigger] resources@[k]) == res_model(self.resources@[k]),
            decreases self.resources.len() - i,
        {
            resources.push(self.resources[i].clone());
            i += 1;
        }
        let mut processors: Vec<ProcessorArray> = Vec::new();
        proof {
            assert(resources@.map_values(|r: Resource| res_model(r))
                =~= b.resources@.map_values(|r: Resource| res_model(r)) + own_resources(b, processors@, 0));
        }
        let mut k: usize = 0;
        while k < self.connections.len()
            invariant
                k <= self.connections@.len(),
                b == self,
                distinct_names(placement_names(b)),
                forall|i: int| 0 <= i < b.placements@.len() ==> #[trigger] placement_ok(b, i),
                memories@.len() == b.placements@.len(),
                forall|i: int| 0 <= i < memories@.len() ==> placed(b, i, #[trigger] memories@[i]),
                forall|i: int| 0 <= i < b.processor_definitions@.len() ==> (#[trigger] b.processor_definitions@[i]).name@.len() > 0,
                forall|j: int| 0 <= j < k ==> #[trigger] connection_buildable(b, j),
                processors@.len() == k,
                forall|j: int| 0 <= j < k ==> connected(b, memories@, j, #[trigger] processors@[j]),
                resources@.map_values(|r: Resource| res_model(r))
                    == b.resources@.map_values(|r: Resource| res_model(r)) + own_resources(b, processors@, k as int),
            decreases self.connections.len() - k,
        {
            let c = &self.connections[k];
            proof { lemma_first_index_is_first(b.processor_definitions@, pdef_named(c.1@)); }
            let di = match find_pdef(self.processor_definitions.as_slice(), c.1.as_str()) {
                Some(di) => di,
                None => {
                    proof { assert(!connection_buildable(b, k as int)); }
                    let mut m = crate::text::owned("connection refers to unknown processor definition '");
                    crate::text::push_str(&mut m, c.1.as_str());
                    crate::text::push_str(&mut m, "'");
                    return Err(ArchitectureError::Invalid(m));
                },
            };
            let mut connection = copy_connection(&c.2);
            let ghost copied = connection;
            let ghost dom = super::index::string_names(c.2.domain@);
            proof {
                assert(super::index::string_names(copied.domain@) == dom);
                assert forall|j: int| 0 <= j < c.2.inputs@.len()
                    implies super::checks::implicit_ok(#[trigger] copied.inputs@[j], memories@, dom) == implicit_placed(b, c.2.inputs@[j], dom) by {
                    lemma_implicit_placed(b, memories@, c.2.inputs@[j], copied.inputs@[j], dom);
                }
                assert forall|j: int| 0 <= j < c.2.outputs@.len()
                    implies super::checks::implicit_ok(#[trigger] copied.outputs@[j], memories@, dom) == implicit_placed(b, c.2.outputs@[j], dom) by {
                    lemma_implicit_placed(b, memories@, c.2.outputs@[j], copied.outputs@[j], dom);
                }
            }
            if let Err(e) = resolve_implicit_endpoints(&mut connection, memories.as_slice()) {
                proof {
                    if connection_buildable(b, k as int) {
                        assert forall|j: int| 0 <= j < copied.inputs@.len() implies super::checks::implicit_ok(#[trigger] copied.inputs@[j], memories@, dom) by {
                            assert(implicit_placed(b, c.2.inputs@[j], dom));
                        }
                        assert forall|j: int| 0 <= j < copied.outputs@.len() implies super::checks::implicit_ok(#[trigger] copied.outputs@[j], memories@, dom) by {
                            assert(implicit_placed(b, c.2.outputs@[j], dom));
                        }
                    }
                }
                return Err(e);
            }
            proof {
                assert forall|j: int| 0 <= j < c.2.inputs@.len() implies super::checks::with_implicit(#[trigger] c.2.inputs@[j], connection.inputs@[j], memories@) by {
                    assert(super::checks::with_implicit(copied.inputs@[j], connection.inputs@[j], memories@));
                    assert(port_copy(c.2.inputs@[j], copied.inputs@[j]));
                }
                assert forall|j: int| 0 <= j < c.2.outputs@.len() implies super::checks::with_implicit(#[trigger] c.2.outputs@[j], connection.outputs@[j], memories@) by {
                    assert(super::checks::with_implicit(copied.outputs@[j], connection.outputs@[j], memories@));
                    assert(port_copy(c.2.outputs@[j], copied.outputs@[j]));
                }
                assert forall|j: int| 0 <= j < c.2.inputs@.len() implies implicit_placed(b, #[trigger] c.2.inputs@[j], dom) by {
                    assert(super::checks::implicit_ok(copied.inputs@[j], memories@, dom));
                }
                assert forall|j: int| 0 <= j < c.2.outputs@.len() implies implicit_placed(b, #[trigger] c.2.outputs@[j], dom) by {
                    assert(super::checks::implicit_ok(copied.outputs@[j], memories@, dom));
                }
            }
            let domain = match domain_of(&connection.domain, self.dimensions.as_slice()) {
                Ok(d) => d,
                Err(x) => {
                    proof { assert(!connection_buildable(b, k as int)); }
                    let mut m = crate::text::owned("connection domain uses unknown architecture axis '");
                    crate::text::push_str(&mut m, connection.domain[x].as_str());
                    crate::text::push_str(&mut m, "'");
                    return Err(ArchitectureError::Invalid(m));
                },
            };
            let def = &self.processor_definitions[di];
            let ghost own_spec = processor_resources(b, k as int, domain@);
            let mut presources: Vec<Resource> = Vec::new();
            let mut rnames: Vec<String> = Vec::new();
            let mut j: usize = 0;
            while j < def.resources.len()
                invariant
                    j <= def.resources@.len(),
                    k < b.connections@.len(),
                    *c == b.connections@[k as int],
                    *def == conn_def(b, k as int),
                    own_spec == processor_resources(b, k as int, domain@),
                    presources@.len() == j,
                    rnames@.len() == j,
                    forall|x: int| 0 <= x < j ==> res_model(#[trigger] presources@[x]) == own_spec[x],
                    forall|x: int| 0 <= x < j ==> (#[trigger] rnames@[x])@ == own_spec[x].0,
                decreases def.resources.len() - j,
            {
                let name = renamed_text(c.0.as_str(), def.resources[j].name.as_str());
                rnames.push(renamed_text(c.0.as_str(), def.resources[j].name.as_str()));
                presources.push(Resource { name, indices: super::axis::clone_axes(domain.as_slice()), capacity: def.resources[j].capacity });
                j += 1;
            }
            let own_count = presources.len();
            let ghost before_all = resources@.map_values(|r: Resource| res_model(r));
            let mut j: usize = 0;
            while j < own_count
                invariant
                    j <= own_count == presources@.len(),
                    resources@.map_values(|r: Resource| res_model(r))
                        == before_all + presources@.take(j as int).map_values(|r: Resource| res_model(r)),
                decreases own_count - j,
            {
                let ghost pre = resources@;
                let cl = presources[j].clone();
                proof { assert(res_model(cl) == res_model(presources@[j as int])); }
                resources.push(cl);
                proof {
                    assert(resources@.map_values(|r: Resource| res_model(r))
                        =~= pre.map_values(|r: Resource| res_model(r)).push(res_model(presources@[j as int])));
                    assert(presources@.take(j + 1).map_values(|r: Resource| res_model(r))
                        =~= presources@.take(j as int).map_values(|r: Resource| res_model(r)).push(res_model(presources@[j as int])));
                    assert(resources@.map_values(|r: Resource| res_model(r))
                        =~= before_all + presources@.take(j + 1).map_values(|r: Resource| res_model(r)));
                }
                j += 1;
            }
            let mut s: usize = 0;
            while s < connection.resources.len()
                invariant
                    s <= connection.resources@.len(),
                    connection.resources@ == c.2.resources@,
                    k < b.connections@.len(),
                    *c == b.connections@[k as int],
                    b == self,
                    own_spec == processor_resources(b, k as int, domain@),
                    own_count == conn_def(b, k as int).resources@.len(),
                    presources@.len() == own_count + s,
                    rnames@.len() == own_count + s,
                    forall|x: int| 0 <= x < own_count + s ==> res_model(#[trigger] presources@[x]) == own_spec[x],
                    forall|x: int| 0 <= x < own_count ==> (#[trigger] rnames@[x])@ == own_spec[x].0,
                    forall|x: int| own_count <= x < own_count + s ==> (#[trigger] rnames@[x])@ == c.2.resources@[x - own_count]@,
                    forall|y: int| 0 <= y < s ==> first_index(b.resources@, resource_named(#[trigger] c.2.resources@[y]@)) >= 0,
                decreases connection.resources.len() - s,
            {
                proof { lemma_first_index_is_first(b.resources@, resource_named(connection.resources@[s as int]@)); }
                match find_resource(&self.resources, connection.resources[s].as_str()) {
                    Some(x) => {
                        presources.push(self.resources[x].clone());
                        rnames.push(connection.resources[s].clone());
                    },
                    None => {
                        proof { assert(!connection_buildable(b, k as int)); }
                        let mut m = crate::text::owned("processor '");
                        crate::text::push_str(&mut m, c.0.as_str());
                        crate::text::push_str(&mut m, "' refers to unknown shared resource '");
                        crate::text::push_str(&mut m, connection.resources[s].as_str());
                        crate::text::push_str(&mut m, "'");
                        return Err(ArchitectureError::Invalid(m));
                    },
                }
                s += 1;
            }
            let mut rrefs: Vec<&str> = Vec::new();
            let mut x: usize = 0;
            while x < rnames.len()
                invariant
                    x <= rnames@.len(),
                    rrefs@.len() == x,
                    forall|y: int| 0 <= y < x ==> (#[trigger] rrefs@[y])@ == rnames@[y]@,
                decreases rnames.len() - x,
            {
                rrefs.push(rnames[x].as_str());
                x += 1;
            }
            proof {
                assert(str_texts(rrefs@) =~= processor_resource_names(b, k as int));
                lemma_first_dup_distinct(processor_resource_names(b, k as int));
            }
            if let Err(e) = validate_unique(&rrefs, "processor resource") {
                proof { assert(!connection_buildable(b, k as int)); }
                return Err(e);
            }
            proof {
                assert(presources@.map_values(|r: Resource| res_model(r)) =~= own_spec);
                assert(presources@.take(own_count as int).map_values(|r: Resource| res_model(r))
                    =~= own_spec.take(conn_def(b, k as int).resources@.len() as int));
                assert(connection_buildable(b, k as int));
            }
            let ghost old_procs = processors@;
            let p = ProcessorArray { name: c.0.clone(), definition: c.1.clone(), connection, axes: domain, resources: presources };
            processors.push(p);
            proof {
                lemma_own_resources_prefix(b, old_procs, processors@, k as int);
                assert(processors@[k as int] == p);
                assert(own_resources(b, processors@, k + 1)
                    == own_resources(b, processors@, k as int) + processor_resources(b, k as int, processors@[k as int].axes@).take(conn_def(b, k as int).resources@.len() as int));
            }
            k += 1;
        }
        let a = Architecture {
            name: self.name,
            axes: self.dimensions,
            memory_definitions: self.memory_definitions,
            memories,
            processor_definitions: self.processor_definitions,
            processors,
            resources,
            networks: self.networks,
            scopes: self.scopes,
        };
        proof { assert(built_from(b, a)); }
        match a.validate() {
            Ok(()) => Ok(a),
            Err(e) => Err(e),
        }
    }
}

} // verus!
