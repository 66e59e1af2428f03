//! The consistency of a whole architecture, and the instances of its processor arrays.
use vstd::prelude::*;

use super::architecture::{ArchErrorModel, Architecture, ArchitectureError};
use super::axis::Axis;
use super::checks::{
    axes_known, connection_ok, definition_names, distinct_names, domain_ok, first_dup, lemma_first_dup_distinct,
    memory_definitions_ok, port_ok, processor_ports_ok, resolved_domain, same_axes, validate_axes_known,
    validate_connection, validate_endpoint_reference, validate_memory_definitions, validate_processor_ports,
    validate_unique, endpoint_reference_ok, is_prefix_domain, resolve_domain,
};
use super::definition::definition_ok;
use super::memory::{distinct_axes, static_bank_problem, MemoryArray, MemoryDefinition};
use super::network::{dimension_names, network_ok, resource_names, NetworkTopology};
use super::ownership::{scopes_ok, validate_scopes};
use super::processor::{
    Connection, ConnectionInstance, ProcessorArray, ProcessorDefinition, ProcessorSelection, ProcessorSelectionError,
    ProcessorSelector,
};
use super::resolve::{
    connection_instances_of, connection_resolvable, endpoint_resolvable, first_index, instance_model,
    lemma_first_index, lemma_first_index_is_first, ports_resolvable, resolve_connection_instances,
};
use super::resource::{resource_problem, Resource};
use crate::text::str_texts;

verus! {

// ---------------------------------------------------------------------------
// Names

pub open spec fn memory_names(v: Seq<MemoryArray>) -> Seq<Seq<char>> {
    v.map_values(|x: MemoryArray| x.name@)
}

pub open spec fn pdef_names(v: Seq<ProcessorDefinition>) -> Seq<Seq<char>> {
    v.map_values(|x: ProcessorDefinition| x.name@)
}

pub open spec fn proc_names(v: Seq<ProcessorArray>) -> Seq<Seq<char>> {
    v.map_values(|x: ProcessorArray| x.name@)
}

pub open spec fn net_names(v: Seq<NetworkTopology>) -> Seq<Seq<char>> {
    v.map_values(|x: NetworkTopology| x.name@)
}

/// Whether a processor definition is named `n`.
pub open spec fn pdef_named(n: Seq<char>) -> spec_fn(ProcessorDefinition) -> bool {
    |d: ProcessorDefinition| d.name@ == n
}

/// Index of the first processor definition named `n`, or -1.
pub open spec fn pdef_index(defs: Seq<ProcessorDefinition>, n: Seq<char>) -> int {
    first_index(defs, pdef_named(n))
}

pub fn find_pdef(defs: &[ProcessorDefinition], name: &str) -> (r: Option<usize>)
    ensures
        match r {
            Some(i) => i as int == pdef_index(defs@, name@),
            None => pdef_index(defs@, name@) == -1,
        },
{
    let ghost p = pdef_named(name@);
    let mut i: usize = 0;
    while i < defs.len()
        invariant
            i <= defs@.len(),
            p == pdef_named(name@),
            forall|j: int| 0 <= j < i ==> !p(#[trigger] defs@[j]),
        decreases defs.len() - i,
    {
        if crate::text::str_eq(defs[i].name.as_str(), name) {
            proof { lemma_first_index(defs@, p, i as int); }
            return Some(i);
        }
        i += 1;
    }
    proof { lemma_first_index(defs@, p, i as int); }
    None
}

// ---------------------------------------------------------------------------
// Validity

/// A memory array has a known definition and distinct architecture axes.
pub open spec fn memory_ok(a: Architecture, m: MemoryArray) -> bool {
    &&& super::resolve::definition_index(a.memory_definitions@, m.definition@) >= 0
    &&& distinct_axes(m.axes@)
    &&& axes_known(m.axes@, a.axes@)
}

/// A processor array has a known definition and a valid connection whose domain, instances
/// and ports agree with the definition and the stored axes.
pub open spec fn processor_ok(a: Architecture, p: ProcessorArray) -> bool {
    let di = pdef_index(a.processor_definitions@, p.definition@);
    let domain = resolved_domain(p.connection, a.axes@);
    &&& di >= 0
    &&& connection_ok(p.connection, a.memories@, a.memory_definitions@)
    &&& processor_ports_ok(a.processor_definitions@[di], p.connection)
    &&& domain_ok(p.connection, a.axes@)
    &&& connection_instances_of(p.connection, domain, a.memories@, a.memory_definitions@) is Ok
    &&& p.axes@.len() == domain.len() && is_prefix_domain(p.axes@, domain)
}

/// A network is valid over the architecture's axes and its interfaces select placed
/// memories validly.
pub open spec fn network_in(a: Architecture, n: NetworkTopology) -> bool {
    &&& network_ok(n)
    &&& axes_known(n.dimensions@, a.axes@)
    &&& forall|k: int| 0 <= k < n.interfaces@.len() ==> endpoint_reference_ok(#[trigger] n.interfaces@[k].endpoint,
        a.memories@, a.memory_definitions@)
}

/// A processor definition and its resources are valid.
pub open spec fn pdef_ok(d: ProcessorDefinition) -> bool {
    &&& definition_ok(d)
    &&& forall|k: int| 0 <= k < d.resources@.len() ==> resource_problem(#[trigger] d.resources@[k]) is None
}

/// An axis of zero extent.
pub open spec fn zero_extent() -> spec_fn(Axis) -> bool {
    |a: Axis| a.extent == 0
}

/// The error of the first checks on an architecture's parts: an empty name, a repeated
/// axis, an axis of zero extent, then the memory definitions' error.
pub open spec fn arch_head_error(name: Seq<char>, axes: Seq<Axis>, defs: Seq<MemoryDefinition>) -> Option<ArchErrorModel> {
    if name.len() == 0 {
        Some(ArchErrorModel::Invalid("architecture name cannot be empty"@))
    } else if super::checks::first_dup(dimension_names(axes)) is Some {
        Some(ArchErrorModel::DuplicateName("axis"@, super::checks::first_dup(dimension_names(axes))->0))
    } else if first_index(axes, zero_extent()) >= 0 {
        Some(ArchErrorModel::Invalid("axis '"@ + axes[first_index(axes, zero_extent())].name@ + "' extent must be positive"@))
    } else {
        super::checks::memory_definitions_error(defs)
    }
}

/// Checks the name, the axes and the memory definitions.
pub fn check_head(name: &str, axes: &[Axis], defs: &[MemoryDefinition]) -> (r: Result<(), ArchitectureError>)
    ensures
        r is Ok <==> (name@.len() > 0 && distinct_names(dimension_names(axes@))
            && (forall|k: int| 0 <= k < axes@.len() ==> (#[trigger] axes@[k]).extent != 0)
            && memory_definitions_ok(defs@)),
        match r {
            Ok(()) => arch_head_error(name@, axes@, defs@) is None,
            Err(e) => arch_head_error(name@, axes@, defs@) == Some(e@),
        },
{
    if crate::text::is_empty(name) {
        return Err(ArchitectureError::Invalid(crate::text::owned("architecture name cannot be empty")));
    }
    let mut names: Vec<&str> = Vec::new();
    let mut i: usize = 0;
    while i < axes.len()
        invariant
            i <= axes@.len(),
            names@.len() == i,
            forall|k: int| 0 <= k < i ==> (#[trigger] names@[k])@ == axes@[k].name@,
        decreases axes.len() - i,
    {
        names.push(axes[i].name.as_str());
        i += 1;
    }
    proof {
        assert(str_texts(names@) =~= dimension_names(axes@));
        lemma_first_dup_distinct(dimension_names(axes@));
    }
    validate_unique(&names, "axis")?;
    let ghost z = zero_extent();
    let mut i: usize = 0;
    while i < axes.len()
        invariant
            i <= axes@.len(),
            z == zero_extent(),
            name@.len() > 0,
            super::checks::first_dup(dimension_names(axes@)) is None,
            forall|k: int| 0 <= k < i ==> (#[trigger] axes@[k]).extent != 0,
        decreases axes.len() - i,
    {
        if axes[i].extent == 0 {
            proof {
                assert forall|k: int| 0 <= k < i implies !z(#[trigger] axes@[k]) by {}
                lemma_first_index(axes@, z, i as int);
            }
            let mut m = crate::text::owned("axis '");
            crate::text::push_str(&mut m, axes[i].name.as_str());
            crate::text::push_str(&mut m, "' extent must be positive");
            proof { assert(m@ =~= "axis '"@ + axes@[i as int].name@ + "' extent must be positive"@); }
            return Err(ArchitectureError::Invalid(m));
        }
        i += 1;
    }
    proof {
        assert forall|k: int| 0 <= k < axes@.len() implies !z(#[trigger] axes@[k]) by {}
        lemma_first_index(axes@, z, axes@.len() as int);
    }
    validate_memory_definitions(defs)?;
    Ok(())
}

/// Everything `Architecture::validate` checks holds but the scopes.
pub open spec fn arch_valid_but_scopes(a: Architecture) -> bool {
    &&& a.name@.len() > 0
    &&& distinct_names(dimension_names(a.axes@))
    &&& forall|k: int| 0 <= k < a.axes@.len() ==> (#[trigger] a.axes@[k]).extent != 0
    &&& memory_definitions_ok(a.memory_definitions@)
    &&& distinct_names(memory_names(a.memories@))
    &&& distinct_names(pdef_names(a.processor_definitions@))
    &&& distinct_names(proc_names(a.processors@))
    &&& distinct_names(resource_names(a.resources@))
    &&& forall|k: int| 0 <= k < a.resources@.len() ==> resource_problem(#[trigger] a.resources@[k]) is None
    &&& distinct_names(net_names(a.networks@))
    &&& forall|k: int| 0 <= k < a.memories@.len() ==> memory_ok(a, #[trigger] a.memories@[k])
    &&& forall|k: int| 0 <= k < a.processor_definitions@.len() ==> pdef_ok(#[trigger] a.processor_definitions@[k])
    &&& forall|k: int| 0 <= k < a.processors@.len() ==> processor_ok(a, #[trigger] a.processors@[k])
    &&& forall|k: int| 0 <= k < a.networks@.len() ==> network_in(a, #[trigger] a.networks@[k])
}

/// What `Architecture::validate` accepts.
pub open spec fn arch_valid(a: Architecture) -> bool {
    &&& a.name@.len() > 0
    &&& distinct_names(dimension_names(a.axes@))
    &&& forall|k: int| 0 <= k < a.axes@.len() ==> (#[trigger] a.axes@[k]).extent != 0
    &&& memory_definitions_ok(a.memory_definitions@)
    &&& distinct_names(memory_names(a.memories@))
    &&& distinct_names(pdef_names(a.processor_definitions@))
    &&& distinct_names(proc_names(a.processors@))
    &&& distinct_names(resource_names(a.resources@))
    &&& forall|k: int| 0 <= k < a.resources@.len() ==> resource_problem(#[trigger] a.resources@[k]) is None
    &&& distinct_names(net_names(a.networks@))
    &&& forall|k: int| 0 <= k < a.memories@.len() ==> memory_ok(a, #[trigger] a.memories@[k])
    &&& forall|k: int| 0 <= k < a.processor_definitions@.len() ==> pdef_ok(#[trigger] a.processor_definitions@[k])
    &&& forall|k: int| 0 <= k < a.processors@.len() ==> processor_ok(a, #[trigger] a.processors@[k])
    &&& forall|k: int| 0 <= k < a.networks@.len() ==> network_in(a, #[trigger] a.networks@[k])
    &&& scopes_ok(a.scopes@, a.axes@, a.memories@, a.processors@, a.networks@, a.resources@)
}

/// A valid connection can be resolved against its memories.
pub proof fn lemma_connection_resolvable(c: Connection, mems: Seq<MemoryArray>, defs: Seq<MemoryDefinition>)
    requires
        connection_ok(c, mems, defs),
    ensures
        connection_resolvable(c, mems, defs),
{
    assert forall|k: int| 0 <= k < c.inputs@.len() implies endpoint_resolvable(#[trigger] c.inputs@[k].endpoint, mems, defs) by {
        assert(port_ok(c.inputs@[k], mems, defs));
    }
    assert forall|k: int| 0 <= k < c.outputs@.len() implies endpoint_resolvable(#[trigger] c.outputs@[k].endpoint, mems, defs) by {
        assert(port_ok(c.outputs@[k], mems, defs));
    }
}

/// The first resource problem, in order.
pub open spec fn resources_problem(v: Seq<Resource>) -> Option<Seq<char>>
    decreases v.len(),
{
    if v.len() == 0 {
        None
    } else {
        match resources_problem(v.drop_last()) {
            Some(m) => Some(m),
            None => resource_problem(v.last()),
        }
    }
}

/// The error of the name and resource checks that follow the head: the first repeated
/// name among memories, processor definitions, processor arrays and resources, in that
/// order; then the first invalid resource; then the first repeated network name.
pub open spec fn names_error(a: Architecture) -> Option<ArchErrorModel> {
    if let Some(n) = first_dup(memory_names(a.memories@)) {
        Some(ArchErrorModel::DuplicateName("memory"@, n))
    } else if let Some(n) = first_dup(pdef_names(a.processor_definitions@)) {
        Some(ArchErrorModel::DuplicateName("processor definition"@, n))
    } else if let Some(n) = first_dup(proc_names(a.processors@)) {
        Some(ArchErrorModel::DuplicateName("processor array"@, n))
    } else if let Some(n) = first_dup(resource_names(a.resources@)) {
        Some(ArchErrorModel::DuplicateName("resource"@, n))
    } else if let Some(m) = resources_problem(a.resources@) {
        Some(ArchErrorModel::Invalid(m))
    } else if let Some(n) = first_dup(net_names(a.networks@)) {
        Some(ArchErrorModel::DuplicateName("network"@, n))
    } else {
        None
    }
}

proof fn lemma_resources_problem_sticky(v: Seq<Resource>, k: int)
    requires
        0 <= k <= v.len(),
        resources_problem(v.take(k)) is Some,
    ensures
        resources_problem(v) == resources_problem(v.take(k)),
    decreases v.len(),
{
    if k == v.len() {
        assert(v.take(k) =~= v);
    } else {
        assert(v.drop_last().take(k) =~= v.take(k));
        lemma_resources_problem_sticky(v.drop_last(), k);
    }
}

fn check_resources(v: &[Resource]) -> (r: Result<(), ArchitectureError>)
    ensures
        r is Ok <==> forall|k: int| 0 <= k < v@.len() ==> resource_problem(#[trigger] v@[k]) is None,
        match r {
            Ok(()) => resources_problem(v@) is None,
            Err(e) => resources_problem(v@) matches Some(m) && e@ == ArchErrorModel::Invalid(m),
        },
{
    let mut i: usize = 0;
    while i < v.len()
        invariant
            i <= v@.len(),
            forall|k: int| 0 <= k < i ==> resource_problem(#[trigger] v@[k]) is None,
            resources_problem(v@.take(i as int)) is None,
        decreases v.len() - i,
    {
        proof { assert(v@.take(i + 1).drop_last() =~= v@.take(i as int)); }
        if let Err(m) = v[i].validate() {
            proof { lemma_resources_problem_sticky(v@, i + 1); }
            return Err(ArchitectureError::Invalid(m));
        }
        i += 1;
    }
    proof { assert(v@.take(v@.len() as int) =~= v@); }
    Ok(())
}

impl Architecture {
    /// Checks the whole architecture: names, unique and positive axes, memory
    /// definitions, unique names of every kind, valid resources, memories over known
    /// axes, valid processor definitions, processor connections that resolve and agree
    /// with their definitions and stored axes, networks over the axes with valid
    /// interfaces, and scopes.
    pub fn validate(&self) -> (r: Result<(), ArchitectureError>)
        ensures
            r is Ok <==> arch_valid(*self),
            arch_head_error(self.name@, self.axes@, self.memory_definitions@) matches Some(x) ==> r matches Err(e) && e@ == x,
            arch_head_error(self.name@, self.axes@, self.memory_definitions@) is None ==> (names_error(*self) matches Some(x)
                ==> r matches Err(e) && e@ == x),
            arch_valid_but_scopes(*self) ==> match r {
                Ok(()) => true,
                Err(e) => super::ownership::scopes_error(self.scopes@, self.axes@, self.memories@, self.processors@,
                    self.networks@, self.resources@) == Some(e@),
            },
    {
        check_head(self.name.as_str(), self.axes.as_slice(), self.memory_definitions.as_slice())?;
        self.validate_parts()
    }

    /// The checks after the name, axes and memory definitions.
    fn validate_parts(&self) -> (r: Result<(), ArchitectureError>)
        requires
            self.name@.len() > 0,
            distinct_names(dimension_names(self.axes@)),
            forall|k: int| 0 <= k < self.axes@.len() ==> (#[trigger] self.axes@[k]).extent != 0,
            memory_definitions_ok(self.memory_definitions@),
        ensures
            r is Ok <==> arch_valid(*self),
            names_error(*self) matches Some(x) ==> r matches Err(e) && e@ == x,
            arch_valid_but_scopes(*self) ==> match r {
                Ok(()) => true,
                Err(e) => super::ownership::scopes_error(self.scopes@, self.axes@, self.memories@, self.processors@,
                    self.networks@, self.resources@) == Some(e@),
            },
    {
        let mut names: Vec<&str> = Vec::new();
        let mut i: usize = 0;
        while i < self.memories.len()
            invariant
                i <= self.memories@.len(),
                names@.len() == i,
                forall|k: int| 0 <= k < i ==> (#[trigger] names@[k])@ == self.memories@[k].name@,
            decreases self.memories.len() - i,
        {
            names.push(self.memories[i].name.as_str());
            i += 1;
        }
        proof {
            assert(str_texts(names@) =~= memory_names(self.memories@));
            lemma_first_dup_distinct(memory_names(self.memories@));
        }
        validate_unique(&names, "memory")?;
        let mut names: Vec<&str> = Vec::new();
        let mut i: usize = 0;
        while i < self.processor_definitions.len()
            invariant
                i <= self.processor_definitions@.len(),
                names@.len() == i,
                forall|k: int| 0 <= k < i ==> (#[trigger] names@[k])@ == self.processor_definitions@[k].name@,
            decreases self.processor_definitions.len() - i,
        {
            names.push(self.processor_definitions[i].name.as_str());
            i += 1;
        }
        proof {
            assert(str_texts(names@) =~= pdef_names(self.processor_definitions@));
            lemma_first_dup_distinct(pdef_names(self.processor_definitions@));
        }
        validate_unique(&names, "processor definition")?;
        let mut names: Vec<&str> = Vec::new();
        let mut i: usize = 0;
        while i < self.processors.len()
            invariant
                i <= self.processors@.len(),
                names@.len() == i,
                forall|k: int| 0 <= k < i ==> (#[trigger] names@[k])@ == self.processors@[k].name@,
            decreases self.processors.len() - i,
        {
            names.push(self.processors[i].name.as_str());
            i += 1;
        }
        proof {
            assert(str_texts(names@) =~= proc_names(self.processors@));
            lemma_first_dup_distinct(proc_names(self.processors@));
        }
        validate_unique(&names, "processor array")?;
        let mut names: Vec<&str> = Vec::new();
        let mut i: usize = 0;
        while i < self.resources.len()
            invariant
                i <= self.resources@.len(),
                names@.len() == i,
                forall|k: int| 0 <= k < i ==> (#[trigger] names@[k])@ == self.resources@[k].name@,
            decreases self.resources.len() - i,
        {
            names.push(self.resources[i].name.as_str());
            i += 1;
        }
        proof {
            assert(str_texts(names@) =~= resource_names(self.resources@));
            lemma_first_dup_distinct(resource_names(self.resources@));
        }
        validate_unique(&names, "resource")?;
        check_resources(self.resources.as_slice())?;
        let mut names: Vec<&str> = Vec::new();
        let mut i: usize = 0;
        while i < self.networks.len()
            invariant
                i <= self.networks@.len(),
                names@.len() == i,
                forall|k: int| 0 <= k < i ==> (#[trigger] names@[k])@ == self.networks@[k].name@,
            decreases self.networks.len() - i,
        {
            names.push(self.networks[i].name.as_str());
            i += 1;
        }
        proof {
            assert(str_texts(names@) =~= net_names(self.networks@));
            lemma_first_dup_distinct(net_names(self.networks@));
        }
        validate_unique(&names, "network")?;
        self.validate_rest()
    }

    /// The checks after the names and the resources.
    fn validate_rest(&self) -> (r: Result<(), ArchitectureError>)
        requires
            self.name@.len() > 0,
            distinct_names(dimension_names(self.axes@)),
            forall|k: int| 0 <= k < self.axes@.len() ==> (#[trigger] self.axes@[k]).extent != 0,
            memory_definitions_ok(self.memory_definitions@),
            distinct_names(memory_names(self.memories@)),
            distinct_names(pdef_names(self.processor_definitions@)),
            distinct_names(proc_names(self.processors@)),
            distinct_names(resource_names(self.resources@)),
            forall|k: int| 0 <= k < self.resources@.len() ==> resource_problem(#[trigger] self.resources@[k]) is None,
            distinct_names(net_names(self.networks@)),
        ensures
            r is Ok <==> arch_valid(*self),
            arch_valid_but_scopes(*self) ==> match r {
                Ok(()) => true,
                Err(e) => super::ownership::scopes_error(self.scopes@, self.axes@, self.memories@, self.processors@,
                    self.networks@, self.resources@) == Some(e@),
            },
    {
        let mut i: usize = 0;
        while i < self.memories.len()
            invariant
                i <= self.memories@.len(),
                forall|k: int| 0 <= k < i ==> memory_ok(*self, #[trigger] self.memories@[k]),
            decreases self.memories.len() - i,
        {
            let memory = &self.memories[i];
            if super::resolve::find_definition(self.memory_definitions.as_slice(), memory.definition.as_str()).is_none() {
                let mut owner = crate::text::owned("memory '");
                crate::text::push_str(&mut owner, memory.name.as_str());
                crate::text::push_str(&mut owner, "'");
                return Err(ArchitectureError::UnknownReference {
                    owner,
                    kind: crate::text::owned("memory definition"),
                    name: memory.definition.clone(),
                });
            }
            if let Err(m) = super::memory::validate_axes(memory) {
                return Err(ArchitectureError::Invalid(m));
            }
            let mut owner = crate::text::owned("memory '");
            crate::text::push_str(&mut owner, memory.name.as_str());
            crate::text::push_str(&mut owner, "'");
            validate_axes_known(owner.as_str(), memory.axes.as_slice(), self.axes.as_slice())?;
            i += 1;
        }
        let mut i: usize = 0;
        while i < self.processor_definitions.len()
            invariant
                i <= self.processor_definitions@.len(),
                forall|k: int| 0 <= k < i ==> pdef_ok(#[trigger] self.processor_definitions@[k]),
            decreases self.processor_definitions.len() - i,
        {
            let definition = &self.processor_definitions[i];
            if let Err(m) = definition.validate() {
                return Err(ArchitectureError::Invalid(m));
            }
            check_resources(definition.resources.as_slice())?;
            i += 1;
        }
        let mut i: usize = 0;
        while i < self.processors.len()
            invariant
                i <= self.processors@.len(),
                forall|k: int| 0 <= k < i ==> processor_ok(*self, #[trigger] self.processors@[k]),
            decreases self.processors.len() - i,
        {
            let processor = &self.processors[i];
            proof { lemma_first_index_is_first(self.processor_definitions@, pdef_named(processor.definition@)); }
            let di = match find_pdef(self.processor_definitions.as_slice(), processor.definition.as_str()) {
                Some(di) => di,
                None => {
                    let mut owner = crate::text::owned("processor array '");
                    crate::text::push_str(&mut owner, processor.name.as_str());
                    crate::text::push_str(&mut owner, "'");
                    return Err(ArchitectureError::UnknownReference {
                        owner,
                        kind: crate::text::owned("processor definition"),
                        name: processor.definition.clone(),
                    });
                },
            };
            validate_connection(&processor.connection, self.memories.as_slice(), self.memory_definitions.as_slice())?;
            validate_processor_ports(&self.processor_definitions[di], &processor.connection)?;
            let domain = resolve_domain(&processor.connection, self.axes.as_slice())?;
            proof { lemma_connection_resolvable(processor.connection, self.memories@, self.memory_definitions@); }
            resolve_connection_instances(&processor.connection, domain.as_slice(), self.memories.as_slice(),
                self.memory_definitions.as_slice())?;
            if !same_axes(processor.axes.as_slice(), domain.as_slice()) {
                let mut m = crate::text::owned("processor array '");
                crate::text::push_str(&mut m, processor.name.as_str());
                crate::text::push_str(&mut m, "' stores axes inconsistent with its connection");
                return Err(ArchitectureError::Invalid(m));
            }
            i += 1;
        }
        let mut i: usize = 0;
        while i < self.networks.len()
            invariant
                i <= self.networks@.len(),
                forall|k: int| 0 <= k < self.memories@.len() ==> memory_ok(*self, #[trigger] self.memories@[k]),
                forall|k: int| 0 <= k < i ==> network_in(*self, #[trigger] self.networks@[k]),
            decreases self.networks.len() - i,
        {
            let network = &self.networks[i];
            if let Err(m) = network.validate() {
                return Err(ArchitectureError::Invalid(m));
            }
            let mut owner = crate::text::owned("network '");
            crate::text::push_str(&mut owner, network.name.as_str());
            crate::text::push_str(&mut owner, "'");
            validate_axes_known(owner.as_str(), network.dimensions.as_slice(), self.axes.as_slice())?;
            let mut k: usize = 0;
            while k < network.interfaces.len()
                invariant
                    k <= network.interfaces@.len(),
                    i < self.networks@.len(),
                    *network == self.networks@[i as int],
                    forall|j: int| 0 <= j < self.memories@.len() ==> memory_ok(*self, #[trigger] self.memories@[j]),
                    forall|j: int| 0 <= j < k ==> endpoint_reference_ok(#[trigger] network.interfaces@[j].endpoint,
                        self.memories@, self.memory_definitions@),
                decreases network.interfaces.len() - k,
            {
                validate_endpoint_reference(&network.interfaces[k].endpoint, self.memories.as_slice(),
                    self.memory_definitions.as_slice())?;
                k += 1;
            }
            i += 1;
        }
        validate_scopes(self.scopes.as_slice(), self.axes.as_slice(), self.memories.as_slice(),
            self.processors.as_slice(), self.networks.as_slice(), self.resources.as_slice())?;
        Ok(())
    }

    /// The instances of a processor array of this architecture, over its stored axes.
    pub fn connection_instances(&self, processor: &ProcessorArray) -> (r: Vec<ConnectionInstance>)
        requires
            connection_resolvable(processor.connection, self.memories@, self.memory_definitions@),
            connection_instances_of(processor.connection, processor.axes@, self.memories@, self.memory_definitions@) is Ok,
        ensures
            connection_instances_of(processor.connection, processor.axes@, self.memories@, self.memory_definitions@)
                == Ok::<Seq<super::resolve::InstanceModel>, Seq<char>>(r@.map_values(|c: ConnectionInstance| instance_model(c))),
    {
        match resolve_connection_instances(&processor.connection, processor.axes.as_slice(), self.memories.as_slice(),
            self.memory_definitions.as_slice()) {
            Ok(v) => v,
            Err(_) => Vec::new(),
        }
    }
}

impl ProcessorArray {
    /// The instances of this array in the architecture.
    pub fn instances(&self, architecture: &Architecture) -> (r: Vec<ConnectionInstance>)
        requires
            connection_resolvable(self.connection, architecture.memories@, architecture.memory_definitions@),
            connection_instances_of(self.connection, self.axes@, architecture.memories@, architecture.memory_definitions@) is Ok,
        ensures
            connection_instances_of(self.connection, self.axes@, architecture.memories@, architecture.memory_definitions@)
                == Ok::<Seq<super::resolve::InstanceModel>, Seq<char>>(r@.map_values(|c: ConnectionInstance| instance_model(c))),
    {
        architecture.connection_instances(self)
    }

    /// The instances of this array that the selectors pick, one selector per axis, each
    /// within its axis.
    pub fn select<'a>(&'a self, architecture: &Architecture, selectors: Vec<ProcessorSelector>) -> (r: Result<ProcessorSelection<'a>, ProcessorSelectionError>)
        requires
            connection_resolvable(self.connection, architecture.memories@, architecture.memory_definitions@),
            connection_instances_of(self.connection, self.axes@, architecture.memories@, architecture.memory_definitions@) is Ok,
        ensures
            selectors@.len() != self.axes@.len() ==> r == Err::<ProcessorSelection<'a>, ProcessorSelectionError>(
                ProcessorSelectionError::RankMismatch { expected: self.axes@.len() as usize, actual: selectors@.len() as usize }),
            selectors@.len() == self.axes@.len() ==> match r {
                Ok(sel) => (forall|i: int| !super::processor::first_out_of_bounds(self.axes@, selectors@, i))
                    && sel.array == self && sel.selectors == selectors
                    && exists|all: Seq<ConnectionInstance>|
                        connection_instances_of(self.connection, self.axes@, architecture.memories@, architecture.memory_definitions@)
                            == Ok::<Seq<super::resolve::InstanceModel>, Seq<char>>(#[trigger] super::resolve::instance_models(all))
                        && sel.instances@ == all.filter(|c: ConnectionInstance| super::processor::selected(self.axes@, selectors@, c.variables@)),
                Err(ProcessorSelectionError::OutOfBounds { dimension, index, size }) => exists|i: int|
                    super::processor::first_out_of_bounds(self.axes@, selectors@, i) && dimension@ == self.axes@[i].name@
                        && selectors@[i] == ProcessorSelector::Index(index) && size == self.axes@[i].extent,
                Err(ProcessorSelectionError::RankMismatch { .. }) => false,
            },
    {
        let instances = architecture.connection_instances(self);
        let ghost all = instances@;
        let r = self.select_from(instances, selectors);
        proof { assert(super::resolve::instance_models(all) == all.map_values(|c: ConnectionInstance| instance_model(c))); }
        r
    }
}

} // verus!
