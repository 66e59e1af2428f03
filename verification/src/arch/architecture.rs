//! The canonical, flat, indexed architecture: axes, memories, processors, resources,
//! networks and scopes, and the checks that keep them consistent.
use vstd::prelude::*;

use super::axis::Axis;
use super::memory::{MemoryArray, MemoryDefinition};
use super::network::NetworkTopology;
use super::processor::{OperationModel, ProcessorArray, ProcessorDefinition, ProcessorType};
use super::resource::Resource;
use super::scope::Scope;

verus! {

/// The first function of `fs` named `name`.
pub open spec fn first_named(fs: Seq<OperationModel>, name: Seq<char>) -> Option<OperationModel>
    decreases fs.len(),
{
    if fs.len() == 0 {
        None
    } else if fs[0].func.name@ == name {
        Some(fs[0])
    } else {
        first_named(fs.drop_first(), name)
    }
}

/// For each definition that has a function named `name`, in order, its first such function.
pub open spec fn functions_named_model(ds: Seq<ProcessorDefinition>, name: Seq<char>) -> Seq<OperationModel>
    decreases ds.len(),
{
    if ds.len() == 0 {
        Seq::empty()
    } else {
        let rest = functions_named_model(ds.drop_last(), name);
        match first_named(ds.last().functions@, name) {
            Some(f) => rest.push(f),
            None => rest,
        }
    }
}

proof fn lemma_first_named_at(fs: Seq<OperationModel>, name: Seq<char>, i: int)
    requires
        0 <= i < fs.len(),
        fs[i].func.name@ == name,
        forall|j: int| 0 <= j < i ==> fs[j].func.name@ != name,
    ensures
        first_named(fs, name) == Some(fs[i]),
    decreases i,
{
    if i > 0 {
        assert(fs[0].func.name@ != name);
        assert forall|j: int| 0 <= j < i - 1 implies fs.drop_first()[j].func.name@ != name by {
            assert(fs.drop_first()[j] == fs[j + 1]);
        }
        lemma_first_named_at(fs.drop_first(), name, i - 1);
    }
}

proof fn lemma_first_named_none(fs: Seq<OperationModel>, name: Seq<char>)
    requires
        forall|j: int| 0 <= j < fs.len() ==> fs[j].func.name@ != name,
    ensures
        first_named(fs, name) is None,
    decreases fs.len(),
{
    if fs.len() > 0 {
        assert(fs[0].func.name@ != name);
        assert forall|j: int| 0 <= j < fs.len() - 1 implies fs.drop_first()[j].func.name@ != name by {
            assert(fs.drop_first()[j] == fs[j + 1]);
        }
        lemma_first_named_none(fs.drop_first(), name);
    }
}

/// Why an architecture is refused.
#[derive(Debug, PartialEq, Eq)]
pub enum ArchitectureError {
    DuplicateName { kind: String, name: String },
    UnknownReference { owner: String, kind: String, name: String },
    RankMismatch { object: String, expected: usize, actual: usize },
    Invalid(String),
}

/// Model of an [`ArchitectureError`].
pub ghost enum ArchErrorModel {
    DuplicateName(Seq<char>, Seq<char>),
    UnknownReference(Seq<char>, Seq<char>, Seq<char>),
    RankMismatch(Seq<char>, int, int),
    Invalid(Seq<char>),
}

impl View for ArchitectureError {
    type V = ArchErrorModel;

    open spec fn view(&self) -> ArchErrorModel {
        match self {
            ArchitectureError::DuplicateName { kind, name } => ArchErrorModel::DuplicateName(kind@, name@),
            ArchitectureError::UnknownReference { owner, kind, name } => ArchErrorModel::UnknownReference(owner@, kind@, name@),
            ArchitectureError::RankMismatch { object, expected, actual } => ArchErrorModel::RankMismatch(object@, *expected as int, *actual as int),
            ArchitectureError::Invalid(m) => ArchErrorModel::Invalid(m@),
        }
    }
}

/// The message of an architecture error.
pub open spec fn arch_error_text(x: ArchErrorModel) -> Seq<char> {
    match x {
        ArchErrorModel::DuplicateName(k, n) => "duplicate "@ + k + " '"@ + n + "'"@,
        ArchErrorModel::UnknownReference(o, k, n) => o + " refers to unknown "@ + k + " '"@ + n + "'"@,
        ArchErrorModel::RankMismatch(o, e, a) => o + " has rank "@ + crate::text::decimal(a as nat)
            + "; expected rank "@ + crate::text::decimal(e as nat),
        ArchErrorModel::Invalid(m) => m,
    }
}

impl ArchitectureError {
    /// The message of this error, as `Display` shows it.
    pub fn message(&self) -> (r: String)
        ensures
            r@ == arch_error_text(self@),
    {
        match self {
            ArchitectureError::DuplicateName { kind, name } => {
                let mut m = crate::text::owned("duplicate ");
                crate::text::push_str(&mut m, kind.as_str());
                crate::text::push_str(&mut m, " '");
                crate::text::push_str(&mut m, name.as_str());
                crate::text::push_str(&mut m, "'");
                m
            },
            ArchitectureError::UnknownReference { owner, kind, name } => {
                let mut m = owner.clone();
                crate::text::push_str(&mut m, " refers to unknown ");
                crate::text::push_str(&mut m, kind.as_str());
                crate::text::push_str(&mut m, " '");
                crate::text::push_str(&mut m, name.as_str());
                crate::text::push_str(&mut m, "'");
                m
            },
            ArchitectureError::RankMismatch { object, expected, actual } => {
                let mut m = object.clone();
                crate::text::push_str(&mut m, " has rank ");
                crate::text::push_decimal(&mut m, *actual as u64);
                crate::text::push_str(&mut m, "; expected rank ");
                crate::text::push_decimal(&mut m, *expected as u64);
                m
            },
            ArchitectureError::Invalid(m) => m.clone(),
        }
    }
}

/// Canonical, flat, indexed architecture representation.
#[derive(Debug)]
pub struct Architecture {
    pub name: String,
    pub axes: Vec<Axis>,
    pub memory_definitions: Vec<MemoryDefinition>,
    pub memories: Vec<MemoryArray>,
    pub processor_definitions: Vec<ProcessorDefinition>,
    pub processors: Vec<ProcessorArray>,
    pub resources: Vec<Resource>,
    pub networks: Vec<NetworkTopology>,
    pub scopes: Vec<Scope>,
}

/// `i` is the first index whose item satisfies `p`.
pub open spec fn first_where<T>(v: Seq<T>, p: spec_fn(T) -> bool, i: int) -> bool {
    0 <= i < v.len() && p(v[i]) && forall|j: int| 0 <= j < i ==> !p(#[trigger] v[j])
}

/// What a first-match lookup returns: the first item satisfying `p`, or nothing when none
/// does.
pub open spec fn found<T>(v: Seq<T>, p: spec_fn(T) -> bool, r: Option<T>) -> bool {
    match r {
        Some(x) => exists|i: int| first_where(v, p, i) && v[i] == x,
        None => forall|j: int| 0 <= j < v.len() ==> !p(#[trigger] v[j]),
    }
}

/// `i` is the first processor definition named `n`.
pub open spec fn first_def_named(defs: Seq<ProcessorDefinition>, n: Seq<char>, i: int) -> bool {
    0 <= i < defs.len() && defs[i].name@ == n && forall|j: int| 0 <= j < i ==> defs[j].name@ != n
}

pub open spec fn opt_ref<T>(r: Option<&T>) -> Option<T> {
    match r {
        Some(x) => Some(*x),
        None => None,
    }
}

impl Architecture {
    pub fn name(&self) -> (r: &str)
        ensures
            r@ == self.name@,
    {
        self.name.as_str()
    }

    pub fn axes(&self) -> (r: &[Axis])
        ensures
            r@ == self.axes@,
    {
        self.axes.as_slice()
    }

    /// The first axis of this name.
    pub fn axis(&self, name: &str) -> (r: Option<&Axis>)
        ensures
            found(self.axes@, |a: Axis| a.name@ == name@, opt_ref(r)),
    {
        let mut i: usize = 0;
        while i < self.axes.len()
            invariant
                i <= self.axes@.len(),
                forall|j: int| 0 <= j < i ==> !((|a: Axis| a.name@ == name@)(#[trigger] self.axes@[j])),
            decreases self.axes.len() - i,
        {
            if crate::text::str_eq(self.axes[i].name.as_str(), name) {
                proof { assert(first_where(self.axes@, |a: Axis| a.name@ == name@, i as int)); }
                return Some(&self.axes[i]);
            }
            i += 1;
        }
        None
    }

    pub fn memories(&self) -> (r: &[MemoryArray])
        ensures
            r@ == self.memories@,
    {
        self.memories.as_slice()
    }

    pub fn memory_definitions(&self) -> (r: &[MemoryDefinition])
        ensures
            r@ == self.memory_definitions@,
    {
        self.memory_definitions.as_slice()
    }

    pub fn processor_definitions(&self) -> (r: &[ProcessorDefinition])
        ensures
            r@ == self.processor_definitions@,
    {
        self.processor_definitions.as_slice()
    }

    pub fn processors(&self) -> (r: &[ProcessorArray])
        ensures
            r@ == self.processors@,
    {
        self.processors.as_slice()
    }

    pub fn resources(&self) -> (r: &[Resource])
        ensures
            r@ == self.resources@,
    {
        self.resources.as_slice()
    }

    pub fn networks(&self) -> (r: &[NetworkTopology])
        ensures
            r@ == self.networks@,
    {
        self.networks.as_slice()
    }

    pub fn scopes(&self) -> (r: &[Scope])
        ensures
            r@ == self.scopes@,
    {
        self.scopes.as_slice()
    }

    /// The first memory array of this name.
    pub fn memory(&self, name: &str) -> (r: Option<&MemoryArray>)
        ensures
            found(self.memories@, |m: MemoryArray| m.name@ == name@, opt_ref(r)),
    {
        let mut i: usize = 0;
        while i < self.memories.len()
            invariant
                i <= self.memories@.len(),
                forall|j: int| 0 <= j < i ==> !((|m: MemoryArray| m.name@ == name@)(#[trigger] self.memories@[j])),
            decreases self.memories.len() - i,
        {
            if crate::text::str_eq(self.memories[i].name.as_str(), name) {
                proof { assert(first_where(self.memories@, |m: MemoryArray| m.name@ == name@, i as int)); }
                return Some(&self.memories[i]);
            }
            i += 1;
        }
        None
    }

    /// The memory arrays placed from one definition, in placement order.
    pub fn memories_of(&self, definition: &str) -> (r: Vec<&MemoryArray>)
        ensures
            r@.map_values(|m: &MemoryArray| *m) == self.memories@.filter(|m: MemoryArray| m.definition@ == definition@),
    {
        let mut out: Vec<&MemoryArray> = Vec::new();
        let mut i: usize = 0;
        proof { reveal(Seq::filter); assert(out@.map_values(|m: &MemoryArray| *m) =~= self.memories@.take(0).filter(|m: MemoryArray| m.definition@ == definition@)); }
        while i < self.memories.len()
            invariant
                i <= self.memories@.len(),
                out@.map_values(|m: &MemoryArray| *m) == self.memories@.take(i as int).filter(|m: MemoryArray| m.definition@ == definition@),
            decreases self.memories.len() - i,
        {
            proof {
                reveal(Seq::filter);
                assert(self.memories@.take(i + 1).drop_last() =~= self.memories@.take(i as int));
            }
            let ghost before = out@;
            if crate::text::str_eq(self.memories[i].definition.as_str(), definition) {
                out.push(&self.memories[i]);
                proof { assert(out@.map_values(|m: &MemoryArray| *m) =~= before.map_values(|m: &MemoryArray| *m).push(self.memories@[i as int])); }
            }
            i += 1;
        }
        proof { assert(self.memories@.take(self.memories@.len() as int) =~= self.memories@); }
        out
    }

    /// The definition that a memory array was placed from.
    pub fn memory_definition(&self, memory: &MemoryArray) -> (r: Option<&MemoryDefinition>)
        ensures
            found(self.memory_definitions@, |d: MemoryDefinition| d.name@ == memory.definition@, opt_ref(r)),
    {
        let mut i: usize = 0;
        while i < self.memory_definitions.len()
            invariant
                i <= self.memory_definitions@.len(),
                forall|j: int| 0 <= j < i ==> !((|d: MemoryDefinition| d.name@ == memory.definition@)(#[trigger] self.memory_definitions@[j])),
            decreases self.memory_definitions.len() - i,
        {
            if crate::text::str_eq(self.memory_definitions[i].name.as_str(), memory.definition.as_str()) {
                proof { assert(first_where(self.memory_definitions@, |d: MemoryDefinition| d.name@ == memory.definition@, i as int)); }
                return Some(&self.memory_definitions[i]);
            }
            i += 1;
        }
        None
    }

    /// The first processor definition of this name.
    pub fn processor_definition(&self, name: &str) -> (r: Option<&ProcessorDefinition>)
        ensures
            found(self.processor_definitions@, |d: ProcessorDefinition| d.name@ == name@, opt_ref(r)),
    {
        let mut i: usize = 0;
        while i < self.processor_definitions.len()
            invariant
                i <= self.processor_definitions@.len(),
                forall|j: int| 0 <= j < i ==> !((|d: ProcessorDefinition| d.name@ == name@)(#[trigger] self.processor_definitions@[j])),
            decreases self.processor_definitions.len() - i,
        {
            if crate::text::str_eq(self.processor_definitions[i].name.as_str(), name) {
                proof { assert(first_where(self.processor_definitions@, |d: ProcessorDefinition| d.name@ == name@, i as int)); }
                return Some(&self.processor_definitions[i]);
            }
            i += 1;
        }
        None
    }

    /// The first processor array of this name.
    pub fn processor_array(&self, name: &str) -> (r: Option<&ProcessorArray>)
        ensures
            found(self.processors@, |p: ProcessorArray| p.name@ == name@, opt_ref(r)),
    {
        let mut i: usize = 0;
        while i < self.processors.len()
            invariant
                i <= self.processors@.len(),
                forall|j: int| 0 <= j < i ==> !((|p: ProcessorArray| p.name@ == name@)(#[trigger] self.processors@[j])),
            decreases self.processors.len() - i,
        {
            if crate::text::str_eq(self.processors[i].name.as_str(), name) {
                proof { assert(first_where(self.processors@, |p: ProcessorArray| p.name@ == name@, i as int)); }
                return Some(&self.processors[i]);
            }
            i += 1;
        }
        None
    }

    /// The processor arrays placed from one definition, in placement order.
    pub fn processors_of(&self, definition: &str) -> (r: Vec<&ProcessorArray>)
        ensures
            r@.map_values(|p: &ProcessorArray| *p) == self.processors@.filter(|p: ProcessorArray| p.definition@ == definition@),
    {
        let mut out: Vec<&ProcessorArray> = Vec::new();
        let mut i: usize = 0;
        proof { reveal(Seq::filter); assert(out@.map_values(|p: &ProcessorArray| *p) =~= self.processors@.take(0).filter(|p: ProcessorArray| p.definition@ == definition@)); }
        while i < self.processors.len()
            invariant
                i <= self.processors@.len(),
                out@.map_values(|p: &ProcessorArray| *p) == self.processors@.take(i as int).filter(|p: ProcessorArray| p.definition@ == definition@),
            decreases self.processors.len() - i,
        {
            proof {
                reveal(Seq::filter);
                assert(self.processors@.take(i + 1).drop_last() =~= self.processors@.take(i as int));
            }
            let ghost before = out@;
            if crate::text::str_eq(self.processors[i].definition.as_str(), definition) {
                out.push(&self.processors[i]);
                proof { assert(out@.map_values(|p: &ProcessorArray| *p) =~= before.map_values(|p: &ProcessorArray| *p).push(self.processors@[i as int])); }
            }
            i += 1;
        }
        proof { assert(self.processors@.take(self.processors@.len() as int) =~= self.processors@); }
        out
    }

    /// The first function of this name, searching the definitions in order.
    pub fn get_function(&self, name: &str) -> (r: Option<&OperationModel>)
        ensures
            match r {
                Some(f) => f.func.name@ == name@ && exists|d: int, k: int| 0 <= d < self.processor_definitions@.len()
                    && 0 <= k < self.processor_definitions@[d].functions@.len()
                    && self.processor_definitions@[d].functions@[k] == *f
                    && (forall|e: int, q: int| 0 <= e < d && 0 <= q < self.processor_definitions@[e].functions@.len()
                        ==> self.processor_definitions@[e].functions@[q].func.name@ != name@)
                    && (forall|q: int| 0 <= q < k ==> self.processor_definitions@[d].functions@[q].func.name@ != name@),
                None => forall|e: int, q: int| 0 <= e < self.processor_definitions@.len() && 0 <= q < self.processor_definitions@[e].functions@.len()
                    ==> self.processor_definitions@[e].functions@[q].func.name@ != name@,
            },
    {
        let mut i: usize = 0;
        while i < self.processor_definitions.len()
            invariant
                i <= self.processor_definitions@.len(),
                forall|e: int, q: int| 0 <= e < i && 0 <= q < self.processor_definitions@[e].functions@.len()
                    ==> self.processor_definitions@[e].functions@[q].func.name@ != name@,
            decreases self.processor_definitions.len() - i,
        {
            match self.processor_definitions[i].get_function(name) {
                Some(f) => return Some(f),
                None => {},
            }
            i += 1;
        }
        None
    }

    /// The definitions that have a function of this name, in order, each with its first such
    /// function.
    pub fn functions_named(&self, name: &str) -> (r: Vec<(&ProcessorDefinition, &OperationModel)>)
        ensures
            r@.len() == functions_named_model(self.processor_definitions@, name@).len(),
            forall|k: int| 0 <= k < r@.len() ==> *(#[trigger] r@[k]).1 == functions_named_model(self.processor_definitions@, name@)[k],
    {
        let mut out: Vec<(&ProcessorDefinition, &OperationModel)> = Vec::new();
        let mut i: usize = 0;
        let ghost defs = self.processor_definitions@;
        while i < self.processor_definitions.len()
            invariant
                i <= defs.len(),
                defs == self.processor_definitions@,
                out@.len() == functions_named_model(defs.take(i as int), name@).len(),
                forall|k: int| 0 <= k < out@.len() ==> *(#[trigger] out@[k]).1 == functions_named_model(defs.take(i as int), name@)[k],
            decreases self.processor_definitions.len() - i,
        {
            let d = &self.processor_definitions[i];
            proof {
                assert(defs.take(i + 1).drop_last() =~= defs.take(i as int));
                assert(defs.take(i + 1).last() == defs[i as int]);
            }
            match d.get_function(name) {
                Some(f) => {
                    proof {
                        let k = choose|k: int| 0 <= k < d.functions@.len() && d.functions@[k] == *f
                            && f.func.name@ == name@ && forall|j: int| 0 <= j < k ==> d.functions@[j].func.name@ != name@;
                        lemma_first_named_at(d.functions@, name@, k);
                    }
                    out.push((d, f));
                },
                None => {
                    proof { lemma_first_named_none(d.functions@, name@); }
                },
            }
            i += 1;
        }
        proof { assert(defs.take(defs.len() as int) =~= defs); }
        out
    }

    /// The same architecture with the type of one processor definition replaced.
    pub fn with_processor_type(self, definition: &str, processor_type: Option<ProcessorType>) -> (r: Result<Architecture, ArchitectureError>)
        ensures
            match r {
                Ok(a) => exists|i: int| #[trigger] first_def_named(self.processor_definitions@, definition@, i)
                    && a.processor_definitions@ == self.processor_definitions@.update(i,
                        (ProcessorDefinition { processor_type, ..self.processor_definitions@[i] }))
                    && a.name == self.name && a.axes == self.axes && a.memories == self.memories
                    && a.processors == self.processors && a.resources == self.resources,
                Err(e) => e@ == ArchErrorModel::UnknownReference("architecture"@, "processor definition"@, definition@)
                    && forall|j: int| 0 <= j < self.processor_definitions@.len() ==> self.processor_definitions@[j].name@ != definition@,
            },
    {
        let mut a = self;
        let mut i: usize = 0;
        while i < a.processor_definitions.len()
            invariant
                i <= a.processor_definitions@.len(),
                a == self,
                forall|j: int| 0 <= j < i ==> a.processor_definitions@[j].name@ != definition@,
            decreases a.processor_definitions.len() - i,
        {
            if crate::text::str_eq(a.processor_definitions[i].name.as_str(), definition) {
                proof { assert(first_def_named(self.processor_definitions@, definition@, i as int)); }
                let mut defs = a.processor_definitions;
                let mut d = defs.remove(i);
                d.processor_type = processor_type;
                defs.insert(i, d);
                proof {
                    assert(defs@ =~= self.processor_definitions@.update(i as int,
                        ProcessorDefinition { processor_type, ..self.processor_definitions@[i as int] }));
                }
                return Ok(Architecture {
                    name: a.name,
                    axes: a.axes,
                    memory_definitions: a.memory_definitions,
                    memories: a.memories,
                    processor_definitions: defs,
                    processors: a.processors,
                    resources: a.resources,
                    networks: a.networks,
                    scopes: a.scopes,
                });
            }
            i += 1;
        }
        Err(ArchitectureError::UnknownReference {
            owner: crate::text::owned("architecture"),
            kind: crate::text::owned("processor definition"),
            name: crate::text::owned(definition),
        })
    }
}

} // verus!
