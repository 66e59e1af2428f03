//! Pieces of the export of an architecture to `adl.*` MLIR: the checks on processors,
//! symbol names, string escapes and the emission of dimensions and resources.
use vstd::prelude::*;

use crate::arch::architecture::{first_where, Architecture};
use crate::arch::axis::Axis;
use crate::arch::memory::{definition_problem, EndpointIndex, MemoryArray, MemoryDefinition, MemoryEndpoint};
use crate::arch::processor::{OperationModel, ProcessorArray, ProcessorDefinition, ProcessorType};
use crate::arch::resource::Resource;
use crate::mlir::func::MlirOperationKind;
use crate::mlir::lower::join;
use crate::text::{decimal, is_ident_char, push_char, push_decimal, push_str};

verus! {

/// Why an architecture cannot be exported.
#[derive(Debug, PartialEq, Eq)]
pub enum AdlExportError {
    MissingProcessorType { processor: String },
    ComputeContainsMovement { processor: String, function: String },
    DataMoverContainsCompute { processor: String, function: String },
    UnsupportedOperation { processor: String, operation: String },
    InvalidMemoryGeometry { memory: String, reason: String },
    /// A nested scope needs a partial memory handle absent from current ADL.
    UnsupportedScopeMemory { memory: String, rank: usize },
    UnsupportedMemorySelection { memory: String },
    InvalidConnection { processor: String, reason: String },
    SourceLowering { processor: String, reason: String },
}

/// Model of an [`AdlExportError`].
pub ghost enum ExportErrorModel {
    MissingProcessorType(Seq<char>),
    ComputeContainsMovement(Seq<char>, Seq<char>),
    DataMoverContainsCompute(Seq<char>, Seq<char>),
    UnsupportedOperation(Seq<char>, Seq<char>),
    InvalidMemoryGeometry(Seq<char>, Seq<char>),
    UnsupportedScopeMemory(Seq<char>, int),
    UnsupportedMemorySelection(Seq<char>),
    InvalidConnection(Seq<char>, Seq<char>),
    SourceLowering(Seq<char>, Seq<char>),
}

impl View for AdlExportError {
    type V = ExportErrorModel;

    open spec fn view(&self) -> ExportErrorModel {
        match self {
            AdlExportError::MissingProcessorType { processor } => ExportErrorModel::MissingProcessorType(processor@),
            AdlExportError::ComputeContainsMovement { processor, function } => ExportErrorModel::ComputeContainsMovement(processor@, function@),
            AdlExportError::DataMoverContainsCompute { processor, function } => ExportErrorModel::DataMoverContainsCompute(processor@, function@),
            AdlExportError::UnsupportedOperation { processor, operation } => ExportErrorModel::UnsupportedOperation(processor@, operation@),
            AdlExportError::InvalidMemoryGeometry { memory, reason } => ExportErrorModel::InvalidMemoryGeometry(memory@, reason@),
            AdlExportError::UnsupportedScopeMemory { memory, rank } => ExportErrorModel::UnsupportedScopeMemory(memory@, *rank as int),
            AdlExportError::UnsupportedMemorySelection { memory } => ExportErrorModel::UnsupportedMemorySelection(memory@),
            AdlExportError::InvalidConnection { processor, reason } => ExportErrorModel::InvalidConnection(processor@, reason@),
            AdlExportError::SourceLowering { processor, reason } => ExportErrorModel::SourceLowering(processor@, reason@),
        }
    }
}

/// The text of an export error.
pub open spec fn export_error_text(e: ExportErrorModel) -> Seq<char> {
    match e {
        ExportErrorModel::MissingProcessorType(p) => "processor '"@ + p + "' has no compatibility `type`"@,
        ExportErrorModel::ComputeContainsMovement(p, f) => "compute processor '"@ + p + "' function '"@ + f + "' contains a movement operation"@,
        ExportErrorModel::DataMoverContainsCompute(p, f) => "data_mover processor '"@ + p + "' function '"@ + f + "' contains a compute operation"@,
        ExportErrorModel::UnsupportedOperation(p, o) => "processor '"@ + p + "' contains unsupported operation '"@ + o + "'"@,
        ExportErrorModel::InvalidMemoryGeometry(m, r) => "memory '"@ + m + "' cannot be exported: "@ + r,
        ExportErrorModel::UnsupportedScopeMemory(m, k) => "the existing ADL dialect cannot attach memory '"@ + m + "' to a scope at rank "@ + decimal(k as nat),
        ExportErrorModel::UnsupportedMemorySelection(m) => "memory '"@ + m
            + "' selects a slice that the ADL exporter cannot represent with a whole-array or leaf-template handle"@,
        ExportErrorModel::InvalidConnection(p, r) => "processor '"@ + p + "' has an invalid connection: "@ + r,
        ExportErrorModel::SourceLowering(p, r) => "failed to lower processor '"@ + p + "': "@ + r,
    }
}

impl AdlExportError {
    /// The error's text.
    pub fn message(&self) -> (r: String)
        ensures
            r@ == export_error_text(self@),
    {
        let mut s = String::new();
        match self {
            AdlExportError::MissingProcessorType { processor } => {
                push_str(&mut s, "processor '");
                push_str(&mut s, processor.as_str());
                push_str(&mut s, "' has no compatibility `type`");
                proof {
                    reveal_strlit("processor '");
                    reveal_strlit("' has no compatibility `type`");
                }
            },
            AdlExportError::ComputeContainsMovement { processor, function } => {
                push_str(&mut s, "compute processor '");
                push_str(&mut s, processor.as_str());
                push_str(&mut s, "' function '");
                push_str(&mut s, function.as_str());
                push_str(&mut s, "' contains a movement operation");
                proof {
                    reveal_strlit("compute processor '");
                    reveal_strlit("' function '");
                    reveal_strlit("' contains a movement operation");
                }
            },
            AdlExportError::DataMoverContainsCompute { processor, function } => {
                push_str(&mut s, "data_mover processor '");
                push_str(&mut s, processor.as_str());
                push_str(&mut s, "' function '");
                push_str(&mut s, function.as_str());
                push_str(&mut s, "' contains a compute operation");
                proof {
                    reveal_strlit("data_mover processor '");
                    reveal_strlit("' function '");
                    reveal_strlit("' contains a compute operation");
                }
            },
            AdlExportError::UnsupportedOperation { processor, operation } => {
                push_str(&mut s, "processor '");
                push_str(&mut s, processor.as_str());
                push_str(&mut s, "' contains unsupported operation '");
                push_str(&mut s, operation.as_str());
                push_str(&mut s, "'");
                proof {
                    reveal_strlit("processor '");
                    reveal_strlit("' contains unsupported operation '");
                    reveal_strlit("'");
                }
            },
            AdlExportError::InvalidMemoryGeometry { memory, reason } => {
                push_str(&mut s, "memory '");
                push_str(&mut s, memory.as_str());
                push_str(&mut s, "' cannot be exported: ");
                push_str(&mut s, reason.as_str());
                proof {
                    reveal_strlit("memory '");
                    reveal_strlit("' cannot be exported: ");
                }
            },
            AdlExportError::UnsupportedScopeMemory { memory, rank } => {
                push_str(&mut s, "the existing ADL dialect cannot attach memory '");
                push_str(&mut s, memory.as_str());
                push_str(&mut s, "' to a scope at rank ");
                push_decimal(&mut s, *rank as u64);
                proof {
                    reveal_strlit("the existing ADL dialect cannot attach memory '");
                    reveal_strlit("' to a scope at rank ");
                }
            },
            AdlExportError::UnsupportedMemorySelection { memory } => {
                push_str(&mut s, "memory '");
                push_str(&mut s, memory.as_str());
                push_str(&mut s, "' selects a slice that the ADL exporter cannot represent with a whole-array or leaf-template handle");
                proof {
                    reveal_strlit("memory '");
                    reveal_strlit("' selects a slice that the ADL exporter cannot represent with a whole-array or leaf-template handle");
                }
            },
            AdlExportError::InvalidConnection { processor, reason } => {
                push_str(&mut s, "processor '");
                push_str(&mut s, processor.as_str());
                push_str(&mut s, "' has an invalid connection: ");
                push_str(&mut s, reason.as_str());
                proof {
                    reveal_strlit("processor '");
                    reveal_strlit("' has an invalid connection: ");
                }
            },
            AdlExportError::SourceLowering { processor, reason } => {
                push_str(&mut s, "failed to lower processor '");
                push_str(&mut s, processor.as_str());
                push_str(&mut s, "': ");
                push_str(&mut s, reason.as_str());
                proof {
                    reveal_strlit("failed to lower processor '");
                    reveal_strlit("': ");
                }
            },
        }
        s
    }
}

/// The first processor definition named `n`.
pub open spec fn first_def(defs: Seq<ProcessorDefinition>, n: Seq<char>) -> Option<ProcessorDefinition>
    decreases defs.len(),
{
    if defs.len() == 0 {
        None
    } else if defs[0].name@ == n {
        Some(defs[0])
    } else {
        first_def(defs.drop_first(), n)
    }
}

/// Every processor array names a processor definition of the architecture.
pub open spec fn definitions_resolved(a: Architecture) -> bool {
    forall|i: int| 0 <= i < a.processors@.len() ==> #[trigger] processor_defined(a, i)
}

/// Processor array `i` names a processor definition of the architecture.
pub open spec fn processor_defined(a: Architecture, i: int) -> bool {
    exists|j: int| 0 <= j < a.processor_definitions@.len() && (#[trigger] a.processor_definitions@[j]).name@ == a.processors@[i].definition@
}

/// What one operation of a function, run by a processor of type `t`, is refused for.
pub open spec fn operation_error(t: ProcessorType, op: MlirOperationKind, p: Seq<char>, f: Seq<char>) -> Option<ExportErrorModel> {
    match op {
        MlirOperationKind::Copy | MlirOperationKind::Broadcast | MlirOperationKind::Gather =>
            if t is Compute { Some(ExportErrorModel::ComputeContainsMovement(p, f)) } else { None },
        MlirOperationKind::Linalg(_) =>
            if t is DataMover { Some(ExportErrorModel::DataMoverContainsCompute(p, f)) } else { None },
        MlirOperationKind::UnsupportedLoom(o) => Some(ExportErrorModel::UnsupportedOperation(p, o@)),
    }
}

/// The error of the first refused operation of `ops`.
pub open spec fn operations_error(t: ProcessorType, ops: Seq<MlirOperationKind>, p: Seq<char>, f: Seq<char>) -> Option<ExportErrorModel>
    decreases ops.len(),
{
    if ops.len() == 0 {
        None
    } else {
        match operations_error(t, ops.drop_last(), p, f) {
            Some(e) => Some(e),
            None => operation_error(t, ops.last(), p, f),
        }
    }
}

/// The error of the first refused operation of the first function of `fs` that has one;
/// functions without a parsed interface are passed over.
pub open spec fn functions_error(t: ProcessorType, fs: Seq<OperationModel>, p: Seq<char>) -> Option<ExportErrorModel>
    decreases fs.len(),
{
    if fs.len() == 0 {
        None
    } else {
        match functions_error(t, fs.drop_last(), p) {
            Some(e) => Some(e),
            None => match fs.last().func.mlir_details {
                Some(d) => operations_error(t, d.operations@, p, fs.last().func.name@),
                None => None,
            },
        }
    }
}

/// What a processor array is refused for: a definition without a type, or a refused
/// operation of one of its functions.
pub open spec fn processor_error(a: Architecture, q: ProcessorArray) -> Option<ExportErrorModel> {
    match first_def(a.processor_definitions@, q.definition@) {
        Some(d) => match d.processor_type {
            None => Some(ExportErrorModel::MissingProcessorType(q.name@)),
            Some(t) => functions_error(t, d.functions@, q.name@),
        },
        None => None,
    }
}

/// The error of the first refused processor array of `qs`.
pub open spec fn processors_error(a: Architecture, qs: Seq<ProcessorArray>) -> Option<ExportErrorModel>
    decreases qs.len(),
{
    if qs.len() == 0 {
        None
    } else {
        match processors_error(a, qs.drop_last()) {
            Some(e) => Some(e),
            None => processor_error(a, qs.last()),
        }
    }
}

pub proof fn lemma_first_def_at(defs: Seq<ProcessorDefinition>, n: Seq<char>, i: int)
    requires
        0 <= i < defs.len(),
        defs[i].name@ == n,
        forall|j: int| 0 <= j < i ==> defs[j].name@ != n,
    ensures
        first_def(defs, n) == Some(defs[i]),
    decreases i,
{
    if i > 0 {
        assert(defs[0].name@ != n);
        assert forall|j: int| 0 <= j < i - 1 implies defs.drop_first()[j].name@ != n by {
            assert(defs.drop_first()[j] == defs[j + 1]);
        }
        lemma_first_def_at(defs.drop_first(), n, i - 1);
    }
}

/// The error of the first refused operation of `ops`, or `Ok`.
fn check_operations(t: ProcessorType, ops: &Vec<MlirOperationKind>, p: &String, f: &String) -> (r: Result<(), AdlExportError>)
    ensures
        match r {
            Ok(()) => operations_error(t, ops@, p@, f@) is None,
            Err(e) => operations_error(t, ops@, p@, f@) == Some(e@),
        },
{
    let mut i: usize = 0;
    while i < ops.len()
        invariant
            i <= ops@.len(),
            operations_error(t, ops@.take(i as int), p@, f@) is None,
        decreases ops.len() - i,
    {
        proof {
            assert(ops@.take(i + 1).drop_last() =~= ops@.take(i as int));
        }
        let bad = match &ops[i] {
            MlirOperationKind::Copy | MlirOperationKind::Broadcast | MlirOperationKind::Gather => match t {
                ProcessorType::Compute => Some(AdlExportError::ComputeContainsMovement { processor: p.clone(), function: f.clone() }),
                ProcessorType::DataMover => None,
            },
            MlirOperationKind::Linalg(_) => match t {
                ProcessorType::DataMover => Some(AdlExportError::DataMoverContainsCompute { processor: p.clone(), function: f.clone() }),
                ProcessorType::Compute => None,
            },
            MlirOperationKind::UnsupportedLoom(o) => Some(AdlExportError::UnsupportedOperation { processor: p.clone(), operation: o.clone() }),
        };
        match bad {
            Some(e) => {
                proof { lemma_operations_error_sticky(t, ops@, i + 1, p@, f@); }
                return Err(e);
            },
            None => {},
        }
        i += 1;
    }
    proof { assert(ops@.take(ops@.len() as int) =~= ops@); }
    Ok(())
}

proof fn lemma_operations_error_sticky(t: ProcessorType, ops: Seq<MlirOperationKind>, k: int, p: Seq<char>, f: Seq<char>)
    requires
        0 <= k <= ops.len(),
        operations_error(t, ops.take(k), p, f) is Some,
    ensures
        operations_error(t, ops, p, f) == operations_error(t, ops.take(k), p, f),
    decreases ops.len(),
{
    if k == ops.len() {
        assert(ops.take(k) =~= ops);
    } else {
        assert(ops.drop_last().take(k) =~= ops.take(k));
        lemma_operations_error_sticky(t, ops.drop_last(), k, p, f);
    }
}

proof fn lemma_functions_error_sticky(t: ProcessorType, fs: Seq<OperationModel>, k: int, p: Seq<char>)
    requires
        0 <= k <= fs.len(),
        functions_error(t, fs.take(k), p) is Some,
    ensures
        functions_error(t, fs, p) == functions_error(t, fs.take(k), p),
    decreases fs.len(),
{
    if k == fs.len() {
        assert(fs.take(k) =~= fs);
    } else {
        assert(fs.drop_last().take(k) =~= fs.take(k));
        lemma_functions_error_sticky(t, fs.drop_last(), k, p);
    }
}

proof fn lemma_processors_error_sticky(a: Architecture, qs: Seq<ProcessorArray>, k: int)
    requires
        0 <= k <= qs.len(),
        processors_error(a, qs.take(k)) is Some,
    ensures
        processors_error(a, qs) == processors_error(a, qs.take(k)),
    decreases qs.len(),
{
    if k == qs.len() {
        assert(qs.take(k) =~= qs);
    } else {
        assert(qs.drop_last().take(k) =~= qs.take(k));
        lemma_processors_error_sticky(a, qs.drop_last(), k);
    }
}

/// The error of the first refused function of a definition of type `t`, or `Ok`.
fn check_functions(t: ProcessorType, fs: &Vec<OperationModel>, p: &String) -> (r: Result<(), AdlExportError>)
    ensures
        match r {
            Ok(()) => functions_error(t, fs@, p@) is None,
            Err(e) => functions_error(t, fs@, p@) == Some(e@),
        },
{
    let mut i: usize = 0;
    while i < fs.len()
        invariant
            i <= fs@.len(),
            functions_error(t, fs@.take(i as int), p@) is None,
        decreases fs.len() - i,
    {
        proof {
            assert(fs@.take(i + 1).drop_last() =~= fs@.take(i as int));
        }
        match &fs[i].func.mlir_details {
            Some(d) => match check_operations(t, &d.operations, p, &fs[i].func.name) {
                Ok(()) => {},
                Err(e) => {
                    proof { lemma_functions_error_sticky(t, fs@, i + 1, p@); }
                    return Err(e);
                },
            },
            None => {},
        }
        i += 1;
    }
    proof { assert(fs@.take(fs@.len() as int) =~= fs@); }
    Ok(())
}

/// Checks that every processor's definition has a type and that no function runs an
/// operation its type forbids: movement on a compute processor, compute on a data mover,
/// or an unsupported Loom operation anywhere. The first refused processor, in order, is
/// reported.
pub fn validate_processors(architecture: &Architecture) -> (r: Result<(), AdlExportError>)
    requires
        definitions_resolved(*architecture),
    ensures
        match r {
            Ok(()) => processors_error(*architecture, architecture.processors@) is None,
            Err(e) => processors_error(*architecture, architecture.processors@) == Some(e@),
        },
{
    let ghost qs = architecture.processors@;
    let mut i: usize = 0;
    while i < architecture.processors.len()
        invariant
            i <= qs.len(),
            qs == architecture.processors@,
            definitions_resolved(*architecture),
            processors_error(*architecture, qs.take(i as int)) is None,
        decreases architecture.processors.len() - i,
    {
        let q = &architecture.processors[i];
        proof {
            assert(qs.take(i + 1).drop_last() =~= qs.take(i as int));
        }
        let definition = match architecture.processor_definition(q.definition.as_str()) {
            Some(d) => d,
            None => {
                proof {
                    assert(processor_defined(*architecture, i as int));
                    let j = choose|j: int| 0 <= j < architecture.processor_definitions@.len()
                        && (#[trigger] architecture.processor_definitions@[j]).name@ == qs[i as int].definition@;
                    assert(!((|d: ProcessorDefinition| d.name@ == q.definition@)(architecture.processor_definitions@[j])));
                }
                return vstd::pervasive::unreached();
            },
        };
        proof {
            let defs = architecture.processor_definitions@;
            let k = choose|k: int| first_where(defs, |d: ProcessorDefinition| d.name@ == q.definition@, k) && defs[k] == *definition;
            assert forall|j: int| 0 <= j < k implies defs[j].name@ != q.definition@ by {
                assert(!((|d: ProcessorDefinition| d.name@ == q.definition@)(defs[j])));
            }
            lemma_first_def_at(defs, q.definition@, k);
        }
        match definition.processor_type {
            None => {
                let e = AdlExportError::MissingProcessorType { processor: q.name.clone() };
                proof { lemma_processors_error_sticky(*architecture, qs, i + 1); }
                return Err(e);
            },
            Some(t) => match check_functions(t, &definition.functions, &q.name) {
                Ok(()) => {},
                Err(e) => {
                    proof { lemma_processors_error_sticky(*architecture, qs, i + 1); }
                    return Err(e);
                },
            },
        }
        i += 1;
    }
    proof { assert(qs.take(qs.len() as int) =~= qs); }
    Ok(())
}

} // verus!

verus! {

/// `name` with every character other than an ASCII letter, digit or underscore replaced
/// by `_`.
pub open spec fn sanitized(name: Seq<char>) -> Seq<char> {
    name.map_values(|c: char| if is_ident_char(c) { c } else { '_' })
}

/// `<prefix>_<name>`, the name sanitized: an MLIR symbol of one kind.
pub open spec fn prefixed_text(prefix: Seq<char>, name: Seq<char>) -> Seq<char> {
    prefix + "_"@ + sanitized(name)
}

/// The symbol `<prefix>_<name>`, with every character of `name` other than an ASCII
/// letter, digit or underscore replaced by `_`.
pub fn prefixed(prefix: &str, name: &str) -> (r: String)
    ensures
        r@ == prefixed_text(prefix@, name@),
{
    let mut s = crate::text::owned(prefix);
    push_char(&mut s, '_');
    let cs = crate::text::chars_of(name);
    proof {
        reveal_strlit("_");
        assert(sanitized(cs@.take(0)) =~= Seq::<char>::empty());
        assert(s@ =~= prefix@ + "_"@ + sanitized(cs@.take(0)));
    }
    let mut i: usize = 0;
    while i < cs.len()
        invariant
            i <= cs@.len(),
            cs@ == name@,
            s@ == prefix@ + "_"@ + sanitized(cs@.take(i as int)),
        decreases cs.len() - i,
    {
        let c = cs[i];
        let d = if crate::text::ident_char(c) { c } else { '_' };
        push_char(&mut s, d);
        proof {
            assert(sanitized(cs@.take(i + 1)) =~= sanitized(cs@.take(i as int)).push(d));
        }
        i += 1;
    }
    proof {
        reveal_strlit("_");
        assert(cs@.take(cs@.len() as int) =~= cs@);
    }
    s
}

/// The SSA value numbered `n`: `%n`.
pub open spec fn ssa(n: nat) -> Seq<char> {
    "%"@ + decimal(n)
}

/// The value of the first entry for `k`.
pub open spec fn lookup<K>(v: Seq<(K, Seq<char>)>, k: K) -> Option<Seq<char>>
    decreases v.len(),
{
    if v.len() == 0 {
        None
    } else if v[0].0 == k {
        Some(v[0].1)
    } else {
        lookup(v.drop_first(), k)
    }
}

/// `v` with the value of the first entry for `k` replaced by `x`, or with `(k, x)` added
/// where it has none.
pub open spec fn upsert<K>(v: Seq<(K, Seq<char>)>, k: K, x: Seq<char>) -> Seq<(K, Seq<char>)>
    decreases v.len(),
{
    if v.len() == 0 {
        seq![(k, x)]
    } else if v[0].0 == k {
        v.update(0, (k, x))
    } else {
        seq![v[0]] + upsert(v.drop_first(), k, x)
    }
}

/// The state of an emission: the next SSA number, the text so far, and the SSA values
/// and symbols already given to dimensions, memory handles and resources.
pub struct Emitter {
    pub counter: usize,
    pub body: String,
    pub dimension_ssa: Vec<(String, String)>,
    pub memory_handle_ssa: Vec<((String, usize), String)>,
    pub memory_handle_symbol: Vec<((String, usize), String)>,
    pub resource_ssa: Vec<(String, String)>,
}

/// Model of an [`Emitter`].
pub ghost struct EmitterModel {
    pub counter: nat,
    pub body: Seq<char>,
    pub dims: Seq<(Seq<char>, Seq<char>)>,
    pub handles: Seq<((Seq<char>, nat), Seq<char>)>,
    pub symbols: Seq<((Seq<char>, nat), Seq<char>)>,
    pub resources: Seq<(Seq<char>, Seq<char>)>,
}

pub open spec fn named_view(v: Seq<(String, String)>) -> Seq<(Seq<char>, Seq<char>)> {
    v.map_values(|p: (String, String)| (p.0@, p.1@))
}

pub open spec fn keyed_view(v: Seq<((String, usize), String)>) -> Seq<((Seq<char>, nat), Seq<char>)> {
    v.map_values(|p: ((String, usize), String)| ((p.0.0@, p.0.1 as nat), p.1@))
}

impl View for Emitter {
    type V = EmitterModel;

    open spec fn view(&self) -> EmitterModel {
        EmitterModel {
            counter: self.counter as nat,
            body: self.body@,
            dims: named_view(self.dimension_ssa@),
            handles: keyed_view(self.memory_handle_ssa@),
            symbols: keyed_view(self.memory_handle_symbol@),
            resources: named_view(self.resource_ssa@),
        }
    }
}

/// The number after `n`: SSA numbers wrap after `usize::MAX`, where counting further
/// would overflow.
pub open spec fn next_count(n: nat) -> nat {
    if n < usize::MAX { n + 1 } else { 0 }
}

/// The state after taking the next SSA value.
pub open spec fn take_ssa(m: EmitterModel) -> EmitterModel {
    EmitterModel { counter: next_count(m.counter), ..m }
}

/// Emitting a dimension: the value it already has, or a new value and its
/// `adl.spatial_dim` line.
pub open spec fn dimension_step(m: EmitterModel, name: Seq<char>, size: nat) -> (EmitterModel, Seq<char>) {
    match lookup(m.dims, name) {
        Some(v) => (m, v),
        None => {
            let v = ssa(m.counter);
            (
                EmitterModel {
                    counter: next_count(m.counter),
                    body: m.body + v + " = adl.spatial_dim \""@ + prefixed_text("dim"@, name) + "\", "@ + decimal(size) + "\n"@,
                    dims: m.dims.push((name, v)),
                    ..m
                },
                v,
            )
        },
    }
}

/// The name a resource is exported under: `p` for a resource named `p.p`, otherwise its
/// whole name.
pub open spec fn compatibility_name(name: Seq<char>) -> Seq<char> {
    let i = crate::text::find_char(name, 0, name.len() as int, '.');
    if i < name.len() && name.subrange(0, i) == name.subrange(i + 1, name.len() as int) {
        name.subrange(0, i)
    } else {
        name
    }
}

/// Emitting a resource: the value it already has, or a new value and its
/// `adl.resource.*` line.
pub open spec fn resource_step(m: EmitterModel, r: Resource) -> (EmitterModel, Seq<char>) {
    match lookup(m.resources, r.name@) {
        Some(v) => (m, v),
        None => {
            let v = ssa(m.counter);
            let symbol = prefixed_text("res"@, compatibility_name(r.name@));
            let line = match r.capacity {
                Some(c) => v + " = adl.resource.quantitative \""@ + symbol + "\", {capacity = "@ + decimal(c as nat) + "}\n"@,
                None => v + " = adl.resource.exclusive \""@ + symbol + "\"\n"@,
            };
            (EmitterModel { counter: next_count(m.counter), body: m.body + line, resources: m.resources.push((r.name@, v)), ..m }, v)
        },
    }
}

impl Emitter {
    /// An emitter that has emitted nothing.
    pub fn new() -> (r: Emitter)
        ensures
            r@ == (EmitterModel { counter: 0, body: Seq::empty(), dims: Seq::empty(), handles: Seq::empty(), symbols: Seq::empty(), resources: Seq::empty() }),
    {
        let r = Emitter {
            counter: 0,
            body: String::new(),
            dimension_ssa: Vec::new(),
            memory_handle_ssa: Vec::new(),
            memory_handle_symbol: Vec::new(),
            resource_ssa: Vec::new(),
        };
        proof {
            assert(named_view(r.dimension_ssa@) =~= Seq::empty());
            assert(keyed_view(r.memory_handle_ssa@) =~= Seq::empty());
            assert(keyed_view(r.memory_handle_symbol@) =~= Seq::empty());
            assert(named_view(r.resource_ssa@) =~= Seq::empty());
        }
        r
    }

    /// The next SSA value, `%n`.
    pub fn next_ssa(&mut self) -> (r: String)
        ensures
            r@ == ssa(old(self)@.counter),
            final(self)@ == take_ssa(old(self)@),
    {
        let mut v = crate::text::owned("%");
        push_decimal(&mut v, self.counter as u64);
        self.counter = if self.counter < usize::MAX { self.counter + 1 } else { 0 };
        proof { reveal_strlit("%"); }
        v
    }

    /// The dimension's SSA value; a new dimension gets a fresh value and its
    /// `adl.spatial_dim` line.
    pub fn emit_dimension(&mut self, name: &str, size: u64) -> (r: String)
        ensures
            (final(self)@, r@) == dimension_step(old(self)@, name@, size as nat),
    {
        match find_named(&self.dimension_ssa, name) {
            Some(i) => {
                let v = self.dimension_ssa[i].1.clone();
                v
            },
            None => {
                let v = self.next_ssa();
                push_str(&mut self.body, v.as_str());
                push_str(&mut self.body, " = adl.spatial_dim \"");
                let p = prefixed("dim", name);
                push_str(&mut self.body, p.as_str());
                push_str(&mut self.body, "\", ");
                push_decimal(&mut self.body, size);
                push_str(&mut self.body, "\n");
                let ghost before = self.dimension_ssa@;
                self.dimension_ssa.push((crate::text::owned(name), v.clone()));
                proof {
                    reveal_strlit(" = adl.spatial_dim \"");
                    reveal_strlit("dim");
                    reveal_strlit("\", ");
                    reveal_strlit("\n");
                    assert(named_view(self.dimension_ssa@) =~= named_view(before).push((name@, v@)));
                }
                v
            },
        }
    }

    /// The resource's SSA value; a new resource gets a fresh value and its
    /// `adl.resource.quantitative` or `adl.resource.exclusive` line.
    pub fn emit_resource(&mut self, resource: &Resource) -> (r: String)
        ensures
            (final(self)@, r@) == resource_step(old(self)@, *resource),
    {
        match find_named(&self.resource_ssa, resource.name.as_str()) {
            Some(i) => {
                let v = self.resource_ssa[i].1.clone();
                v
            },
            None => {
                let v = self.next_ssa();
                let cs = crate::text::chars_of(resource.name.as_str());
                let i = crate::text::find_char_in(cs.as_slice(), 0, cs.len(), '.');
                let compat = if i < cs.len() && halves_equal(&cs, i) {
                    crate::text::from_char_range(cs.as_slice(), 0, i)
                } else {
                    crate::text::owned(resource.name.as_str())
                };
                proof { assert(compat@ == compatibility_name(resource.name@)); }
                let symbol = prefixed("res", compat.as_str());
                let ghost body0 = self.body@;
                push_str(&mut self.body, v.as_str());
                match resource.capacity {
                    Some(c) => {
                        push_str(&mut self.body, " = adl.resource.quantitative \"");
                        push_str(&mut self.body, symbol.as_str());
                        push_str(&mut self.body, "\", {capacity = ");
                        push_decimal(&mut self.body, c);
                        push_str(&mut self.body, "}\n");
                    },
                    None => {
                        push_str(&mut self.body, " = adl.resource.exclusive \"");
                        push_str(&mut self.body, symbol.as_str());
                        push_str(&mut self.body, "\"\n");
                    },
                }
                let ghost before = self.resource_ssa@;
                self.resource_ssa.push((crate::text::owned(resource.name.as_str()), v.clone()));
                proof {
                    reveal_strlit(" = adl.resource.quantitative \"");
                    reveal_strlit("\", {capacity = ");
                    reveal_strlit("}\n");
                    reveal_strlit(" = adl.resource.exclusive \"");
                    reveal_strlit("\"\n");
                    reveal_strlit("res");
                    assert(named_view(self.resource_ssa@) =~= named_view(before).push((resource.name@, v@)));
                    let line = match resource.capacity {
                        Some(c) => v@ + " = adl.resource.quantitative \""@ + symbol@ + "\", {capacity = "@ + decimal(c as nat) + "}\n"@,
                        None => v@ + " = adl.resource.exclusive \""@ + symbol@ + "\"\n"@,
                    };
                    assert(self.body@ =~= body0 + line);
                }
                v
            },
        }
    }
}

/// Whether the characters before `i` are those after it.
fn halves_equal(cs: &Vec<char>, i: usize) -> (r: bool)
    requires
        i < cs@.len(),
    ensures
        r == (cs@.subrange(0, i as int) == cs@.subrange(i + 1, cs@.len() as int)),
{
    let n = cs.len();
    if i != n - 1 - i {
        proof {
            assert(cs@.subrange(0, i as int).len() != cs@.subrange(i + 1, n as int).len());
        }
        return false;
    }
    let mut k: usize = 0;
    while k < i
        invariant
            k <= i,
            i < n,
            n == cs@.len(),
            i == n - 1 - i,
            forall|j: int| 0 <= j < k ==> #[trigger] cs@[j] == cs@[i + 1 + j],
        decreases i - k,
    {
        if cs[k] != cs[i + 1 + k] {
            proof {
                assert(cs@.subrange(0, i as int)[k as int] != cs@.subrange(i + 1, n as int)[k as int]);
            }
            return false;
        }
        k += 1;
    }
    proof {
        assert(cs@.subrange(0, i as int) =~= cs@.subrange(i + 1, n as int));
    }
    true
}

/// The index of the first entry named `k`.
pub(crate) fn find_named(v: &Vec<(String, String)>, k: &str) -> (r: Option<usize>)
    ensures
        match r {
            Some(i) => i < v@.len() && lookup(named_view(v@), k@) == Some(v@[i as int].1@),
            None => lookup(named_view(v@), k@) is None,
        },
{
    let ghost m = named_view(v@);
    let mut i: usize = 0;
    proof { assert(m.skip(0) =~= m); }
    while i < v.len()
        invariant
            i <= v@.len(),
            m == named_view(v@),
            lookup(m, k@) == lookup(m.skip(i as int), k@),
        decreases v.len() - i,
    {
        proof {
            assert(m.skip(i as int)[0] == (v@[i as int].0@, v@[i as int].1@));
            assert(m.skip(i as int).drop_first() =~= m.skip(i + 1));
        }
        if crate::text::str_eq(v[i].0.as_str(), k) {
            return Some(i);
        }
        i += 1;
    }
    None
}

} // verus!

verus! {

/// Banks per memory instance: one without banking.
pub open spec fn bank_count(d: MemoryDefinition) -> nat {
    match d.banking {
        Some(b) => b.banks as nat,
        None => 1,
    }
}

/// The symbol of one memory instance: the memory's name for a scalar memory, otherwise
/// `<name>_instance`.
pub open spec fn instance_symbol(mem: MemoryArray) -> Seq<char> {
    if mem.axes@.len() == 0 { mem.name@ } else { mem.name@ + "_instance"@ }
}

pub open spec fn bank_line(v: Seq<char>, symbol: Seq<char>, word_size: nat, blocks: nat) -> Seq<char> {
    v + " = adl.memory.bank \""@ + prefixed_text("mem"@, symbol) + "\", {bsize = "@ + decimal(word_size)
        + ", nblk = "@ + decimal(blocks) + "}\n"@
}

pub open spec fn array_line(v: Seq<char>, symbol: Seq<char>, dims: Seq<char>, of: Seq<char>) -> Seq<char> {
    v + " = adl.memory.array \""@ + prefixed_text("mem"@, symbol) + "\", ["@ + dims + "] of "@ + of + "\n"@
}

/// The state after recording the SSA value and symbol of a memory handle of some rank.
pub open spec fn record_step(m: EmitterModel, memory: Seq<char>, rank: nat, v: Seq<char>, symbol: Seq<char>) -> EmitterModel {
    EmitterModel {
        handles: upsert(m.handles, (memory, rank), v),
        symbols: upsert(m.symbols, (memory, rank), prefixed_text("mem"@, symbol)),
        ..m
    }
}

/// Emitting the dimensions of `axes` in order, with their SSA values.
pub open spec fn dimensions_step(m: EmitterModel, axes: Seq<Axis>) -> (EmitterModel, Seq<Seq<char>>)
    decreases axes.len(),
{
    if axes.len() == 0 {
        (m, Seq::empty())
    } else {
        let (m1, vs) = dimensions_step(m, axes.drop_last());
        let (m2, v) = dimension_step(m1, axes.last().name@, axes.last().extent as nat);
        (m2, vs.push(v))
    }
}

/// Emitting a memory: its bank, a banking array where it has several banks, and, for a
/// memory with axes, one array over them; the handles of the instance (at the memory's
/// rank) and of the whole array (at rank 0) are recorded. A definition that fails its own
/// check is refused.
pub open spec fn memory_step(m: EmitterModel, mem: MemoryArray, def: MemoryDefinition) -> Result<(EmitterModel, Seq<char>), ExportErrorModel> {
    match definition_problem(def) {
        Some(reason) => Err(ExportErrorModel::InvalidMemoryGeometry(mem.name@, reason)),
        None => {
            let banks = bank_count(def);
            let blocks = def.capacity as nat / def.word_size as nat / banks;
            let inst = instance_symbol(mem);
            let bank_sym = if banks == 1 { inst } else { mem.name@ + "_bank"@ };
            let bank = ssa(m.counter);
            let m1 = EmitterModel { counter: next_count(m.counter), body: m.body + bank_line(bank, bank_sym, def.word_size as nat, blocks), ..m };
            let (m2, current) = if banks > 1 {
                let (ma, bd) = dimension_step(m1, mem.name@ + "_bank"@, banks);
                let arr = ssa(ma.counter);
                (EmitterModel { counter: next_count(ma.counter), body: ma.body + array_line(arr, inst, bd, bank), ..ma }, arr)
            } else {
                (m1, bank)
            };
            let m3 = record_step(m2, mem.name@, mem.axes@.len(), current, inst);
            if mem.axes@.len() > 0 {
                let (m4, ds) = dimensions_step(m3, mem.axes@);
                let arr = ssa(m4.counter);
                let m5 = EmitterModel { counter: next_count(m4.counter), body: m4.body + array_line(arr, mem.name@, join(ds, ", "@), current), ..m4 };
                Ok((record_step(m5, mem.name@, 0, arr, mem.name@), arr))
            } else {
                Ok((m3, current))
            }
        },
    }
}

proof fn lemma_upsert_at<K>(v: Seq<(K, Seq<char>)>, k: K, x: Seq<char>, i: int)
    requires
        0 <= i < v.len(),
        v[i].0 == k,
        forall|j: int| 0 <= j < i ==> v[j].0 != k,
    ensures
        upsert(v, k, x) == v.update(i, (k, x)),
    decreases i,
{
    if i == 0 {
    } else {
        assert(v[0].0 != k);
        assert forall|j: int| 0 <= j < i - 1 implies v.drop_first()[j].0 != k by {
            assert(v.drop_first()[j] == v[j + 1]);
        }
        lemma_upsert_at(v.drop_first(), k, x, i - 1);
        assert(seq![v[0]] + v.drop_first().update(i - 1, (k, x)) =~= v.update(i, (k, x)));
    }
}

proof fn lemma_upsert_none<K>(v: Seq<(K, Seq<char>)>, k: K, x: Seq<char>)
    requires
        forall|j: int| 0 <= j < v.len() ==> v[j].0 != k,
    ensures
        upsert(v, k, x) == v.push((k, x)),
    decreases v.len(),
{
    if v.len() > 0 {
        assert(v[0].0 != k);
        assert forall|j: int| 0 <= j < v.len() - 1 implies v.drop_first()[j].0 != k by {
            assert(v.drop_first()[j] == v[j + 1]);
        }
        lemma_upsert_none(v.drop_first(), k, x);
        assert(seq![v[0]] + v.drop_first().push((k, x)) =~= v.push((k, x)));
    }
}

/// Sets the value for the key `(name, rank)`, replacing the first entry with that key or
/// adding one.
fn upsert_keyed(v: &mut Vec<((String, usize), String)>, name: &str, rank: usize, x: String)
    ensures
        keyed_view(final(v)@) == upsert(keyed_view(old(v)@), (name@, rank as nat), x@),
{
    let ghost m = keyed_view(v@);
    let mut i: usize = 0;
    while i < v.len()
        invariant
            i <= v@.len(),
            m == keyed_view(v@),
            *v == *old(v),
            forall|j: int| 0 <= j < i ==> (#[trigger] m[j]).0 != (name@, rank as nat),
        decreases v.len() - i,
    {
        if v[i].0.1 == rank && crate::text::str_eq(v[i].0.0.as_str(), name) {
            proof { lemma_upsert_at(m, (name@, rank as nat), x@, i as int); }
            let ghost xv = x@;
            v.set(i, ((crate::text::owned(name), rank), x));
            proof { assert(keyed_view(v@) =~= m.update(i as int, ((name@, rank as nat), xv))); }
            return;
        }
        i += 1;
    }
    proof { lemma_upsert_none(m, (name@, rank as nat), x@); }
    let ghost xv = x@;
    v.push(((crate::text::owned(name), rank), x));
    proof { assert(keyed_view(v@) =~= m.push(((name@, rank as nat), xv))); }
}

impl Emitter {
    /// Records the SSA value and the symbol of a memory handle of some rank.
    pub fn record_memory_handle(&mut self, memory: &str, rank: usize, ssa_value: &str, symbol: &str)
        ensures
            final(self)@ == record_step(old(self)@, memory@, rank as nat, ssa_value@, symbol@),
    {
        upsert_keyed(&mut self.memory_handle_ssa, memory, rank, crate::text::owned(ssa_value));
        let p = prefixed("mem", symbol);
        upsert_keyed(&mut self.memory_handle_symbol, memory, rank, p);
        proof { reveal_strlit("mem"); }
    }

    /// Appends `v = adl.memory.array "<mem_symbol>", [<dims>] of <of>`.
    fn push_array_line(&mut self, v: &str, symbol: &str, dims: &Vec<String>, of: &str)
        ensures
            final(self)@ == (EmitterModel { body: old(self)@.body + array_line(v@, symbol@, join(crate::text::texts(dims@), ", "@), of@), ..old(self)@ }),
    {
        let ghost b0 = self.body@;
        push_str(&mut self.body, v);
        push_str(&mut self.body, " = adl.memory.array \"");
        let p = prefixed("mem", symbol);
        push_str(&mut self.body, p.as_str());
        push_str(&mut self.body, "\", [");
        let ghost base = self.body@;
        let ghost ds = crate::text::texts(dims@);
        let mut i: usize = 0;
        proof { assert(join(ds.take(0), ", "@) =~= Seq::<char>::empty()); assert(self.body@ =~= base + join(ds.take(0), ", "@)); }
        while i < dims.len()
            invariant
                i <= dims@.len(),
                ds == crate::text::texts(dims@),
                self.body@ == base + join(ds.take(i as int), ", "@),
                self.counter == old(self).counter,
                self.dimension_ssa == old(self).dimension_ssa,
                self.memory_handle_ssa == old(self).memory_handle_ssa,
                self.memory_handle_symbol == old(self).memory_handle_symbol,
                self.resource_ssa == old(self).resource_ssa,
            decreases dims.len() - i,
        {
            let cs = crate::text::chars_of(dims[i].as_str());
            crate::mlir::lower::push_joined(&mut self.body, i, ", ", cs.as_slice(), Ghost(ds), Ghost(base));
            i += 1;
        }
        push_str(&mut self.body, "] of ");
        push_str(&mut self.body, of);
        push_str(&mut self.body, "\n");
        proof {
            reveal_strlit(" = adl.memory.array \"");
            reveal_strlit("mem");
            reveal_strlit("\", [");
            reveal_strlit("] of ");
            reveal_strlit("\n");
            assert(ds.take(ds.len() as int) =~= ds);
            assert(self.body@ =~= b0 + array_line(v@, symbol@, join(ds, ", "@), of@));
        }
    }

    /// Emits a memory: a bank, a banking array where the definition has several banks, and
    /// one array over the memory's axes where it has any; returns the SSA value of the
    /// outermost handle. A definition that fails its own check is refused, and nothing is
    /// emitted.
    pub fn emit_memory(&mut self, memory: &MemoryArray, definition: &MemoryDefinition) -> (r: Result<String, AdlExportError>)
        ensures
            match r {
                Ok(v) => memory_step(old(self)@, *memory, *definition) == Ok::<(EmitterModel, Seq<char>), ExportErrorModel>((final(self)@, v@)),
                Err(e) => memory_step(old(self)@, *memory, *definition) == Err::<(EmitterModel, Seq<char>), ExportErrorModel>(e@)
                    && final(self)@ == old(self)@,
            },
    {
        match definition.validate() {
            Ok(()) => {},
            Err(reason) => {
                return Err(AdlExportError::InvalidMemoryGeometry { memory: crate::text::owned(memory.name()), reason });
            },
        }
        let name = memory.name();
        let banks: u64 = match definition.banking {
            Some(b) => b.banks,
            None => 1,
        };
        let blocks = definition.capacity / definition.word_size / banks;
        let instance = if memory.rank() == 0 {
            crate::text::owned(name)
        } else {
            crate::text::concat(name, "_instance")
        };
        let bank_symbol = if banks == 1 {
            crate::text::owned(instance.as_str())
        } else {
            memory.bank_symbol()
        };
        let bank = self.next_ssa();
        let ghost b0 = self.body@;
        push_str(&mut self.body, bank.as_str());
        push_str(&mut self.body, " = adl.memory.bank \"");
        let p = prefixed("mem", bank_symbol.as_str());
        push_str(&mut self.body, p.as_str());
        push_str(&mut self.body, "\", {bsize = ");
        push_decimal(&mut self.body, definition.word_size);
        push_str(&mut self.body, ", nblk = ");
        push_decimal(&mut self.body, blocks);
        push_str(&mut self.body, "}\n");
        proof {
            reveal_strlit("_instance");
            reveal_strlit(" = adl.memory.bank \"");
            reveal_strlit("mem");
            reveal_strlit("\", {bsize = ");
            reveal_strlit(", nblk = ");
            reveal_strlit("}\n");
            assert(self.body@ =~= b0 + bank_line(bank@, bank_symbol@, definition.word_size as nat, blocks as nat));
        }
        let mut current = bank;
        if banks > 1 {
            let bank_dimension = self.emit_dimension(memory.bank_symbol().as_str(), banks);
            let array = self.next_ssa();
            let dims = vec![bank_dimension];
            self.push_array_line(array.as_str(), instance.as_str(), &dims, current.as_str());
            proof {
                reveal_strlit("_bank");
                assert(crate::text::texts(dims@) =~= seq![dims@[0]@]);
            }
            current = array;
        }
        self.record_memory_handle(name, memory.rank(), current.as_str(), instance.as_str());
        if memory.rank() > 0 {
            let ghost m3 = self@;
            let mut dims: Vec<String> = Vec::new();
            let mut j: usize = 0;
            proof {
                assert(memory.axes@.take(0) =~= Seq::<Axis>::empty());
                assert(crate::text::texts(dims@) =~= Seq::<Seq<char>>::empty());
            }
            while j < memory.axes.len()
                invariant
                    j <= memory.axes@.len(),
                    (self@, crate::text::texts(dims@)) == dimensions_step(m3, memory.axes@.take(j as int)),
                    dims@.len() == j,
                decreases memory.axes.len() - j,
            {
                proof {
                    assert(memory.axes@.take(j + 1).drop_last() =~= memory.axes@.take(j as int));
                }
                let a = &memory.axes[j];
                let v = self.emit_dimension(a.name(), a.extent());
                let ghost before = dims@;
                dims.push(v);
                proof { assert(crate::text::texts(dims@) =~= crate::text::texts(before).push(dims@[j as int]@)); }
                j += 1;
            }
            proof {
                assert(memory.axes@.take(memory.axes@.len() as int) =~= memory.axes@);
            }
            let array = self.next_ssa();
            self.push_array_line(array.as_str(), name, &dims, current.as_str());
            self.record_memory_handle(name, 0, array.as_str(), name);
            return Ok(array);
        }
        Ok(current)
    }
}

} // verus!

verus! {

/// The number of expression selectors before the first whole-axis selector.
pub open spec fn leading_expressions(ixs: Seq<EndpointIndex>) -> nat
    decreases ixs.len(),
{
    if ixs.len() == 0 || ixs[0] is All {
        0
    } else {
        1 + leading_expressions(ixs.drop_first())
    }
}

/// The first memory named `n`.
pub open spec fn first_memory(ms: Seq<MemoryArray>, n: Seq<char>) -> Option<MemoryArray>
    decreases ms.len(),
{
    if ms.len() == 0 {
        None
    } else if ms[0].name@ == n {
        Some(ms[0])
    } else {
        first_memory(ms.drop_first(), n)
    }
}

pub open spec fn unknown_memory(n: Seq<char>) -> ExportErrorModel {
    ExportErrorModel::InvalidConnection("<export>"@, "unknown memory '"@ + n + "'"@)
}

/// The rank of the handle an endpoint selects: the whole array (rank 0) or one leaf
/// template (the memory's rank). An endpoint that fixes an index after a whole axis, or
/// fixes some but not all of them, cannot be represented.
pub open spec fn selection_prefix(a: Architecture, e: MemoryEndpoint) -> Result<nat, ExportErrorModel> {
    match first_memory(a.memories@, e.memory@) {
        None => Err(unknown_memory(e.memory@)),
        Some(m) => {
            let k = leading_expressions(e.indices@);
            if exists|j: int| k <= j < e.indices@.len() && e.indices@[j] is Expression {
                Err(ExportErrorModel::UnsupportedMemorySelection(m.name@))
            } else if k != 0 && k != m.axes@.len() {
                Err(ExportErrorModel::UnsupportedMemorySelection(m.name@))
            } else {
                Ok(k)
            }
        },
    }
}

pub proof fn lemma_first_memory_at(ms: Seq<MemoryArray>, n: Seq<char>, i: int)
    requires
        0 <= i < ms.len(),
        ms[i].name@ == n,
        forall|j: int| 0 <= j < i ==> ms[j].name@ != n,
    ensures
        first_memory(ms, n) == Some(ms[i]),
    decreases i,
{
    if i > 0 {
        assert(ms[0].name@ != n);
        assert forall|j: int| 0 <= j < i - 1 implies ms.drop_first()[j].name@ != n by {
            assert(ms.drop_first()[j] == ms[j + 1]);
        }
        lemma_first_memory_at(ms.drop_first(), n, i - 1);
    }
}

pub proof fn lemma_first_memory_none(ms: Seq<MemoryArray>, n: Seq<char>)
    requires
        forall|j: int| 0 <= j < ms.len() ==> ms[j].name@ != n,
    ensures
        first_memory(ms, n) is None,
    decreases ms.len(),
{
    if ms.len() > 0 {
        assert(ms[0].name@ != n);
        assert forall|j: int| 0 <= j < ms.len() - 1 implies ms.drop_first()[j].name@ != n by {
            assert(ms.drop_first()[j] == ms[j + 1]);
        }
        lemma_first_memory_none(ms.drop_first(), n);
    }
}

proof fn lemma_leading(ixs: Seq<EndpointIndex>, k: int)
    requires
        0 <= k <= ixs.len(),
        forall|j: int| 0 <= j < k ==> ixs[j] is Expression,
        k == ixs.len() || ixs[k] is All,
    ensures
        leading_expressions(ixs) == k,
    decreases k,
{
    if k > 0 {
        assert forall|j: int| 0 <= j < k - 1 implies ixs.drop_first()[j] is Expression by {
            assert(ixs.drop_first()[j] == ixs[j + 1]);
        }
        assert(k - 1 == ixs.drop_first().len() || ixs.drop_first()[k - 1] == ixs[k]);
        lemma_leading(ixs.drop_first(), k - 1);
    }
}

fn unknown_memory_error(n: &str) -> (r: AdlExportError)
    ensures
        r@ == unknown_memory(n@),
{
    let mut reason = crate::text::owned("unknown memory '");
    push_str(&mut reason, n);
    push_str(&mut reason, "'");
    proof {
        reveal_strlit("unknown memory '");
        reveal_strlit("'");
        reveal_strlit("<export>");
    }
    AdlExportError::InvalidConnection { processor: crate::text::owned("<export>"), reason }
}

/// The rank of the memory handle that an endpoint selects.
pub fn endpoint_selection_prefix(architecture: &Architecture, endpoint: &MemoryEndpoint) -> (r: Result<usize, AdlExportError>)
    ensures
        match r {
            Ok(k) => selection_prefix(*architecture, *endpoint) == Ok::<nat, ExportErrorModel>(k as nat),
            Err(e) => selection_prefix(*architecture, *endpoint) == Err::<nat, ExportErrorModel>(e@),
        },
{
    let memory = match architecture.memory(endpoint.memory.as_str()) {
        Some(m) => m,
        None => {
            proof { lemma_first_memory_none(architecture.memories@, endpoint.memory@); }
            return Err(unknown_memory_error(endpoint.memory.as_str()));
        },
    };
    proof {
        let ms = architecture.memories@;
        let k = choose|k: int| first_where(ms, |m: MemoryArray| m.name@ == endpoint.memory@, k) && ms[k] == *memory;
        assert forall|j: int| 0 <= j < k implies ms[j].name@ != endpoint.memory@ by {
            assert(!((|m: MemoryArray| m.name@ == endpoint.memory@)(ms[j])));
        }
        lemma_first_memory_at(ms, endpoint.memory@, k);
    }
    let ixs = &endpoint.indices;
    let mut rank: usize = 0;
    let mut sliced = false;
    let mut i: usize = 0;
    while i < ixs.len()
        invariant
            i <= ixs@.len(),
            rank <= i,
            *ixs == endpoint.indices,
            first_memory(architecture.memories@, endpoint.memory@) == Some(*memory),
            forall|j: int| 0 <= j < rank ==> ixs@[j] is Expression,
            !sliced ==> rank == i,
            sliced ==> rank < i && ixs@[rank as int] is All,
            sliced ==> forall|j: int| rank < j < i ==> ixs@[j] is All,
        decreases ixs.len() - i,
    {
        match &ixs[i] {
            EndpointIndex::All => {
                sliced = true;
            },
            EndpointIndex::Expression(_) => {
                if sliced {
                    proof {
                        lemma_leading(ixs@, rank as int);
                        assert(ixs@[i as int] is Expression);
                        assert(rank <= i < ixs@.len());
                    }
                    return Err(AdlExportError::UnsupportedMemorySelection { memory: crate::text::owned(memory.name()) });
                }
                rank += 1;
            },
        }
        i += 1;
    }
    proof {
        lemma_leading(ixs@, rank as int);
        assert(!(exists|j: int| rank <= j < ixs@.len() && ixs@[j] is Expression));
    }
    if rank != 0 && rank != memory.rank() {
        return Err(AdlExportError::UnsupportedMemorySelection { memory: crate::text::owned(memory.name()) });
    }
    Ok(rank)
}

/// The value of the first entry for the key `(name, rank)`.
pub(crate) fn find_keyed(v: &Vec<((String, usize), String)>, name: &str, rank: usize) -> (r: Option<usize>)
    ensures
        match r {
            Some(i) => i < v@.len() && lookup(keyed_view(v@), (name@, rank as nat)) == Some(v@[i as int].1@),
            None => lookup(keyed_view(v@), (name@, rank as nat)) is None,
        },
{
    let ghost m = keyed_view(v@);
    let mut i: usize = 0;
    proof { assert(m.skip(0) =~= m); }
    while i < v.len()
        invariant
            i <= v@.len(),
            m == keyed_view(v@),
            lookup(m, (name@, rank as nat)) == lookup(m.skip(i as int), (name@, rank as nat)),
        decreases v.len() - i,
    {
        proof {
            assert(m.skip(i as int)[0] == ((v@[i as int].0.0@, v@[i as int].0.1 as nat), v@[i as int].1@));
            assert(m.skip(i as int).drop_first() =~= m.skip(i + 1));
        }
        if v[i].0.1 == rank && crate::text::str_eq(v[i].0.0.as_str(), name) {
            return Some(i);
        }
        i += 1;
    }
    None
}

/// The SSA value of the handle an endpoint selects.
pub open spec fn endpoint_ssa(m: EmitterModel, a: Architecture, e: MemoryEndpoint) -> Result<Seq<char>, ExportErrorModel> {
    match selection_prefix(a, e) {
        Err(x) => Err(x),
        Ok(k) => match lookup(m.handles, (e.memory@, k)) {
            Some(v) => Ok(v),
            None => Err(unknown_memory(e.memory@)),
        },
    }
}

/// The symbol of the whole array that an endpoint's memory was emitted as.
pub open spec fn endpoint_symbol(m: EmitterModel, a: Architecture, e: MemoryEndpoint) -> Result<Seq<char>, ExportErrorModel> {
    match selection_prefix(a, e) {
        Err(x) => Err(x),
        Ok(_) => match lookup(m.symbols, (e.memory@, 0nat)) {
            Some(v) => Ok(v),
            None => Err(unknown_memory(e.memory@)),
        },
    }
}

/// The SSA value of the memory handle an endpoint selects.
pub fn endpoint_memory_ssa(emitter: &Emitter, architecture: &Architecture, endpoint: &MemoryEndpoint) -> (r: Result<String, AdlExportError>)
    ensures
        match r {
            Ok(v) => endpoint_ssa(emitter@, *architecture, *endpoint) == Ok::<Seq<char>, ExportErrorModel>(v@),
            Err(e) => endpoint_ssa(emitter@, *architecture, *endpoint) == Err::<Seq<char>, ExportErrorModel>(e@),
        },
{
    let prefix = endpoint_selection_prefix(architecture, endpoint)?;
    match find_keyed(&emitter.memory_handle_ssa, endpoint.memory.as_str(), prefix) {
        Some(i) => Ok(emitter.memory_handle_ssa[i].1.clone()),
        None => Err(unknown_memory_error(endpoint.memory.as_str())),
    }
}

/// The symbol of the whole array that an endpoint's memory was emitted as.
pub fn endpoint_memory_symbol(emitter: &Emitter, architecture: &Architecture, endpoint: &MemoryEndpoint) -> (r: Result<String, AdlExportError>)
    ensures
        match r {
            Ok(v) => endpoint_symbol(emitter@, *architecture, *endpoint) == Ok::<Seq<char>, ExportErrorModel>(v@),
            Err(e) => endpoint_symbol(emitter@, *architecture, *endpoint) == Err::<Seq<char>, ExportErrorModel>(e@),
        },
{
    endpoint_selection_prefix(architecture, endpoint)?;
    match find_keyed(&emitter.memory_handle_symbol, endpoint.memory.as_str(), 0) {
        Some(i) => Ok(emitter.memory_handle_symbol[i].1.clone()),
        None => Err(unknown_memory_error(endpoint.memory.as_str())),
    }
}

} // verus!

verus! {

/// The UTF-8 bytes of a character.
pub open spec fn utf8(c: char) -> Seq<nat> {
    let n = (c as u32) as nat;
    if n < 0x80 {
        seq![n]
    } else if n < 0x800 {
        seq![0xC0 + n / 64, 0x80 + n % 64]
    } else if n < 0x10000 {
        seq![0xE0 + n / 4096, 0x80 + (n / 64) % 64, 0x80 + n % 64]
    } else {
        seq![0xF0 + n / 262144, 0x80 + (n / 4096) % 64, 0x80 + (n / 64) % 64, 0x80 + n % 64]
    }
}

pub open spec fn hex_digit(d: nat) -> char {
    if d < 10 { ((d + 48) as u8) as char } else { ((d + 55) as u8) as char }
}

/// How one byte stands in an MLIR string: `"` as `\22`, `\` as `\5C`, other printable
/// ASCII as itself, anything else as `\` and two upper-case hex digits.
pub open spec fn byte_escape(b: nat) -> Seq<char> {
    if b == 0x22 {
        "\\22"@
    } else if b == 0x5C {
        "\\5C"@
    } else if 0x20 <= b <= 0x7e {
        seq![(b as u32) as char]
    } else {
        seq!['\\', hex_digit(b / 16), hex_digit(b % 16)]
    }
}

pub open spec fn bytes_escape(bs: Seq<nat>) -> Seq<char>
    decreases bs.len(),
{
    if bs.len() == 0 { Seq::empty() } else { bytes_escape(bs.drop_last()) + byte_escape(bs.last()) }
}

/// The text escaped for an MLIR string literal, byte by byte of its UTF-8 form.
pub open spec fn escaped(s: Seq<char>) -> Seq<char>
    decreases s.len(),
{
    if s.len() == 0 { Seq::empty() } else { escaped(s.drop_last()) + bytes_escape(utf8(s.last())) }
}

proof fn lemma_bytes_escape_push(bs: Seq<nat>, b: nat)
    ensures
        bytes_escape(bs.push(b)) == bytes_escape(bs) + byte_escape(b),
{
    assert(bs.push(b).drop_last() =~= bs);
}

fn hex_char(d: u32) -> (c: char)
    requires
        d < 16,
    ensures
        c == hex_digit(d as nat),
{
    if d == 0 { '0' } else if d == 1 { '1' } else if d == 2 { '2' } else if d == 3 { '3' }
    else if d == 4 { '4' } else if d == 5 { '5' } else if d == 6 { '6' } else if d == 7 { '7' }
    else if d == 8 { '8' } else if d == 9 { '9' } else if d == 10 { 'A' } else if d == 11 { 'B' }
    else if d == 12 { 'C' } else if d == 13 { 'D' } else if d == 14 { 'E' } else { 'F' }
}

fn push_byte_escape(s: &mut String, b: u32, c: char)
    requires
        b < 256,
        b < 0x80 ==> c as u32 == b,
    ensures
        final(s)@ == old(s)@ + byte_escape(b as nat),
{
    if b == 0x22 {
        push_str(s, "\\22");
        proof { reveal_strlit("\\22"); }
    } else if b == 0x5C {
        push_str(s, "\\5C");
        proof { reveal_strlit("\\5C"); }
    } else if 0x20 <= b && b <= 0x7e {
        push_char(s, c);
        proof {
            vstd::utf8::char_u32_cast(c, b);
            assert(((b as nat) as u32) as char == c);
            assert(old(s)@.push(c) =~= old(s)@ + seq![c]);
        }
    } else {
        push_char(s, '\\');
        push_char(s, hex_char(b / 16));
        push_char(s, hex_char(b % 16));
        proof { assert(final(s)@ =~= old(s)@ + byte_escape(b as nat)); }
    }
}

/// The string escaped for an MLIR string literal: each byte of its UTF-8 form as itself
/// where it is printable ASCII other than `"` and `\`, otherwise as `\` and two hex digits.
pub fn escape_mlir_string(value: &str) -> (r: String)
    ensures
        r@ == escaped(value@),
{
    let cs = crate::text::chars_of(value);
    let mut out = String::new();
    let mut i: usize = 0;
    while i < cs.len()
        invariant
            i <= cs@.len(),
            cs@ == value@,
            out@ == escaped(cs@.take(i as int)),
        decreases cs.len() - i,
    {
        let c = cs[i];
        proof { vstd::utf8::char_is_scalar(c); }
        let n = c as u32;
        let ghost before = out@;
        let ghost e = Seq::<nat>::empty();
        if n < 0x80 {
            push_byte_escape(&mut out, n, c);
            proof {
                lemma_bytes_escape_push(e, n as nat);
                assert(utf8(c) =~= e.push(n as nat));
            }
        } else if n < 0x800 {
            push_byte_escape(&mut out, 0xC0 + n / 64, c);
            push_byte_escape(&mut out, 0x80 + n % 64, c);
            proof {
                let b0 = (0xC0 + n / 64) as nat;
                let b1 = (0x80 + n % 64) as nat;
                lemma_bytes_escape_push(e, b0);
                lemma_bytes_escape_push(e.push(b0), b1);
                assert(utf8(c) =~= e.push(b0).push(b1));
            }
        } else if n < 0x10000 {
            push_byte_escape(&mut out, 0xE0 + n / 4096, c);
            push_byte_escape(&mut out, 0x80 + (n / 64) % 64, c);
            push_byte_escape(&mut out, 0x80 + n % 64, c);
            proof {
                let b0 = (0xE0 + n / 4096) as nat;
                let b1 = (0x80 + (n / 64) % 64) as nat;
                let b2 = (0x80 + n % 64) as nat;
                lemma_bytes_escape_push(e, b0);
                lemma_bytes_escape_push(e.push(b0), b1);
                lemma_bytes_escape_push(e.push(b0).push(b1), b2);
                assert(utf8(c) =~= e.push(b0).push(b1).push(b2));
            }
        } else {
            push_byte_escape(&mut out, 0xF0 + n / 262144, c);
            push_byte_escape(&mut out, 0x80 + (n / 4096) % 64, c);
            push_byte_escape(&mut out, 0x80 + (n / 64) % 64, c);
            push_byte_escape(&mut out, 0x80 + n % 64, c);
            proof {
                let b0 = (0xF0 + n / 262144) as nat;
                let b1 = (0x80 + (n / 4096) % 64) as nat;
                let b2 = (0x80 + (n / 64) % 64) as nat;
                let b3 = (0x80 + n % 64) as nat;
                lemma_bytes_escape_push(e, b0);
                lemma_bytes_escape_push(e.push(b0), b1);
                lemma_bytes_escape_push(e.push(b0).push(b1), b2);
                lemma_bytes_escape_push(e.push(b0).push(b1).push(b2), b3);
                assert(utf8(c) =~= e.push(b0).push(b1).push(b2).push(b3));
            }
        }
        proof {
            assert(cs@.take(i + 1).drop_last() =~= cs@.take(i as int));
            assert(out@ =~= before + bytes_escape(utf8(c)));
        }
        i += 1;
    }
    proof { assert(cs@.take(cs@.len() as int) =~= cs@); }
    out
}

} // verus!

verus! {

/// The lines of `s` from position `a` on, each after `pre` and ended by a newline. Lines
/// end at `\n`, or at `\r\n`; a last line without one keeps what it holds, and nothing
/// follows a final line ending.
pub open spec fn indented_from(s: Seq<char>, a: int, pre: Seq<char>) -> Seq<char>
    decreases s.len() - a,
{
    if a < 0 || a >= s.len() {
        Seq::empty()
    } else {
        let i = crate::text::find_char(s, a, s.len() as int, '\n');
        proof { crate::text::lemma_find_char(s, a, s.len() as int, '\n'); }
        if i >= s.len() {
            pre + s.subrange(a, s.len() as int) + "\n"@
        } else {
            let line = s.subrange(a, i);
            let kept = if line.len() > 0 && line.last() == '\r' { line.drop_last() } else { line };
            pre + kept + "\n"@ + indented_from(s, i + 1, pre)
        }
    }
}

/// `n` spaces.
pub open spec fn spaces(n: nat) -> Seq<char> {
    Seq::new(n, |_i: int| ' ')
}

/// Every line of `text` after `spaces` spaces, each ended by a newline.
pub fn indent(text: &str, count: usize) -> (r: String)
    ensures
        r@ == indented_from(text@, 0, spaces(count as nat)),
{
    let cs = crate::text::chars_of(text);
    let mut prefix = String::new();
    let mut k: usize = 0;
    proof { assert(prefix@ =~= spaces(0)); }
    while k < count
        invariant
            k <= count,
            prefix@ == spaces(k as nat),
        decreases count - k,
    {
        push_char(&mut prefix, ' ');
        proof { assert(prefix@ =~= spaces((k + 1) as nat)); }
        k += 1;
    }
    let ghost pre = spaces(count as nat);
    let ghost s = cs@;
    let mut out = String::new();
    let mut a: usize = 0;
    let n = cs.len();
    proof { assert(out@ + indented_from(s, 0, pre) =~= indented_from(s, 0, pre)); }
    while a < n
        invariant
            a <= n,
            n == s.len(),
            s == cs@,
            prefix@ == pre,
            out@ + indented_from(s, a as int, pre) == indented_from(s, 0, pre),
        decreases n - a,
    {
        let i = crate::text::find_char_in(cs.as_slice(), a, n, '\n');
        proof { crate::text::lemma_find_char(s, a as int, n as int, '\n'); }
        let ghost before = out@;
        push_str(&mut out, prefix.as_str());
        if i == n {
            let line = crate::text::from_char_range(cs.as_slice(), a, n);
            push_str(&mut out, line.as_str());
            push_str(&mut out, "\n");
            proof {
                reveal_strlit("\n");
                assert(out@ =~= before + indented_from(s, a as int, pre));
                assert(indented_from(s, n as int, pre) =~= Seq::<char>::empty());
            }
            a = n;
        } else {
            let mut e = i;
            if e > a && cs[e - 1] == '\r' {
                e = e - 1;
            }
            let line = crate::text::from_char_range(cs.as_slice(), a, e);
            push_str(&mut out, line.as_str());
            push_str(&mut out, "\n");
            proof {
                reveal_strlit("\n");
                let l = s.subrange(a as int, i as int);
                let kept = if l.len() > 0 && l.last() == '\r' { l.drop_last() } else { l };
                assert(line@ =~= kept);
                assert(out@ + indented_from(s, i + 1, pre) =~= before + indented_from(s, a as int, pre));
            }
            a = i + 1;
        }
    }
    out
}

} // verus!

verus! {

/// Whether `prefix` is a leading part of `domain`: the same axes, by name and extent.
pub open spec fn domain_prefix(prefix: Seq<Axis>, domain: Seq<Axis>) -> bool {
    prefix.len() <= domain.len() && forall|i: int| 0 <= i < prefix.len()
        ==> (#[trigger] prefix[i]).name@ == domain[i].name@ && prefix[i].extent == domain[i].extent
}

/// Whether the axes of `prefix` begin `domain`.
pub fn is_domain_prefix(prefix: &[Axis], domain: &[Axis]) -> (r: bool)
    ensures
        r == domain_prefix(prefix@, domain@),
{
    if prefix.len() > domain.len() {
        return false;
    }
    let mut i: usize = 0;
    while i < prefix.len()
        invariant
            i <= prefix@.len() <= domain@.len(),
            forall|j: int| 0 <= j < i ==> (#[trigger] prefix@[j]).name@ == domain@[j].name@ && prefix@[j].extent == domain@[j].extent,
        decreases prefix.len() - i,
    {
        if prefix[i].extent != domain[i].extent || !crate::text::str_eq(prefix[i].name.as_str(), domain[i].name.as_str()) {
            return false;
        }
        i += 1;
    }
    true
}

} // verus!
