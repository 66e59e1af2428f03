//! Processor definitions (functions with performance models), their connections to
//! memories, processor arrays placed over axes, and selections of their instances.
use vstd::prelude::*;

use super::axis::{clone_axes, Axis};
use super::memory::MemoryEndpoint;
use super::perf::{undeclared_outcome, symbols_problem, validate_symbols, FuncPerfModel};
use super::resource::Resource;
use crate::math::expr::{names, Sym};
use crate::mlir::func::MlirFunc;
use crate::mlir::module::shape_syms;

verus! {

/// What a processor does: compute, or move data.
#[derive(Debug, PartialEq, Eq, Structural, Clone, Copy)]
pub enum ProcessorType {
    Compute,
    DataMover,
}

/// One parsed function and its performance model.
#[derive(Debug)]
pub struct OperationModel {
    pub func: MlirFunc,
    pub perf: FuncPerfModel,
}

/// The `Debug` text of a list of symbols: `[Sym("a"), Sym("b")]`.
pub open spec fn syms_debug(v: Seq<Sym>) -> Seq<char> {
    "["@ + syms_debug_items(v) + "]"@
}

pub open spec fn syms_debug_items(v: Seq<Sym>) -> Seq<char>
    decreases v.len(),
{
    if v.len() == 0 {
        Seq::empty()
    } else if v.len() == 1 {
        "Sym(\""@ + v[0]@ + "\")"@
    } else {
        syms_debug_items(v.drop_last()) + ", Sym(\""@ + v.last()@ + "\")"@
    }
}

/// The `Debug` text of a list of symbols.
pub fn push_syms_debug(s: &mut String, v: &Vec<Sym>)
    ensures
        final(s)@ == old(s)@ + syms_debug(v@),
{
    crate::text::push_str(s, "[");
    let ghost start = s@;
    let mut i: usize = 0;
    proof { assert(syms_debug_items(v@.take(0)) =~= Seq::<char>::empty()); }
    while i < v.len()
        invariant
            i <= v@.len(),
            s@ == start + syms_debug_items(v@.take(i as int)),
        decreases v.len() - i,
    {
        proof { assert(v@.take(i + 1).drop_last() =~= v@.take(i as int)); }
        if i == 0 {
            crate::text::push_str(s, "Sym(\"");
        } else {
            crate::text::push_str(s, ", Sym(\"");
        }
        crate::text::push_str(s, v[i].as_str());
        crate::text::push_str(s, "\")");
        i += 1;
    }
    proof { assert(v@.take(v@.len() as int) =~= v@); }
    crate::text::push_str(s, "]");
}

/// What `OperationModel::validate` reports, if anything.
pub open spec fn operation_problem(op: OperationModel, undeclared: Result<(), Vec<Sym>>) -> Option<Seq<char>> {
    if symbols_problem(op.perf.symbols@) is Some {
        symbols_problem(op.perf.symbols@)
    } else if symbols_problem(op.func.symbols@) is Some {
        symbols_problem(op.func.symbols@)
    } else {
        match undeclared {
            Ok(()) => None,
            Err(v) => Some("function '"@ + op.func.name@ + "' performance model uses undeclared symbols: "@ + syms_debug(v@)),
        }
    }
}

impl OperationModel {
    pub fn new(func: MlirFunc, perf: FuncPerfModel) -> (r: OperationModel)
        ensures
            r.func == func,
            r.perf == perf,
    {
        OperationModel { func, perf }
    }

    /// Symbol names are identifiers without repeats, and the model declares every symbol
    /// that it or the function's shapes use.
    pub fn validate(&self) -> (r: Result<(), String>)
        ensures
            exists|u: Result<(), Vec<Sym>>| undeclared_outcome(self.perf, shape_syms(self.func), u) && match r {
                Ok(()) => operation_problem(*self, u) is None,
                Err(m) => operation_problem(*self, u) == Some(m@),
            },
    {
        let u = self.perf.validate_for_func(&self.func);
        validate_symbols(&self.perf.symbols)?;
        validate_symbols(&self.func.symbols)?;
        match u {
            Ok(()) => Ok(()),
            Err(v) => {
                let mut m = crate::text::owned("function '");
                crate::text::push_str(&mut m, self.func.name.as_str());
                crate::text::push_str(&mut m, "' performance model uses undeclared symbols: ");
                push_syms_debug(&mut m, &v);
                Err(m)
            },
        }
    }
}

/// Reusable processor functionality and performance.
#[derive(Debug)]
pub struct ProcessorDefinition {
    pub name: String,
    pub processor_type: Option<ProcessorType>,
    /// Native processor MLIR.
    pub source: String,
    pub functions: Vec<OperationModel>,
    pub resources: Vec<Resource>,
}

impl ProcessorDefinition {
    pub fn new(name: &str, source: &str, functions: Vec<OperationModel>) -> (r: ProcessorDefinition)
        ensures
            r.name@ == name@,
            r.processor_type is None,
            r.source@ == source@,
            r.functions == functions,
            r.resources@.len() == 0,
    {
        ProcessorDefinition {
            name: crate::text::owned(name),
            processor_type: None,
            source: crate::text::owned(source),
            functions,
            resources: Vec::new(),
        }
    }

    pub fn with_type(self, processor_type: ProcessorType) -> (r: ProcessorDefinition)
        ensures
            r == (ProcessorDefinition { processor_type: Some(processor_type), ..self }),
    {
        let mut d = self;
        d.processor_type = Some(processor_type);
        d
    }

    pub fn with_name(self, name: &str) -> (r: ProcessorDefinition)
        ensures
            r.name@ == name@,
            r.processor_type == self.processor_type,
            r.source == self.source,
            r.functions == self.functions,
            r.resources == self.resources,
    {
        let mut d = self;
        d.name = crate::text::owned(name);
        d
    }

    pub fn name(&self) -> (r: &str)
        ensures
            r@ == self.name@,
    {
        self.name.as_str()
    }

    pub fn processor_type(&self) -> (r: Option<&ProcessorType>)
        ensures
            match self.processor_type {
                Some(t) => r == Some(&t),
                None => r is None,
            },
    {
        match &self.processor_type {
            Some(t) => Some(t),
            None => None,
        }
    }

    pub fn source(&self) -> (r: &str)
        ensures
            r@ == self.source@,
    {
        self.source.as_str()
    }

    pub fn operations(&self) -> (r: &[OperationModel])
        ensures
            r@ == self.functions@,
    {
        self.functions.as_slice()
    }

    pub fn resources(&self) -> (r: &[Resource])
        ensures
            r@ == self.resources@,
    {
        self.resources.as_slice()
    }

    pub fn with_resources(self, resources: Vec<Resource>) -> (r: ProcessorDefinition)
        ensures
            r == (ProcessorDefinition { resources, ..self }),
    {
        let mut d = self;
        d.resources = resources;
        d
    }

    /// The first function of this name.
    pub fn get_function(&self, name: &str) -> (r: Option<&OperationModel>)
        ensures
            match r {
                Some(f) => exists|i: int| 0 <= i < self.functions@.len() && self.functions@[i] == *f
                    && f.func.name@ == name@ && forall|j: int| 0 <= j < i ==> self.functions@[j].func.name@ != name@,
                None => forall|j: int| 0 <= j < self.functions@.len() ==> self.functions@[j].func.name@ != name@,
            },
    {
        let mut i: usize = 0;
        while i < self.functions.len()
            invariant
                i <= self.functions@.len(),
                forall|j: int| 0 <= j < i ==> self.functions@[j].func.name@ != name@,
            decreases self.functions.len() - i,
        {
            if crate::text::str_eq(self.functions[i].func.name.as_str(), name) {
                return Some(&self.functions[i]);
            }
            i += 1;
        }
        None
    }
}

/// A named port of a processor connection and the memory selection it reads or writes.
#[derive(Debug, PartialEq, Eq)]
pub struct ConnectionPort {
    pub name: String,
    pub endpoint: MemoryEndpoint,
}

impl Clone for ConnectionPort {
    fn clone(&self) -> (r: Self)
        ensures
            r.name == self.name,
            r.endpoint.memory == self.endpoint.memory,
            r.endpoint.indices@ == self.endpoint.indices@,
            r.endpoint.bank == self.endpoint.bank,
    {
        ConnectionPort { name: self.name.clone(), endpoint: self.endpoint.clone() }
    }
}

impl ConnectionPort {
    pub fn new(name: &str, endpoint: MemoryEndpoint) -> (r: ConnectionPort)
        ensures
            r.name@ == name@,
            r.endpoint == endpoint,
    {
        ConnectionPort { name: crate::text::owned(name), endpoint }
    }
}

/// How a processor placement reads and writes memories, indexed by its domain axes.
#[derive(Debug, PartialEq, Eq)]
pub struct Connection {
    /// Ordered architecture axes that index this processor placement.
    pub domain: Vec<String>,
    pub inputs: Vec<ConnectionPort>,
    pub outputs: Vec<ConnectionPort>,
    pub resources: Vec<String>,
}

/// The variables of the endpoints of a list of ports.
pub open spec fn ports_vars(v: Seq<ConnectionPort>) -> Set<Seq<char>>
    decreases v.len(),
{
    if v.len() == 0 {
        Set::empty()
    } else {
        ports_vars(v.drop_last()) + super::memory::endpoint_vars(v.last().endpoint)
    }
}

/// The variables of a connection: those of its inputs and outputs.
pub open spec fn connection_vars(c: Connection) -> Set<Seq<char>> {
    ports_vars(c.inputs@) + ports_vars(c.outputs@)
}

fn collect_ports(v: &Vec<ConnectionPort>, out: &mut Vec<String>)
    ensures
        super::index::string_names(final(out)@) == super::index::string_names(old(out)@) + ports_vars(v@),
        super::index::distinct_strings(old(out)@) ==> super::index::distinct_strings(final(out)@),
{
    let mut i: usize = 0;
    proof { assert(super::index::string_names(old(out)@) + ports_vars(v@.take(0)) =~= super::index::string_names(old(out)@)); }
    while i < v.len()
        invariant
            i <= v@.len(),
            super::index::string_names(out@) == super::index::string_names(old(out)@) + ports_vars(v@.take(i as int)),
            super::index::distinct_strings(old(out)@) ==> super::index::distinct_strings(out@),
        decreases v.len() - i,
    {
        proof { assert(v@.take(i + 1).drop_last() =~= v@.take(i as int)); }
        v[i].endpoint.collect_variables(out);
        proof {
            assert(super::index::string_names(old(out)@) + ports_vars(v@.take(i as int)) + super::memory::endpoint_vars(v@[i as int].endpoint)
                =~= super::index::string_names(old(out)@) + ports_vars(v@.take(i + 1)));
        }
        i += 1;
    }
    proof { assert(v@.take(v@.len() as int) =~= v@); }
}

impl Connection {
    pub fn new(domain: &[&str], inputs: Vec<ConnectionPort>, outputs: Vec<ConnectionPort>) -> (r: Connection)
        ensures
            crate::text::texts(r.domain@) == crate::text::str_texts(domain@),
            r.inputs == inputs,
            r.outputs == outputs,
            r.resources@.len() == 0,
    {
        Connection { domain: crate::text::strings_of(domain), inputs, outputs, resources: Vec::new() }
    }

    pub fn with_resources(self, resources: &[&str]) -> (r: Connection)
        ensures
            r.domain == self.domain,
            r.inputs == self.inputs,
            r.outputs == self.outputs,
            crate::text::texts(r.resources@) == crate::text::str_texts(resources@),
    {
        Connection { domain: self.domain, inputs: self.inputs, outputs: self.outputs, resources: crate::text::strings_of(resources) }
    }

    /// The index variables of all endpoints, each once.
    pub fn variables(&self) -> (r: Vec<String>)
        ensures
            super::index::string_names(r@) == connection_vars(*self),
            super::index::distinct_strings(r@),
    {
        let mut out: Vec<String> = Vec::new();
        proof { assert(super::index::string_names(out@) =~= Set::<Seq<char>>::empty()); }
        collect_ports(&self.inputs, &mut out);
        collect_ports(&self.outputs, &mut out);
        proof {
            assert(Set::<Seq<char>>::empty() + ports_vars(self.inputs@) + ports_vars(self.outputs@) =~= connection_vars(*self));
        }
        out
    }
}

/// One resolved selector: a whole axis or one index.
#[derive(Debug, PartialEq, Eq, Structural, Clone, Copy)]
pub enum ResolvedEndpointIndex {
    All,
    Index(u64),
}

/// A memory and the part of it that one processor instance uses.
#[derive(Debug, PartialEq, Eq)]
pub struct MemoryLocation {
    pub memory: String,
    /// One resolved selector per memory axis.
    pub indices: Vec<ResolvedEndpointIndex>,
    pub bank: Option<u64>,
}

/// One processor instance: its index variables and the memory locations of its ports.
#[derive(Debug, PartialEq, Eq)]
pub struct ConnectionInstance {
    /// The value of each domain axis, in domain order.
    pub variables: Vec<(String, u64)>,
    pub inputs: Vec<MemoryLocation>,
    pub outputs: Vec<MemoryLocation>,
}

/// One connection-specific array of a reusable processor definition.
#[derive(Debug, PartialEq, Eq)]
pub struct ProcessorArray {
    pub name: String,
    pub definition: String,
    pub connection: Connection,
    pub axes: Vec<Axis>,
    pub resources: Vec<Resource>,
}

/// One selector per processor axis: all of it, or one index.
#[derive(Debug, PartialEq, Eq, Structural, Clone, Copy)]
pub enum ProcessorSelector {
    All,
    Index(u64),
}

/// Why a selection of processor instances is refused.
#[derive(Debug, PartialEq, Eq)]
pub enum ProcessorSelectionError {
    RankMismatch { expected: usize, actual: usize },
    OutOfBounds { dimension: String, index: u64, size: u64 },
}

impl ProcessorSelectionError {
    /// The message of this error, as `Display` shows it.
    pub fn message(&self) -> (r: String)
        ensures
            r@ == match self {
                ProcessorSelectionError::RankMismatch { expected, actual } => "processor selection has "@
                    + crate::text::decimal(*actual as nat) + " indices; array expects "@ + crate::text::decimal(*expected as nat),
                ProcessorSelectionError::OutOfBounds { dimension, index, size } => "processor selection index "@
                    + crate::text::decimal(*index as nat) + " is out of bounds for dimension '"@ + dimension@ + "' of size "@
                    + crate::text::decimal(*size as nat),
            },
    {
        match self {
            ProcessorSelectionError::RankMismatch { expected, actual } => {
                let mut m = crate::text::owned("processor selection has ");
                crate::text::push_decimal(&mut m, *actual as u64);
                crate::text::push_str(&mut m, " indices; array expects ");
                crate::text::push_decimal(&mut m, *expected as u64);
                m
            },
            ProcessorSelectionError::OutOfBounds { dimension, index, size } => {
                let mut m = crate::text::owned("processor selection index ");
                crate::text::push_decimal(&mut m, *index);
                crate::text::push_str(&mut m, " is out of bounds for dimension '");
                crate::text::push_str(&mut m, dimension.as_str());
                crate::text::push_str(&mut m, "' of size ");
                crate::text::push_decimal(&mut m, *size);
                m
            },
        }
    }
}

/// A resolved zero-, one- or many-instance view into a processor array.
#[derive(Debug, PartialEq, Eq)]
pub struct ProcessorSelection<'a> {
    pub array: &'a ProcessorArray,
    pub selectors: Vec<ProcessorSelector>,
    pub instances: Vec<ConnectionInstance>,
}

/// The value an instance gives the named axis, if any.
pub open spec fn var_value(vars: Seq<(String, u64)>, n: Seq<char>) -> Option<u64>
    decreases vars.len(),
{
    if vars.len() == 0 {
        None
    } else if vars[0].0@ == n {
        Some(vars[0].1)
    } else {
        var_value(vars.drop_first(), n)
    }
}

/// The instance lies in the selection: every `Index` selector names its value.
pub open spec fn selected(axes: Seq<Axis>, selectors: Seq<ProcessorSelector>, vars: Seq<(String, u64)>) -> bool {
    forall|i: int| 0 <= i < axes.len() && i < selectors.len() ==> match #[trigger] selectors[i] {
        ProcessorSelector::All => true,
        ProcessorSelector::Index(x) => var_value(vars, axes[i].name@) == Some(x),
    }
}

/// The first selector out of its axis's bounds.
pub open spec fn first_out_of_bounds(axes: Seq<Axis>, selectors: Seq<ProcessorSelector>, i: int) -> bool {
    0 <= i < axes.len() && i < selectors.len() && (selectors[i] matches ProcessorSelector::Index(x) && x >= axes[i].extent)
        && forall|j: int| 0 <= j < i ==> !(#[trigger] selectors[j] matches ProcessorSelector::Index(x) && x >= axes[j].extent)
}

fn x_var_value(vars: &Vec<(String, u64)>, n: &str) -> (r: Option<u64>)
    ensures
        r == var_value(vars@, n@),
{
    let mut i: usize = 0;
    proof { assert(vars@.skip(0) =~= vars@); }
    while i < vars.len()
        invariant
            i <= vars@.len(),
            var_value(vars@, n@) == var_value(vars@.skip(i as int), n@),
        decreases vars.len() - i,
    {
        proof {
            assert(vars@.skip(i as int)[0] == vars@[i as int]);
            assert(vars@.skip(i as int).drop_first() =~= vars@.skip(i + 1));
        }
        if crate::text::str_eq(vars[i].0.as_str(), n) {
            return Some(vars[i].1);
        }
        i += 1;
    }
    None
}

fn x_selected(axes: &Vec<Axis>, selectors: &Vec<ProcessorSelector>, vars: &Vec<(String, u64)>) -> (r: bool)
    ensures
        r == selected(axes@, selectors@, vars@),
{
    let mut i: usize = 0;
    while i < axes.len() && i < selectors.len()
        invariant
            i <= axes@.len(),
            forall|k: int| 0 <= k < i && k < selectors@.len() ==> match #[trigger] selectors@[k] {
                ProcessorSelector::All => true,
                ProcessorSelector::Index(x) => var_value(vars@, axes@[k].name@) == Some(x),
            },
        decreases axes.len() - i,
    {
        match selectors[i] {
            ProcessorSelector::All => {},
            ProcessorSelector::Index(x) => {
                if x_var_value(vars, axes[i].name.as_str()) != Some(x) {
                    return false;
                }
            },
        }
        i += 1;
    }
    true
}

impl ProcessorArray {
    pub fn name(&self) -> (r: &str)
        ensures
            r@ == self.name@,
    {
        self.name.as_str()
    }

    pub fn definition_name(&self) -> (r: &str)
        ensures
            r@ == self.definition@,
    {
        self.definition.as_str()
    }

    pub fn connection(&self) -> (r: &Connection)
        ensures
            *r == self.connection,
    {
        &self.connection
    }

    pub fn axes(&self) -> (r: &[Axis])
        ensures
            r@ == self.axes@,
    {
        self.axes.as_slice()
    }

    pub fn resources(&self) -> (r: &[Resource])
        ensures
            r@ == self.resources@,
    {
        self.resources.as_slice()
    }

    /// The instances among `instances` that the selectors pick, after checking one
    /// selector per axis, each within its axis.
    pub fn select_from<'a>(&'a self, instances: Vec<ConnectionInstance>, selectors: Vec<ProcessorSelector>) -> (r: Result<ProcessorSelection<'a>, ProcessorSelectionError>)
        ensures
            selectors@.len() != self.axes@.len() ==> r == Err::<ProcessorSelection<'a>, ProcessorSelectionError>(
                ProcessorSelectionError::RankMismatch { expected: self.axes@.len() as usize, actual: selectors@.len() as usize }),
            selectors@.len() == self.axes@.len() ==> match r {
                Ok(sel) => (forall|i: int| !first_out_of_bounds(self.axes@, selectors@, i))
                    && sel.array == self && sel.selectors == selectors
                    && sel.instances@ == instances@.filter(|c: ConnectionInstance| selected(self.axes@, selectors@, c.variables@)),
                Err(ProcessorSelectionError::OutOfBounds { dimension, index, size }) => exists|i: int|
                    first_out_of_bounds(self.axes@, selectors@, i) && dimension@ == self.axes@[i].name@
                        && selectors@[i] == ProcessorSelector::Index(index) && size == self.axes@[i].extent,
                Err(ProcessorSelectionError::RankMismatch { .. }) => false,
            },
    {
        if selectors.len() != self.axes.len() {
            return Err(ProcessorSelectionError::RankMismatch { expected: self.axes.len(), actual: selectors.len() });
        }
        let mut i: usize = 0;
        while i < self.axes.len()
            invariant
                i <= self.axes@.len(),
                selectors@.len() == self.axes@.len(),
                forall|j: int| 0 <= j < i ==> !(#[trigger] selectors@[j] matches ProcessorSelector::Index(x) && x >= self.axes@[j].extent),
            decreases self.axes.len() - i,
        {
            match selectors[i] {
                ProcessorSelector::Index(x) => {
                    if x >= self.axes[i].extent {
                        proof { assert(first_out_of_bounds(self.axes@, selectors@, i as int)); }
                        return Err(ProcessorSelectionError::OutOfBounds {
                            dimension: self.axes[i].name.clone(),
                            index: x,
                            size: self.axes[i].extent,
                        });
                    }
                },
                ProcessorSelector::All => {},
            }
            i += 1;
        }
        proof {
            assert forall|k: int| !first_out_of_bounds(self.axes@, selectors@, k) by {
                if 0 <= k < self.axes@.len() {
                    assert(!(selectors@[k] matches ProcessorSelector::Index(x) && x >= self.axes@[k].extent));
                }
            }
        }
        let ghost all = instances@;
        let mut kept: Vec<ConnectionInstance> = Vec::new();
        let mut rest = instances;
        let mut taken: usize = 0;
        proof { reveal(Seq::filter); assert(all.take(0).filter(|c: ConnectionInstance| selected(self.axes@, selectors@, c.variables@)) =~= kept@); }
        let n = rest.len();
        let mut rest_rev: Vec<ConnectionInstance> = Vec::new();
        while rest.len() > 0
            invariant
                n == all.len(),
                rest@.len() + rest_rev@.len() == n,
                forall|k: int| 0 <= k < rest@.len() ==> #[trigger] rest@[k] == all[k],
                forall|k: int| 0 <= k < rest_rev@.len() ==> #[trigger] rest_rev@[k] == all[n - 1 - k],
            decreases rest@.len(),
        {
            let x = rest.pop().unwrap();
            rest_rev.push(x);
        }
        while rest_rev.len() > 0
            invariant
                n == all.len(),
                taken + rest_rev@.len() == n,
                forall|k: int| 0 <= k < rest_rev@.len() ==> #[trigger] rest_rev@[k] == all[n - 1 - k],
                kept@ == all.take(taken as int).filter(|c: ConnectionInstance| selected(self.axes@, selectors@, c.variables@)),
            decreases rest_rev@.len(),
        {
            let x = rest_rev.pop().unwrap();
            proof {
                reveal(Seq::filter);
                assert(x == all[taken as int]);
                assert(all.take(taken + 1).drop_last() =~= all.take(taken as int));
                assert(all.take(taken + 1).last() == x);
            }
            if x_selected(&self.axes, &selectors, &x.variables) {
                kept.push(x);
            }
            taken += 1;
        }
        proof { assert(all.take(n as int) =~= all); }
        Ok(ProcessorSelection { array: self, selectors, instances: kept })
    }
}

impl<'a> ProcessorSelection<'a> {
    pub fn array(&self) -> (r: &'a ProcessorArray)
        ensures
            r == self.array,
    {
        self.array
    }

    pub fn selectors(&self) -> (r: &[ProcessorSelector])
        ensures
            r@ == self.selectors@,
    {
        self.selectors.as_slice()
    }

    /// The axes that an `All` selector leaves free, in order.
    pub fn free_domain(&self) -> (r: Vec<&'a Axis>)
        ensures
            r@.len() <= self.array.axes@.len(),
            forall|k: int| 0 <= k < r@.len() ==> self.array.axes@.contains(*r@[k]),
            r@.len() == free_count(self.array.axes@, self.selectors@),
    {
        let mut out: Vec<&'a Axis> = Vec::new();
        let mut i: usize = 0;
        let arr: &'a ProcessorArray = self.array;
        proof { assert(free_count(arr.axes@.take(0), self.selectors@) == 0); }
        while i < arr.axes.len() && i < self.selectors.len()
            invariant
                i <= arr.axes@.len(),
                arr == self.array,
                out@.len() <= i,
                out@.len() == free_count(arr.axes@.take(i as int), self.selectors@),
                forall|k: int| 0 <= k < out@.len() ==> arr.axes@.contains(*out@[k]),
            decreases arr.axes.len() - i,
        {
            proof { assert(arr.axes@.take(i + 1).drop_last() =~= arr.axes@.take(i as int)); }
            if self.selectors[i] == ProcessorSelector::All {
                out.push(&arr.axes[i]);
                proof { assert(arr.axes@[i as int] == *out@[out@.len() - 1]); }
            }
            i += 1;
        }
        proof {
            if i < arr.axes@.len() {
                lemma_free_count_past(arr.axes@, self.selectors@, i as int);
            } else {
                assert(arr.axes@.take(i as int) =~= arr.axes@);
            }
        }
        out
    }

    pub fn instances(&self) -> (r: &[ConnectionInstance])
        ensures
            r@ == self.instances@,
    {
        self.instances.as_slice()
    }

    pub fn len(&self) -> (r: usize)
        ensures
            r == self.instances@.len(),
    {
        self.instances.len()
    }

    pub fn is_empty(&self) -> (r: bool)
        ensures
            r == (self.instances@.len() == 0),
    {
        self.instances.len() == 0
    }
}

/// The number of axes that an `All` selector leaves free.
pub open spec fn free_count(axes: Seq<Axis>, selectors: Seq<ProcessorSelector>) -> nat
    decreases axes.len(),
{
    if axes.len() == 0 {
        0
    } else {
        let i = axes.len() - 1;
        free_count(axes.drop_last(), selectors) + if i < selectors.len() && selectors[i] == ProcessorSelector::All { 1nat } else { 0nat }
    }
}

proof fn lemma_free_count_past(axes: Seq<Axis>, selectors: Seq<ProcessorSelector>, i: int)
    requires
        0 <= i <= axes.len(),
        i >= selectors.len(),
    ensures
        free_count(axes, selectors) == free_count(axes.take(i), selectors),
    decreases axes.len() - i,
{
    if i < axes.len() {
        assert(axes.take(i + 1).drop_last() =~= axes.take(i));
        lemma_free_count_past(axes, selectors, i + 1);
    } else {
        assert(axes.take(i) =~= axes);
    }
}

// ---------------------------------------------------------------------------
// Binding function operands to connected memories

/// An operand as its name and the technology it requires, if any.
pub open spec fn operand_model(o: (String, Option<String>)) -> (Seq<char>, Option<Seq<char>>) {
    (o.0@, match o.1 { Some(t) => Some(t@), None => None })
}

/// A connected memory as its symbol and the name of its technology, if known.
pub open spec fn candidate_model(c: (String, Option<super::memory::MemoryTechnology>)) -> (Seq<char>, Option<Seq<char>>) {
    (c.0@, match c.1 { Some(t) => Some(t.name@), None => None })
}

/// The indices of the candidates whose technology is `t`, in order.
pub open spec fn tech_matches(cands: Seq<(Seq<char>, Option<Seq<char>>)>, t: Seq<char>) -> Seq<int>
    decreases cands.len(),
{
    if cands.len() == 0 {
        Seq::empty()
    } else if cands.last().1 == Some(t) {
        tech_matches(cands.drop_last(), t).push(cands.len() - 1)
    } else {
        tech_matches(cands.drop_last(), t)
    }
}

pub proof fn lemma_tech_matches(cands: Seq<(Seq<char>, Option<Seq<char>>)>, t: Seq<char>)
    ensures
        forall|k: int| 0 <= k < tech_matches(cands, t).len() ==> 0 <= #[trigger] tech_matches(cands, t)[k] < cands.len(),
    decreases cands.len(),
{
    if cands.len() > 0 {
        lemma_tech_matches(cands.drop_last(), t);
        let p = tech_matches(cands.drop_last(), t);
        assert forall|k: int| 0 <= k < tech_matches(cands, t).len() implies 0 <= #[trigger] tech_matches(cands, t)[k] < cands.len() by {
            if k < p.len() {
                assert(tech_matches(cands, t)[k] == p[k]);
            }
        }
    }
}

/// `function 'f': input operand '%a' ` — how a binding error starts.
pub open spec fn operand_prefix(function: Seq<char>, role: Seq<char>, name: Seq<char>) -> Seq<char> {
    "function '"@ + function + "': "@ + role + " operand '%"@ + name + "' "@
}

/// The memory bound to operand `i`: the one candidate of the technology it requires;
/// without a requirement, the only candidate, or the candidate at the same position when
/// there are as many candidates as operands.
pub open spec fn memory_for(
    function: Seq<char>,
    role: Seq<char>,
    ops: Seq<(Seq<char>, Option<Seq<char>>)>,
    cands: Seq<(Seq<char>, Option<Seq<char>>)>,
    i: int,
) -> Result<int, Seq<char>> {
    let name = ops[i].0;
    match ops[i].1 {
        Some(t) => {
            let ms = tech_matches(cands, t);
            if ms.len() == 1 {
                Ok(ms[0])
            } else if ms.len() == 0 {
                Err(operand_prefix(function, role, name) + "requires memory technology '"@ + t
                    + "', but no connected memory provides it"@)
            } else {
                Err(operand_prefix(function, role, name) + "requires memory technology '"@ + t
                    + "', but multiple connected memories match it"@)
            }
        },
        None => if cands.len() == 1 {
            Ok(0)
        } else if cands.len() == ops.len() {
            Ok(i)
        } else if cands.len() == 0 {
            Err(operand_prefix(function, role, name) + "has no connected memory"@)
        } else {
            Err(operand_prefix(function, role, name) + "cannot be matched to one of several connected memories"@)
        },
    }
}

/// The memories of the first `n` operands; the first operand that cannot be bound
/// decides the error.
pub open spec fn memory_bindings(
    function: Seq<char>,
    role: Seq<char>,
    ops: Seq<(Seq<char>, Option<Seq<char>>)>,
    cands: Seq<(Seq<char>, Option<Seq<char>>)>,
    n: int,
) -> Result<Seq<int>, Seq<char>>
    decreases n,
{
    if n <= 0 {
        Ok(Seq::empty())
    } else {
        match memory_bindings(function, role, ops, cands, n - 1) {
            Err(e) => Err(e),
            Ok(v) => match memory_for(function, role, ops, cands, n - 1) {
                Err(e) => Err(e),
                Ok(j) => Ok(v.push(j)),
            },
        }
    }
}

fn push_prefix(s: &mut String, function: &str, role: &str, name: &str)
    ensures
        final(s)@ == old(s)@ + operand_prefix(function@, role@, name@),
{
    crate::text::push_str(s, "function '");
    crate::text::push_str(s, function);
    crate::text::push_str(s, "': ");
    crate::text::push_str(s, role);
    crate::text::push_str(s, " operand '%");
    crate::text::push_str(s, name);
    crate::text::push_str(s, "' ");
    proof { assert(s@ =~= old(s)@ + operand_prefix(function@, role@, name@)); }
}

/// Binds each operand of a function to one of the memories connected on its side
/// (`role` is `input` or `output`): the index of its memory among the candidates.
pub fn resolve_operand_memory_bindings(
    function: &str,
    role: &str,
    operands: &[(String, Option<String>)],
    candidates: &[(String, Option<super::memory::MemoryTechnology>)],
) -> (r: Result<Vec<usize>, String>)
    ensures
        match r {
            Ok(v) => memory_bindings(
                function@, role@, operands@.map_values(|o: (String, Option<String>)| operand_model(o)),
                candidates@.map_values(|c: (String, Option<super::memory::MemoryTechnology>)| candidate_model(c)),
                operands@.len() as int,
            ) == Ok::<Seq<int>, Seq<char>>(v@.map_values(|j: usize| j as int))
                && forall|k: int| 0 <= k < v@.len() ==> #[trigger] v@[k] < candidates@.len(),
            Err(e) => memory_bindings(
                function@, role@, operands@.map_values(|o: (String, Option<String>)| operand_model(o)),
                candidates@.map_values(|c: (String, Option<super::memory::MemoryTechnology>)| candidate_model(c)),
                operands@.len() as int,
            ) == Err::<Seq<int>, Seq<char>>(e@),
        },
{
    let ghost ops = operands@.map_values(|o: (String, Option<String>)| operand_model(o));
    let ghost cands = candidates@.map_values(|c: (String, Option<super::memory::MemoryTechnology>)| candidate_model(c));
    let mut out: Vec<usize> = Vec::new();
    let mut i: usize = 0;
    proof { assert(out@.map_values(|j: usize| j as int) =~= Seq::<int>::empty()); }
    while i < operands.len()
        invariant
            i <= operands@.len(),
            ops == operands@.map_values(|o: (String, Option<String>)| operand_model(o)),
            cands == candidates@.map_values(|c: (String, Option<super::memory::MemoryTechnology>)| candidate_model(c)),
            memory_bindings(function@, role@, ops, cands, i as int) == Ok::<Seq<int>, Seq<char>>(out@.map_values(|j: usize| j as int)),
            forall|k: int| 0 <= k < out@.len() ==> #[trigger] out@[k] < candidates@.len(),
        decreases operands.len() - i,
    {
        let (name, tech) = (&operands[i].0, &operands[i].1);
        proof { assert(ops[i as int] == operand_model(operands@[i as int])); }
        let ghost prev = out@;
        let chosen: usize = match tech {
            Some(t) => {
                let mut found: usize = 0;
                let mut count: usize = 0;
                let mut j: usize = 0;
                proof { assert(cands.take(0) =~= Seq::<(Seq<char>, Option<Seq<char>>)>::empty()); }
                while j < candidates.len()
                    invariant
                        j <= candidates@.len(),
                        cands == candidates@.map_values(|c: (String, Option<super::memory::MemoryTechnology>)| candidate_model(c)),
                        count == tech_matches(cands.take(j as int), t@).len() || count >= 2,
                        count <= 2,
                        count >= 2 ==> tech_matches(cands.take(j as int), t@).len() >= 2,
                        count == 1 ==> tech_matches(cands.take(j as int), t@)[0] == found,
                        count >= 1 ==> found < candidates@.len(),
                    decreases candidates.len() - j,
                {
                    proof {
                        assert(cands.take(j + 1).drop_last() =~= cands.take(j as int));
                        assert(cands.take(j + 1).last() == candidate_model(candidates@[j as int]));
                    }
                    let hit = match &candidates[j].1 {
                        Some(m) => crate::text::str_eq(m.name.as_str(), t.as_str()),
                        None => false,
                    };
                    if hit {
                        if count == 0 {
                            found = j;
                        }
                        if count < 2 {
                            count += 1;
                        }
                    }
                    j += 1;
                }
                proof { assert(cands.take(candidates@.len() as int) =~= cands); }
                if count == 1 {
                    found
                } else {
                    let mut m = String::new();
                    push_prefix(&mut m, function, role, name.as_str());
                    crate::text::push_str(&mut m, "requires memory technology '");
                    crate::text::push_str(&mut m, t.as_str());
                    if count == 0 {
                        crate::text::push_str(&mut m, "', but no connected memory provides it");
                    } else {
                        crate::text::push_str(&mut m, "', but multiple connected memories match it");
                    }
                    proof {
                        assert(memory_bindings(function@, role@, ops, cands, i + 1) == Err::<Seq<int>, Seq<char>>(m@));
                        lemma_bindings_err(function@, role@, ops, cands, i + 1, operands@.len() as int);
                    }
                    return Err(m);
                }
            },
            None => {
                let nc = candidates.len();
                if nc == 1 {
                    0
                } else if nc == operands.len() {
                    i
                } else {
                    let mut m = String::new();
                    push_prefix(&mut m, function, role, name.as_str());
                    if nc == 0 {
                        crate::text::push_str(&mut m, "has no connected memory");
                    } else {
                        crate::text::push_str(&mut m, "cannot be matched to one of several connected memories");
                    }
                    proof {
                        assert(memory_bindings(function@, role@, ops, cands, i + 1) == Err::<Seq<int>, Seq<char>>(m@));
                        lemma_bindings_err(function@, role@, ops, cands, i + 1, operands@.len() as int);
                    }
                    return Err(m);
                }
            },
        };
        out.push(chosen);
        proof {
            assert(out@.map_values(|j: usize| j as int) =~= prev.map_values(|j: usize| j as int).push(chosen as int));
        }
        i += 1;
    }
    Ok(out)
}

pub proof fn lemma_bindings_err(
    function: Seq<char>,
    role: Seq<char>,
    ops: Seq<(Seq<char>, Option<Seq<char>>)>,
    cands: Seq<(Seq<char>, Option<Seq<char>>)>,
    j: int,
    n: int,
)
    requires
        0 <= j <= n,
        memory_bindings(function, role, ops, cands, j) is Err,
    ensures
        memory_bindings(function, role, ops, cands, n) == memory_bindings(function, role, ops, cands, j),
    decreases n,
{
    if n > j {
        lemma_bindings_err(function, role, ops, cands, j, n - 1);
    }
}

} // verus!
