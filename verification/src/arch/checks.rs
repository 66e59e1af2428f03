//! The consistency checks of an architecture: unique names, processor connections and
//! their ports, the domains of connections, and implicit pointwise endpoints.
use vstd::prelude::*;

use super::architecture::{ArchErrorModel, ArchitectureError};
use super::axis::Axis;
use super::index::{AffineExpression, AffineModel};
use super::memory::{
    selection_ok, static_bank_problem, validate_selection, validate_static_bank, EndpointIndex, MemoryArray,
    MemoryDefinition, MemoryEndpoint, MemoryTechnology,
};
use super::processor::{connection_vars, Connection, ConnectionPort, ProcessorDefinition};
use super::resolve::{
    definition_index, definition_named, find_definition, find_memory, first_index, lemma_first_index,
    lemma_first_index_is_first, memory_index, memory_named,
};
use crate::text::{all_ident, is_alpha, str_texts};

verus! {

// ---------------------------------------------------------------------------
// Unique names

/// The first name that repeats an earlier one, in order.
pub open spec fn first_dup(s: Seq<Seq<char>>) -> Option<Seq<char>>
    decreases s.len(),
{
    if s.len() == 0 {
        None
    } else {
        match first_dup(s.drop_last()) {
            Some(n) => Some(n),
            None => if s.drop_last().contains(s.last()) { Some(s.last()) } else { None },
        }
    }
}

/// No two names are equal.
pub open spec fn distinct_names(s: Seq<Seq<char>>) -> bool {
    forall|i: int, j: int| 0 <= i < j < s.len() ==> s[i] != s[j]
}

pub proof fn lemma_first_dup_distinct(s: Seq<Seq<char>>)
    ensures
        first_dup(s) is None <==> distinct_names(s),
    decreases s.len(),
{
    if s.len() > 0 {
        let d = s.drop_last();
        lemma_first_dup_distinct(d);
        if distinct_names(s) {
            assert(distinct_names(d)) by {
                assert forall|i: int, j: int| 0 <= i < j < d.len() implies d[i] != d[j] by {
                    assert(d[i] == s[i] && d[j] == s[j]);
                }
            }
            if d.contains(s.last()) {
                let k = choose|k: int| 0 <= k < d.len() && d[k] == s.last();
                assert(s[k] == s[s.len() - 1]);
            }
        }
        if first_dup(s) is None {
            assert forall|i: int, j: int| 0 <= i < j < s.len() implies s[i] != s[j] by {
                if j < s.len() - 1 {
                    assert(d[i] == s[i] && d[j] == s[j]);
                } else {
                    assert(d[i] == s[i]);
                    if s[i] == s[j] {
                        assert(d.contains(s.last()));
                    }
                }
            }
        }
    }
}

proof fn lemma_first_dup_stop(s: Seq<Seq<char>>, i: int)
    requires
        0 <= i <= s.len(),
        first_dup(s.take(i)) is Some,
    ensures
        first_dup(s) == first_dup(s.take(i)),
    decreases s.len() - i,
{
    if i < s.len() {
        let d = s.drop_last();
        assert(d.take(i) =~= s.take(i));
        lemma_first_dup_stop(d, i);
    } else {
        assert(s.take(i) =~= s);
    }
}

/// Refuses the first name that repeats an earlier one, as a duplicate `kind`.
pub fn validate_unique(names: &Vec<&str>, kind: &str) -> (r: Result<(), ArchitectureError>)
    ensures
        match r {
            Ok(()) => first_dup(str_texts(names@)) is None,
            Err(e) => first_dup(str_texts(names@)) matches Some(n) && e@ == ArchErrorModel::DuplicateName(kind@, n),
        },
{
    let ghost s = str_texts(names@);
    let mut j: usize = 0;
    proof { assert(s.take(0) =~= Seq::<Seq<char>>::empty()); }
    while j < names.len()
        invariant
            j <= names@.len() == s.len(),
            s == str_texts(names@),
            first_dup(s.take(j as int)) is None,
        decreases names.len() - j,
    {
        proof {
            assert(s.take(j + 1).drop_last() =~= s.take(j as int));
            assert(s.take(j + 1).last() == s[j as int]);
        }
        let mut k: usize = 0;
        while k < j
            invariant
                k <= j < names@.len() == s.len(),
                s == str_texts(names@),
                forall|m: int| 0 <= m < k ==> s[m] != s[j as int],
                first_dup(s.take(j as int)) is None,
                s.take(j + 1).drop_last() == s.take(j as int),
                s.take(j + 1).last() == s[j as int],
            decreases j - k,
        {
            if crate::text::str_eq(names[k], names[j]) {
                proof {
                    assert(s.take(j as int)[k as int] == s[j as int]);
                    assert(s.take(j as int).contains(s[j as int]));
                    lemma_first_dup_stop(s, j + 1);
                }
                return Err(ArchitectureError::DuplicateName {
                    kind: crate::text::owned(kind),
                    name: crate::text::owned(names[j]),
                });
            }
            k += 1;
        }
        proof {
            if s.take(j as int).contains(s[j as int]) {
                let m = choose|m: int| 0 <= m < j && s.take(j as int)[m] == s[j as int];
                assert(s[m] == s[j as int]);
            }
        }
        j += 1;
    }
    proof { assert(s.take(names@.len() as int) =~= s); }
    Ok(())
}

// ---------------------------------------------------------------------------
// Connection ports

/// A port name: an ASCII letter or underscore, then letters, digits and underscores.
pub open spec fn port_name_ok(s: Seq<char>) -> bool {
    s.len() > 0 && (is_alpha(s[0]) || s[0] == '_') && all_ident(s, 1, s.len() as int)
}

pub fn valid_port_name(name: &str) -> (r: bool)
    ensures
        r == port_name_ok(name@),
{
    let cs = crate::text::chars_of(name);
    if cs.len() == 0 {
        return false;
    }
    (crate::text::alpha(cs[0]) || cs[0] == '_') && crate::text::all_ident_in(cs.as_slice(), 1, cs.len())
}

/// The names of a list of ports.
pub open spec fn port_names(ports: Seq<ConnectionPort>) -> Seq<Seq<char>> {
    ports.map_values(|p: ConnectionPort| p.name@)
}

fn port_name_list(ports: &Vec<ConnectionPort>) -> (r: Vec<&str>)
    ensures
        str_texts(r@) == port_names(ports@),
{
    let mut out: Vec<&str> = Vec::new();
    let mut i: usize = 0;
    while i < ports.len()
        invariant
            i <= ports@.len(),
            out@.len() == i,
            forall|k: int| 0 <= k < i ==> (#[trigger] out@[k])@ == ports@[k].name@,
        decreases ports.len() - i,
    {
        out.push(ports[i].name.as_str());
        i += 1;
    }
    proof { assert(str_texts(out@) =~= port_names(ports@)); }
    out
}

/// The position of the first port with the given name, or the length of the list.
fn position_of_port(ports: &Vec<ConnectionPort>, name: &str) -> (r: usize)
    ensures
        r <= ports@.len(),
        forall|j: int| 0 <= j < r ==> ports@[j].name@ != name@,
        r < ports@.len() ==> ports@[r as int].name@ == name@,
{
    let mut k: usize = 0;
    while k < ports.len()
        invariant
            k <= ports@.len(),
            forall|j: int| 0 <= j < k ==> ports@[j].name@ != name@,
        decreases ports.len() - k,
    {
        if crate::text::str_eq(ports[k].name.as_str(), name) {
            return k;
        }
        k += 1;
    }
    k
}

/// Model of a selector: its expression, or `None` for a whole axis.
pub open spec fn selector_model(i: EndpointIndex) -> Option<AffineModel> {
    match i {
        EndpointIndex::All => None,
        EndpointIndex::Expression(e) => Some(e@),
    }
}

/// Model of an endpoint: its memory, selectors and bank.
pub open spec fn endpoint_model(e: MemoryEndpoint) -> (Seq<char>, Seq<Option<AffineModel>>, Option<AffineModel>) {
    (
        e.memory@,
        e.indices@.map_values(|i: EndpointIndex| selector_model(i)),
        match e.bank {
            Some(b) => Some(b@),
            None => None,
        },
    )
}

/// Whether two expressions are the same.
pub fn affine_eq(a: &AffineExpression, b: &AffineExpression) -> (r: bool)
    ensures
        r == (a@ == b@),
    decreases a,
{
    match (a, b) {
        (AffineExpression::Constant(x), AffineExpression::Constant(y)) => *x == *y,
        (AffineExpression::Variable(x), AffineExpression::Variable(y)) => crate::text::str_eq(x.as_str(), y.as_str()),
        (AffineExpression::Add(a1, a2), AffineExpression::Add(b1, b2)) => affine_eq(a1, b1) && affine_eq(a2, b2),
        (AffineExpression::Sub(a1, a2), AffineExpression::Sub(b1, b2)) => affine_eq(a1, b1) && affine_eq(a2, b2),
        (AffineExpression::Mul(c, a1), AffineExpression::Mul(d, b1)) => *c == *d && affine_eq(a1, b1),
        (AffineExpression::FloorDiv(a1, c), AffineExpression::FloorDiv(b1, d)) => *c == *d && affine_eq(a1, b1),
        (AffineExpression::CeilDiv(a1, c), AffineExpression::CeilDiv(b1, d)) => *c == *d && affine_eq(a1, b1),
        (AffineExpression::Mod(a1, c), AffineExpression::Mod(b1, d)) => *c == *d && affine_eq(a1, b1),
        _ => false,
    }
}

/// Whether two endpoints select the same thing.
pub fn endpoint_eq(a: &MemoryEndpoint, b: &MemoryEndpoint) -> (r: bool)
    ensures
        r == (endpoint_model(*a) == endpoint_model(*b)),
{
    let ghost ma = a.indices@.map_values(|i: EndpointIndex| selector_model(i));
    let ghost mb = b.indices@.map_values(|i: EndpointIndex| selector_model(i));
    if !crate::text::str_eq(a.memory.as_str(), b.memory.as_str()) {
        return false;
    }
    if a.indices.len() != b.indices.len() {
        proof { assert(ma.len() != mb.len()); }
        return false;
    }
    let mut i: usize = 0;
    while i < a.indices.len()
        invariant
            i <= a.indices@.len() == b.indices@.len(),
            ma == a.indices@.map_values(|i: EndpointIndex| selector_model(i)),
            mb == b.indices@.map_values(|i: EndpointIndex| selector_model(i)),
            forall|k: int| 0 <= k < i ==> ma[k] == mb[k],
        decreases a.indices.len() - i,
    {
        let same = match (&a.indices[i], &b.indices[i]) {
            (EndpointIndex::All, EndpointIndex::All) => true,
            (EndpointIndex::Expression(x), EndpointIndex::Expression(y)) => affine_eq(x, y),
            _ => false,
        };
        if !same {
            proof { assert(ma[i as int] != mb[i as int]); }
            return false;
        }
        i += 1;
    }
    proof { assert(ma =~= mb); }
    match (&a.bank, &b.bank) {
        (None, None) => true,
        (Some(x), Some(y)) => affine_eq(x, y),
        _ => false,
    }
}

/// The port's endpoint names a placed memory with a known definition, and selects it
/// validly.
pub open spec fn port_ok(p: ConnectionPort, mems: Seq<MemoryArray>, defs: Seq<MemoryDefinition>) -> bool {
    let mi = memory_index(mems, p.endpoint.memory@);
    &&& port_name_ok(p.name@)
    &&& mi >= 0
    &&& definition_index(defs, mems[mi].definition@) >= 0
    &&& selection_ok(p.endpoint, mems[mi])
    &&& static_bank_problem(p.endpoint, defs[definition_index(defs, mems[mi].definition@)]) is None
}

/// What `validate_connection` accepts: unique port names on each side, a port used on both
/// sides with one endpoint, and valid ports.
pub open spec fn connection_ok(c: Connection, mems: Seq<MemoryArray>, defs: Seq<MemoryDefinition>) -> bool {
    &&& distinct_names(port_names(c.inputs@))
    &&& distinct_names(port_names(c.outputs@))
    &&& forall|i: int, k: int| 0 <= i < c.inputs@.len() && 0 <= k < c.outputs@.len()
        && #[trigger] c.inputs@[i].name@ == #[trigger] c.outputs@[k].name@
        ==> endpoint_model(c.outputs@[k].endpoint) == endpoint_model(c.inputs@[i].endpoint)
    &&& forall|i: int| 0 <= i < c.inputs@.len() ==> port_ok(#[trigger] c.inputs@[i], mems, defs)
    &&& forall|i: int| 0 <= i < c.outputs@.len() ==> port_ok(#[trigger] c.outputs@[i], mems, defs)
}

fn check_ports(ports: &Vec<ConnectionPort>, memories: &[MemoryArray], definitions: &[MemoryDefinition]) -> (r: Result<(), ArchitectureError>)
    ensures
        r is Ok <==> forall|i: int| 0 <= i < ports@.len() ==> port_ok(#[trigger] ports@[i], memories@, definitions@),
{
    let mut i: usize = 0;
    while i < ports.len()
        invariant
            i <= ports@.len(),
            forall|k: int| 0 <= k < i ==> port_ok(#[trigger] ports@[k], memories@, definitions@),
        decreases ports.len() - i,
    {
        let port = &ports[i];
        if !valid_port_name(port.name.as_str()) {
            let mut m = crate::text::owned("invalid processor port name '");
            crate::text::push_str(&mut m, port.name.as_str());
            crate::text::push_str(&mut m, "'");
            return Err(ArchitectureError::Invalid(m));
        }
        let endpoint = &port.endpoint;
        proof { lemma_first_index_is_first(memories@, memory_named(endpoint.memory@)); }
        let mi = match find_memory(memories, endpoint.memory.as_str()) {
            Some(mi) => mi,
            None => {
                let mut m = crate::text::owned("connection refers to unknown placed memory '");
                crate::text::push_str(&mut m, endpoint.memory.as_str());
                crate::text::push_str(&mut m, "'");
                return Err(ArchitectureError::Invalid(m));
            },
        };
        let memory = &memories[mi];
        proof { lemma_first_index_is_first(definitions@, definition_named(memory.definition@)); }
        let di = match find_definition(definitions, memory.definition.as_str()) {
            Some(di) => di,
            None => {
                let mut m = crate::text::owned("placed memory '");
                crate::text::push_str(&mut m, memory.name.as_str());
                crate::text::push_str(&mut m, "' has unknown definition '");
                crate::text::push_str(&mut m, memory.definition.as_str());
                crate::text::push_str(&mut m, "'");
                return Err(ArchitectureError::Invalid(m));
            },
        };
        if let Err(m) = validate_selection(endpoint, memory) {
            return Err(ArchitectureError::Invalid(m));
        }
        if let Err(m) = validate_static_bank(endpoint, &definitions[di]) {
            return Err(ArchitectureError::Invalid(m));
        }
        i += 1;
    }
    Ok(())
}

/// Checks a processor connection against the placed memories: unique port names on each
/// side, one endpoint for a port used on both sides, valid port names, known memories and
/// definitions, and valid selections and banks.
pub fn validate_connection(connection: &Connection, memories: &[MemoryArray], definitions: &[MemoryDefinition]) -> (r: Result<(), ArchitectureError>)
    ensures
        r is Ok <==> connection_ok(*connection, memories@, definitions@),
        first_dup(port_names(connection.inputs@)) matches Some(n)
            ==> r matches Err(e) && e@ == ArchErrorModel::DuplicateName("input port"@, n),
        first_dup(port_names(connection.inputs@)) is None ==> (first_dup(port_names(connection.outputs@)) matches Some(n)
            ==> r matches Err(e) && e@ == ArchErrorModel::DuplicateName("output port"@, n)),
{
    let ins = port_name_list(&connection.inputs);
    let outs = port_name_list(&connection.outputs);
    proof {
        lemma_first_dup_distinct(port_names(connection.inputs@));
        lemma_first_dup_distinct(port_names(connection.outputs@));
    }
    validate_unique(&ins, "input port")?;
    validate_unique(&outs, "output port")?;
    proof {
        assert(first_dup(port_names(connection.inputs@)) is None);
        assert(first_dup(port_names(connection.outputs@)) is None);
    }
    validate_connection_rest(connection, memories, definitions)
}

fn validate_connection_rest(connection: &Connection, memories: &[MemoryArray], definitions: &[MemoryDefinition]) -> (r: Result<(), ArchitectureError>)
    requires
        distinct_names(port_names(connection.inputs@)),
        distinct_names(port_names(connection.outputs@)),
    ensures
        r is Ok <==> connection_ok(*connection, memories@, definitions@),
{
    let ghost outputs = connection.outputs@;
    let mut i: usize = 0;
    while i < connection.inputs.len()
        invariant
            i <= connection.inputs@.len(),
            outputs == connection.outputs@,
            distinct_names(port_names(outputs)),
            forall|a: int, k: int| 0 <= a < i && 0 <= k < outputs.len()
                && #[trigger] connection.inputs@[a].name@ == #[trigger] outputs[k].name@
                ==> endpoint_model(outputs[k].endpoint) == endpoint_model(connection.inputs@[a].endpoint),
        decreases connection.inputs.len() - i,
    {
        let input = &connection.inputs[i];
        let k = position_of_port(&connection.outputs, input.name.as_str());
        if k < connection.outputs.len() {
            if !endpoint_eq(&connection.outputs[k].endpoint, &input.endpoint) {
                proof {
                    assert(connection.inputs@[i as int].name@ == outputs[k as int].name@);
                    assert(!connection_ok(*connection, memories@, definitions@));
                }
                let mut m = crate::text::owned("processor port '");
                crate::text::push_str(&mut m, input.name.as_str());
                crate::text::push_str(&mut m, "' is used as both input and output with different memory endpoints");
                return Err(ArchitectureError::Invalid(m));
            }
            proof {
                assert forall|j: int| 0 <= j < outputs.len() && outputs[j].name@ == connection.inputs@[i as int].name@
                    implies j == k by {
                    if j != k {
                        assert(port_names(outputs)[j] == port_names(outputs)[k as int]);
                    }
                }
            }
        }
        i += 1;
    }
    check_ports(&connection.inputs, memories, definitions)?;
    check_ports(&connection.outputs, memories, definitions)?;
    Ok(())
}

/// A network interface endpoint names a placed memory and selects it validly.
pub open spec fn endpoint_reference_ok(e: MemoryEndpoint, mems: Seq<MemoryArray>, defs: Seq<MemoryDefinition>) -> bool {
    let mi = memory_index(mems, e.memory@);
    &&& mi >= 0
    &&& definition_index(defs, mems[mi].definition@) >= 0
    &&& selection_ok(e, mems[mi])
    &&& static_bank_problem(e, defs[definition_index(defs, mems[mi].definition@)]) is None
}

/// Checks that an endpoint names a placed memory and selects it validly.
pub fn validate_endpoint_reference(endpoint: &MemoryEndpoint, memories: &[MemoryArray], definitions: &[MemoryDefinition]) -> (r: Result<(), ArchitectureError>)
    requires
        forall|i: int| 0 <= i < memories@.len() ==> definition_index(definitions@, #[trigger] memories@[i].definition@) >= 0,
    ensures
        r is Ok <==> endpoint_reference_ok(*endpoint, memories@, definitions@),
{
    proof { lemma_first_index_is_first(memories@, memory_named(endpoint.memory@)); }
    let mi = match find_memory(memories, endpoint.memory.as_str()) {
        Some(mi) => mi,
        None => {
            let mut m = crate::text::owned("network interface refers to unknown placed memory '");
            crate::text::push_str(&mut m, endpoint.memory.as_str());
            crate::text::push_str(&mut m, "'");
            return Err(ArchitectureError::Invalid(m));
        },
    };
    let memory = &memories[mi];
    proof { lemma_first_index_is_first(definitions@, definition_named(memory.definition@)); }
    let di = find_definition(definitions, memory.definition.as_str()).unwrap();
    if let Err(m) = validate_selection(endpoint, memory) {
        return Err(ArchitectureError::Invalid(m));
    }
    if let Err(m) = validate_static_bank(endpoint, &definitions[di]) {
        return Err(ArchitectureError::Invalid(m));
    }
    Ok(())
}

// ---------------------------------------------------------------------------
// Connection domains

/// Whether an axis is named `n`.
pub open spec fn axis_named(n: Seq<char>) -> spec_fn(Axis) -> bool {
    |a: Axis| a.name@ == n
}

/// Index of the first axis named `n`, or -1.
pub open spec fn axis_index(axes: Seq<Axis>, n: Seq<char>) -> int {
    first_index(axes, axis_named(n))
}

/// The position of the first axis with the given name.
pub fn find_axis(axes: &[Axis], name: &str) -> (r: Option<usize>)
    ensures
        match r {
            Some(i) => i as int == axis_index(axes@, name@),
            None => axis_index(axes@, name@) == -1,
        },
{
    let ghost p = axis_named(name@);
    let mut i: usize = 0;
    while i < axes.len()
        invariant
            i <= axes@.len(),
            p == axis_named(name@),
            forall|j: int| 0 <= j < i ==> !p(#[trigger] axes@[j]),
        decreases axes.len() - i,
    {
        if crate::text::str_eq(axes[i].name.as_str(), name) {
            proof { lemma_first_index(axes@, p, i as int); }
            return Some(i);
        }
        i += 1;
    }
    proof { lemma_first_index(axes@, p, i as int); }
    None
}

/// A connection domain names distinct architecture axes and holds every index variable.
pub open spec fn domain_ok(c: Connection, dims: Seq<Axis>) -> bool {
    &&& distinct_names(crate::text::texts(c.domain@))
    &&& connection_vars(c).subset_of(super::index::string_names(c.domain@))
    &&& forall|k: int| 0 <= k < c.domain@.len() ==> axis_index(dims, #[trigger] c.domain@[k]@) >= 0
}

/// The architecture axes of a connection domain, in domain order.
pub open spec fn resolved_domain(c: Connection, dims: Seq<Axis>) -> Seq<Axis> {
    c.domain@.map_values(|n: String| dims[axis_index(dims, n@)])
}

/// The architecture axes that a connection's domain names, in its order.
pub fn resolve_domain(connection: &Connection, dimensions: &[Axis]) -> (r: Result<Vec<Axis>, ArchitectureError>)
    ensures
        match r {
            Ok(v) => domain_ok(*connection, dimensions@) && v@ == resolved_domain(*connection, dimensions@),
            Err(e) => !domain_ok(*connection, dimensions@)
                && (!distinct_names(crate::text::texts(connection.domain@))
                    ==> e@ == ArchErrorModel::Invalid("processor connection domain contains duplicate axes"@)),
        },
{
    let mut names: Vec<&str> = Vec::new();
    let mut i: usize = 0;
    while i < connection.domain.len()
        invariant
            i <= connection.domain@.len(),
            names@.len() == i,
            forall|k: int| 0 <= k < i ==> (#[trigger] names@[k])@ == connection.domain@[k]@,
        decreases connection.domain.len() - i,
    {
        names.push(connection.domain[i].as_str());
        i += 1;
    }
    proof {
        assert(str_texts(names@) =~= crate::text::texts(connection.domain@));
        lemma_first_dup_distinct(crate::text::texts(connection.domain@));
    }
    if validate_unique(&names, "domain axis").is_err() {
        return Err(ArchitectureError::Invalid(crate::text::owned("processor connection domain contains duplicate axes")));
    }
    let vars = connection.variables();
    let mut j: usize = 0;
    while j < vars.len()
        invariant
            j <= vars@.len(),
            distinct_names(crate::text::texts(connection.domain@)),
            super::index::string_names(vars@) == connection_vars(*connection),
            forall|k: int| 0 <= k < j ==> super::index::string_names(connection.domain@).contains(#[trigger] vars@[k]@),
        decreases vars.len() - j,
    {
        if !super::index::contains_string(&connection.domain, vars[j].as_str()) {
            proof { assert(super::index::string_names(vars@).contains(vars@[j as int]@)); }
            let mut m = crate::text::owned("connection index variable '");
            crate::text::push_str(&mut m, vars[j].as_str());
            crate::text::push_str(&mut m, "' is not in its declared domain");
            return Err(ArchitectureError::Invalid(m));
        }
        j += 1;
    }
    proof {
        assert forall|n: Seq<char>| connection_vars(*connection).contains(n)
            implies super::index::string_names(connection.domain@).contains(n) by {
            assert(super::index::string_names(vars@).contains(n));
            let k = choose|k: int| 0 <= k < vars@.len() && #[trigger] vars@[k]@ == n;
        }
    }
    let mut out: Vec<Axis> = Vec::new();
    let mut k: usize = 0;
    while k < connection.domain.len()
        invariant
            k <= connection.domain@.len(),
            distinct_names(crate::text::texts(connection.domain@)),
            connection_vars(*connection).subset_of(super::index::string_names(connection.domain@)),
            out@.len() == k,
            forall|a: int| 0 <= a < k ==> axis_index(dimensions@, #[trigger] connection.domain@[a]@) >= 0,
            forall|a: int| 0 <= a < k ==> #[trigger] out@[a] == dimensions@[axis_index(dimensions@, connection.domain@[a]@)],
        decreases connection.domain.len() - k,
    {
        proof { lemma_first_index_is_first(dimensions@, axis_named(connection.domain@[k as int]@)); }
        match find_axis(dimensions, connection.domain[k].as_str()) {
            Some(a) => {
                out.push(dimensions[a].clone());
            },
            None => {
                let mut m = crate::text::owned("connection domain uses unknown architecture axis '");
                crate::text::push_str(&mut m, connection.domain[k].as_str());
                crate::text::push_str(&mut m, "'");
                return Err(ArchitectureError::Invalid(m));
            },
        }
        k += 1;
    }
    proof { assert(out@ =~= resolved_domain(*connection, dimensions@)); }
    Ok(out)
}

// ---------------------------------------------------------------------------
// Implicit endpoints

/// Pointwise selectors: each memory axis indexed by the variable of its own name.
pub open spec fn pointwise(axes: Seq<Axis>) -> Seq<EndpointIndex> {
    axes.map_values(|a: Axis| EndpointIndex::Expression(AffineExpression::Variable(a.name)))
}

/// A port whose endpoint has no selectors over a memory of positive rank needs pointwise
/// selectors.
pub open spec fn needs_pointwise(p: ConnectionPort, mems: Seq<MemoryArray>) -> bool {
    p.endpoint.indices@.len() == 0 && mems[memory_index(mems, p.endpoint.memory@)].axes@.len() > 0
}

/// The port's memory is placed, and if it needs pointwise selectors, every axis of the
/// memory is in the domain.
pub open spec fn implicit_ok(p: ConnectionPort, mems: Seq<MemoryArray>, domain: Set<Seq<char>>) -> bool {
    &&& memory_index(mems, p.endpoint.memory@) >= 0
    &&& needs_pointwise(p, mems) ==> forall|k: int| 0 <= k < mems[memory_index(mems, p.endpoint.memory@)].axes@.len()
        ==> domain.contains(#[trigger] mems[memory_index(mems, p.endpoint.memory@)].axes@[k].name@)
}

/// `q` is `p` with pointwise selectors where it needs them.
pub open spec fn with_implicit(p: ConnectionPort, q: ConnectionPort, mems: Seq<MemoryArray>) -> bool {
    &&& q.name == p.name
    &&& q.endpoint.memory == p.endpoint.memory
    &&& q.endpoint.bank == p.endpoint.bank
    &&& q.endpoint.indices@ == if needs_pointwise(p, mems) {
        pointwise(mems[memory_index(mems, p.endpoint.memory@)].axes@)
    } else {
        p.endpoint.indices@
    }
}

/// Every port of a list is resolvable for implicit selectors.
pub open spec fn ports_implicit_ok(ports: Seq<ConnectionPort>, mems: Seq<MemoryArray>, domain: Set<Seq<char>>) -> bool {
    forall|i: int| 0 <= i < ports.len() ==> implicit_ok(#[trigger] ports[i], mems, domain)
}

/// Each port of `new` is the port of `old` with pointwise selectors where it needs them.
pub open spec fn ports_with_implicit(old: Seq<ConnectionPort>, new: Seq<ConnectionPort>, mems: Seq<MemoryArray>) -> bool {
    new.len() == old.len() && forall|i: int| 0 <= i < old.len() ==> with_implicit(#[trigger] old[i], new[i], mems)
}

fn push_names_debug(m: &mut String, names: &Vec<&str>)
    ensures
        final(m)@ == old(m)@ + "["@ + crate::text::quoted_items(str_texts(names@)) + "]"@,
{
    let ghost t = str_texts(names@);
    crate::text::push_str(m, "[");
    let ghost start = m@;
    let mut i: usize = 0;
    proof { assert(crate::text::quoted_items(t.take(0)) =~= Seq::<char>::empty()); }
    while i < names.len()
        invariant
            i <= names@.len(),
            t == str_texts(names@),
            m@ == start + crate::text::quoted_items(t.take(i as int)),
        decreases names.len() - i,
    {
        proof {
            assert(t.take(i + 1).drop_last() =~= t.take(i as int));
            assert(t.take(i + 1).last() == names@[i as int]@);
        }
        if i > 0 {
            crate::text::push_str(m, ", \"");
        } else {
            crate::text::push_str(m, "\"");
        }
        crate::text::push_str(m, names[i]);
        crate::text::push_str(m, "\"");
        proof {
            if i == 0 {
                assert(t.take(1)[0] == names@[0]@);
            }
            assert(m@ =~= start + crate::text::quoted_items(t.take(i + 1)));
        }
        i += 1;
    }
    proof { assert(t.take(t.len() as int) =~= t); }
    crate::text::push_str(m, "]");
    proof { assert(m@ =~= old(m)@ + "["@ + crate::text::quoted_items(t) + "]"@); }
}

fn implicit_ports(ports: &Vec<ConnectionPort>, memories: &[MemoryArray], domain: &Vec<String>) -> (r: Result<Vec<ConnectionPort>, ArchitectureError>)
    ensures
        match r {
            Ok(v) => ports_implicit_ok(ports@, memories@, super::index::string_names(domain@))
                && ports_with_implicit(ports@, v@, memories@),
            Err(_) => !ports_implicit_ok(ports@, memories@, super::index::string_names(domain@)),
        },
{
    let ghost dom = super::index::string_names(domain@);
    let mut out: Vec<ConnectionPort> = Vec::new();
    let mut i: usize = 0;
    while i < ports.len()
        invariant
            i <= ports@.len(),
            dom == super::index::string_names(domain@),
            out@.len() == i,
            forall|k: int| 0 <= k < i ==> implicit_ok(#[trigger] ports@[k], memories@, dom),
            forall|k: int| 0 <= k < i ==> with_implicit(#[trigger] ports@[k], out@[k], memories@),
        decreases ports.len() - i,
    {
        let port = &ports[i];
        proof { lemma_first_index_is_first(memories@, memory_named(port.endpoint.memory@)); }
        let mi = match find_memory(memories, port.endpoint.memory.as_str()) {
            Some(mi) => mi,
            None => {
                let mut m = crate::text::owned("connection port '");
                crate::text::push_str(&mut m, port.name.as_str());
                crate::text::push_str(&mut m, "' refers to unknown placed memory '");
                crate::text::push_str(&mut m, port.endpoint.memory.as_str());
                crate::text::push_str(&mut m, "'");
                return Err(ArchitectureError::Invalid(m));
            },
        };
        let memory = &memories[mi];
        let mut q = port.clone();
        if port.endpoint.indices.len() == 0 && memory.axes.len() > 0 {
            let mut missing: Vec<&str> = Vec::new();
            let mut a: usize = 0;
            while a < memory.axes.len()
                invariant
                    a <= memory.axes@.len(),
                    dom == super::index::string_names(domain@),
                    missing@.len() == 0 ==> forall|k: int| 0 <= k < a ==> dom.contains(#[trigger] memory.axes@[k].name@),
                    missing@.len() > 0 ==> exists|k: int| 0 <= k < a && !dom.contains(#[trigger] memory.axes@[k].name@),
                decreases memory.axes.len() - a,
            {
                if !super::index::contains_string(domain, memory.axes[a].name.as_str()) {
                    missing.push(memory.axes[a].name.as_str());
                }
                a += 1;
            }
            if missing.len() > 0 {
                let mut m = crate::text::owned("connection port '");
                crate::text::push_str(&mut m, port.name.as_str());
                crate::text::push_str(&mut m, "' cannot infer a pointwise endpoint for memory '");
                crate::text::push_str(&mut m, port.endpoint.memory.as_str());
                crate::text::push_str(&mut m, "': axes ");
                push_names_debug(&mut m, &missing);
                crate::text::push_str(&mut m, " are not in processor domain ");
                let mut dnames: Vec<&str> = Vec::new();
                let mut d: usize = 0;
                while d < domain.len()
                    decreases domain.len() - d,
                {
                    dnames.push(domain[d].as_str());
                    d += 1;
                }
                push_names_debug(&mut m, &dnames);
                crate::text::push_str(&mut m, "; use explicit selectors");
                return Err(ArchitectureError::Invalid(m));
            }
            let mut indices: Vec<EndpointIndex> = Vec::new();
            let mut a: usize = 0;
            while a < memory.axes.len()
                invariant
                    a <= memory.axes@.len(),
                    indices@ =~= pointwise(memory.axes@).take(a as int),
                decreases memory.axes.len() - a,
            {
                indices.push(EndpointIndex::Expression(AffineExpression::Variable(memory.axes[a].name.clone())));
                a += 1;
            }
            proof { assert(pointwise(memory.axes@).take(memory.axes@.len() as int) =~= pointwise(memory.axes@)); }
            q = ConnectionPort {
                name: q.name,
                endpoint: MemoryEndpoint { memory: q.endpoint.memory, indices, bank: q.endpoint.bank },
            };
        }
        proof { assert(with_implicit(ports@[i as int], q, memories@)); }
        out.push(q);
        i += 1;
    }
    Ok(out)
}

/// Gives every port whose endpoint has no selectors, over a memory of positive rank,
/// pointwise selectors: each memory axis indexed by the domain variable of its name.
pub fn resolve_implicit_endpoints(connection: &mut Connection, memories: &[MemoryArray]) -> (r: Result<(), ArchitectureError>)
    ensures
        r is Ok <==> ports_implicit_ok(old(connection).inputs@, memories@, super::index::string_names(old(connection).domain@))
            && ports_implicit_ok(old(connection).outputs@, memories@, super::index::string_names(old(connection).domain@)),
        r is Ok ==> {
            &&& final(connection).domain == old(connection).domain
            &&& final(connection).resources == old(connection).resources
            &&& ports_with_implicit(old(connection).inputs@, final(connection).inputs@, memories@)
            &&& ports_with_implicit(old(connection).outputs@, final(connection).outputs@, memories@)
        },
{
    let inputs = implicit_ports(&connection.inputs, memories, &connection.domain)?;
    let outputs = implicit_ports(&connection.outputs, memories, &connection.domain)?;
    connection.inputs = inputs;
    connection.outputs = outputs;
    Ok(())
}

// ---------------------------------------------------------------------------
// Processor ports of MLIR functions

/// Whether a region binding is for memref `n`.
pub open spec fn binding_for(n: Seq<char>) -> spec_fn(crate::mlir::ops::MlirMemRegionBinding) -> bool {
    |b: crate::mlir::ops::MlirMemRegionBinding| b.memref@ == n
}

/// Every memref of `memrefs` is bound by `loom.bind_mem` (the first binding counts) to a
/// region that `ports` names.
pub open spec fn memrefs_on_ports(
    memrefs: Seq<String>,
    bindings: Seq<crate::mlir::ops::MlirMemRegionBinding>,
    ports: Seq<ConnectionPort>,
) -> bool {
    forall|k: int| 0 <= k < memrefs.len() ==> {
        let b = first_index(bindings, binding_for(#[trigger] memrefs[k]@));
        b >= 0 && port_names(ports).contains(bindings[b].region@)
    }
}

/// The sources of every MLIR function are bound to input ports and its targets to output
/// ports.
pub open spec fn processor_ports_ok(d: ProcessorDefinition, c: Connection) -> bool {
    forall|f: int| 0 <= f < d.functions@.len() ==> match (#[trigger] d.functions@[f]).func.mlir_details {
        None => true,
        Some(details) => memrefs_on_ports(details.source_memrefs@, details.mem_region_bindings@, c.inputs@)
            && memrefs_on_ports(details.target_memrefs@, details.mem_region_bindings@, c.outputs@),
    }
}

/// A memref without a binding, or bound to a region that `ports` does not name.
pub open spec fn memref_off_ports(
    bindings: Seq<crate::mlir::ops::MlirMemRegionBinding>,
    ports: Seq<ConnectionPort>,
) -> spec_fn(String) -> bool {
    |m: String| {
        let b = first_index(bindings, binding_for(m@));
        !(b >= 0 && port_names(ports).contains(bindings[b].region@))
    }
}

/// The error for the first memref of one side of function `func` that has no binding, or
/// whose region is declared on the other side, or not at all.
pub open spec fn memrefs_error(
    func: Seq<char>,
    side: Seq<char>,
    memrefs: Seq<String>,
    bindings: Seq<crate::mlir::ops::MlirMemRegionBinding>,
    ports: Seq<ConnectionPort>,
    others: Seq<ConnectionPort>,
) -> Option<ArchErrorModel> {
    let k = first_index(memrefs, memref_off_ports(bindings, ports));
    if k < 0 {
        None
    } else {
        let b = first_index(bindings, binding_for(memrefs[k]@));
        if b < 0 {
            Some(ArchErrorModel::Invalid("MLIR function '"@ + func + "' "@ + side + " '%"@ + memrefs[k]@ + "' has no loom.bind_mem"@))
        } else {
            let region = bindings[b].region@;
            Some(ArchErrorModel::Invalid("MLIR function '"@ + func + "' binds "@ + side + " '%"@ + memrefs[k]@ + "' to '@"@ + region
                + if port_names(others).contains(region) {
                    "', which is declared on the wrong side"@
                } else {
                    "', which is not declared by the connection"@
                }))
        }
    }
}

/// The error of one function: its inputs, then its outputs.
pub open spec fn function_ports_error(f: super::processor::OperationModel, c: Connection) -> Option<ArchErrorModel> {
    match f.func.mlir_details {
        None => None,
        Some(d) => match memrefs_error(f.func.name@, "input"@, d.source_memrefs@, d.mem_region_bindings@, c.inputs@, c.outputs@) {
            Some(e) => Some(e),
            None => memrefs_error(f.func.name@, "output"@, d.target_memrefs@, d.mem_region_bindings@, c.outputs@, c.inputs@),
        },
    }
}

pub open spec fn function_ports_bad(c: Connection) -> spec_fn(super::processor::OperationModel) -> bool {
    |f: super::processor::OperationModel| function_ports_error(f, c) is Some
}

/// The error `validate_processor_ports` gives: that of the first function whose memrefs
/// are not on the right ports.
pub open spec fn processor_ports_error(d: ProcessorDefinition, c: Connection) -> Option<ArchErrorModel> {
    let f = first_index(d.functions@, function_ports_bad(c));
    if f < 0 { None } else { function_ports_error(d.functions@[f], c) }
}

fn port_named_in(ports: &Vec<ConnectionPort>, name: &str) -> (r: bool)
    ensures
        r == port_names(ports@).contains(name@),
{
    let k = position_of_port(ports, name);
    proof {
        if k < ports@.len() {
            assert(port_names(ports@)[k as int] == name@);
        } else if port_names(ports@).contains(name@) {
            let j = choose|j: int| 0 <= j < ports@.len() && port_names(ports@)[j] == name@;
        }
    }
    k < ports.len()
}

/// The position of the first binding of the given memref, or the length of the list.
fn find_binding(bindings: &Vec<crate::mlir::ops::MlirMemRegionBinding>, memref: &str) -> (r: usize)
    ensures
        r <= bindings@.len(),
        r < bindings@.len() ==> r as int == first_index(bindings@, binding_for(memref@)),
        r == bindings@.len() ==> first_index(bindings@, binding_for(memref@)) == -1,
{
    let ghost p = binding_for(memref@);
    let mut b: usize = 0;
    while b < bindings.len()
        invariant
            b <= bindings@.len(),
            p == binding_for(memref@),
            forall|j: int| 0 <= j < b ==> !p(#[trigger] bindings@[j]),
        decreases bindings.len() - b,
    {
        if crate::text::str_eq(bindings[b].memref.as_str(), memref) {
            proof { lemma_first_index(bindings@, p, b as int); }
            return b;
        }
        b += 1;
    }
    proof { lemma_first_index(bindings@, p, b as int); }
    b
}

fn check_memrefs(
    func: &String,
    side: &str,
    memrefs: &Vec<String>,
    bindings: &Vec<crate::mlir::ops::MlirMemRegionBinding>,
    ports: &Vec<ConnectionPort>,
    others: &Vec<ConnectionPort>,
) -> (r: Result<(), ArchitectureError>)
    ensures
        r is Ok <==> memrefs_on_ports(memrefs@, bindings@, ports@),
        match r {
            Ok(()) => memrefs_error(func@, side@, memrefs@, bindings@, ports@, others@) is None,
            Err(e) => memrefs_error(func@, side@, memrefs@, bindings@, ports@, others@) == Some(e@),
        },
{
    let ghost bad = memref_off_ports(bindings@, ports@);
    let mut k: usize = 0;
    while k < memrefs.len()
        invariant
            k <= memrefs@.len(),
            bad == memref_off_ports(bindings@, ports@),
            forall|j: int| 0 <= j < k ==> !bad(#[trigger] memrefs@[j]),
            forall|j: int| 0 <= j < k ==> {
                let b = first_index(bindings@, binding_for(#[trigger] memrefs@[j]@));
                b >= 0 && port_names(ports@).contains(bindings@[b].region@)
            },
        decreases memrefs.len() - k,
    {
        let b = find_binding(bindings, memrefs[k].as_str());
        if b == bindings.len() {
            let mut m = crate::text::owned("MLIR function '");
            crate::text::push_str(&mut m, func.as_str());
            crate::text::push_str(&mut m, "' ");
            crate::text::push_str(&mut m, side);
            crate::text::push_str(&mut m, " '%");
            crate::text::push_str(&mut m, memrefs[k].as_str());
            crate::text::push_str(&mut m, "' has no loom.bind_mem");
            proof {
                lemma_first_index(memrefs@, bad, k as int);
                assert(m@ =~= "MLIR function '"@ + func@ + "' "@ + side@ + " '%"@ + memrefs@[k as int]@ + "' has no loom.bind_mem"@);
            }
            return Err(ArchitectureError::Invalid(m));
        }
        let region = bindings[b].region.as_str();
        if !port_named_in(ports, region) {
            proof { lemma_first_index(memrefs@, bad, k as int); }
            let ghost start = "MLIR function '"@ + func@ + "' binds "@ + side@ + " '%"@ + memrefs@[k as int]@ + "' to '@"@ + region@;
            let mut m = crate::text::owned("MLIR function '");
            crate::text::push_str(&mut m, func.as_str());
            crate::text::push_str(&mut m, "' binds ");
            crate::text::push_str(&mut m, side);
            crate::text::push_str(&mut m, " '%");
            crate::text::push_str(&mut m, memrefs[k].as_str());
            crate::text::push_str(&mut m, "' to '@");
            crate::text::push_str(&mut m, region);
            proof { assert(m@ =~= start); }
            if port_named_in(others, region) {
                crate::text::push_str(&mut m, "', which is declared on the wrong side");
            } else {
                crate::text::push_str(&mut m, "', which is not declared by the connection");
            }
            return Err(ArchitectureError::Invalid(m));
        }
        k += 1;
    }
    proof { lemma_first_index(memrefs@, bad, k as int); }
    Ok(())
}

/// Checks that every MLIR function of the definition reads its sources from input ports and
/// writes its targets to output ports, through their `loom.bind_mem` regions.
pub fn validate_processor_ports(definition: &ProcessorDefinition, connection: &Connection) -> (r: Result<(), ArchitectureError>)
    ensures
        r is Ok <==> processor_ports_ok(*definition, *connection),
        match r {
            Ok(()) => processor_ports_error(*definition, *connection) is None,
            Err(e) => processor_ports_error(*definition, *connection) == Some(e@),
        },
{
    let ghost bad = function_ports_bad(*connection);
    let mut f: usize = 0;
    while f < definition.functions.len()
        invariant
            f <= definition.functions@.len(),
            bad == function_ports_bad(*connection),
            forall|g: int| 0 <= g < f ==> !bad(#[trigger] definition.functions@[g]),
            forall|g: int| 0 <= g < f ==> match (#[trigger] definition.functions@[g]).func.mlir_details {
                None => true,
                Some(details) => memrefs_on_ports(details.source_memrefs@, details.mem_region_bindings@, connection.inputs@)
                    && memrefs_on_ports(details.target_memrefs@, details.mem_region_bindings@, connection.outputs@),
            },
        decreases definition.functions.len() - f,
    {
        let function = &definition.functions[f];
        match &function.func.mlir_details {
            None => {},
            Some(details) => {
                match check_memrefs(&function.func.name, "input", &details.source_memrefs, &details.mem_region_bindings,
                    &connection.inputs, &connection.outputs) {
                    Ok(()) => {},
                    Err(e) => {
                        proof { lemma_first_index(definition.functions@, bad, f as int); }
                        return Err(e);
                    },
                }
                match check_memrefs(&function.func.name, "output", &details.target_memrefs, &details.mem_region_bindings,
                    &connection.outputs, &connection.inputs) {
                    Ok(()) => {},
                    Err(e) => {
                        proof { lemma_first_index(definition.functions@, bad, f as int); }
                        return Err(e);
                    },
                }
            },
        }
        f += 1;
    }
    proof { lemma_first_index(definition.functions@, bad, f as int); }
    Ok(())
}

// ---------------------------------------------------------------------------
// Memory definitions and axes

/// The names of a list of memory definitions.
pub open spec fn definition_names(defs: Seq<MemoryDefinition>) -> Seq<Seq<char>> {
    defs.map_values(|d: MemoryDefinition| d.name@)
}

/// Two technologies agree when they share a name exactly when they share a kind.
pub open spec fn technologies_agree(a: MemoryDefinition, b: MemoryDefinition) -> bool {
    match (a.technology, b.technology) {
        (Some(s), Some(t)) => (s.name@ == t.name@) == (s.kind == t.kind),
        _ => true,
    }
}

/// What `validate_memory_definitions` accepts: unique names, valid definitions, and one
/// kind per technology name and one name per technology kind.
pub open spec fn memory_definitions_ok(defs: Seq<MemoryDefinition>) -> bool {
    &&& distinct_names(definition_names(defs))
    &&& forall|i: int| 0 <= i < defs.len() ==> super::memory::definition_problem(#[trigger] defs[i]) is None
    &&& forall|i: int, j: int| 0 <= i < j < defs.len() ==> technologies_agree(#[trigger] defs[i], #[trigger] defs[j])
}

/// An earlier definition whose technology has the name of `t` and another kind.
pub open spec fn name_conflict(t: MemoryTechnology) -> spec_fn(MemoryDefinition) -> bool {
    |d: MemoryDefinition| d.technology matches Some(u) && u.name@ == t.name@ && u.kind != t.kind
}

/// An earlier definition whose technology has the kind of `t` and another name.
pub open spec fn kind_conflict(t: MemoryTechnology) -> spec_fn(MemoryDefinition) -> bool {
    |d: MemoryDefinition| d.technology matches Some(u) && u.kind == t.kind && u.name@ != t.name@
}

/// The error at definition `j`, given that those before it passed: the definition is
/// invalid, or its technology disagrees with an earlier one's by name, then by kind.
pub open spec fn definition_error_at(defs: Seq<MemoryDefinition>, j: int) -> Option<ArchErrorModel> {
    match super::memory::definition_problem(defs[j]) {
        Some(m) => Some(ArchErrorModel::Invalid(m)),
        None => match defs[j].technology {
            None => None,
            Some(t) => {
                let a = first_index(defs.take(j), name_conflict(t));
                let b = first_index(defs.take(j), kind_conflict(t));
                if a >= 0 {
                    Some(ArchErrorModel::Invalid("memory technology '"@ + t.name@ + "' uses both kind "@
                        + crate::text::decimal(defs[a].technology->0.kind as nat) + " and kind "@ + crate::text::decimal(t.kind as nat)))
                } else if b >= 0 {
                    Some(ArchErrorModel::Invalid("memory technology kind "@ + crate::text::decimal(t.kind as nat) + " is shared by '"@
                        + defs[b].technology->0.name@ + "' and '"@ + t.name@ + "'"@))
                } else {
                    None
                }
            },
        },
    }
}

/// The error of the first of the first `n` definitions that fails.
pub open spec fn definitions_scan(defs: Seq<MemoryDefinition>, n: nat) -> Option<ArchErrorModel>
    decreases n,
{
    if n == 0 {
        None
    } else {
        match definitions_scan(defs, (n - 1) as nat) {
            Some(e) => Some(e),
            None => definition_error_at(defs, n - 1),
        }
    }
}

pub proof fn lemma_definitions_scan_sticky(defs: Seq<MemoryDefinition>, i: nat, n: nat)
    requires
        i <= n,
        definitions_scan(defs, i) is Some,
    ensures
        definitions_scan(defs, n) == definitions_scan(defs, i),
    decreases n,
{
    if n > i {
        lemma_definitions_scan_sticky(defs, i, (n - 1) as nat);
    }
}

/// The error `validate_memory_definitions` gives: a repeated name, else the first
/// definition that fails.
pub open spec fn memory_definitions_error(defs: Seq<MemoryDefinition>) -> Option<ArchErrorModel> {
    match first_dup(definition_names(defs)) {
        Some(n) => Some(ArchErrorModel::DuplicateName("memory definition"@, n)),
        None => definitions_scan(defs, defs.len()),
    }
}

/// Checks memory definitions: unique names, each definition valid, and technologies that
/// use one kind per name and one name per kind.
pub fn validate_memory_definitions(definitions: &[MemoryDefinition]) -> (r: Result<(), ArchitectureError>)
    ensures
        r is Ok <==> memory_definitions_ok(definitions@),
        match r {
            Ok(()) => memory_definitions_error(definitions@) is None,
            Err(e) => memory_definitions_error(definitions@) == Some(e@),
        },
{
    let mut names: Vec<&str> = Vec::new();
    let mut i: usize = 0;
    while i < definitions.len()
        invariant
            i <= definitions@.len(),
            names@.len() == i,
            forall|k: int| 0 <= k < i ==> (#[trigger] names@[k])@ == definitions@[k].name@,
        decreases definitions.len() - i,
    {
        names.push(definitions[i].name.as_str());
        i += 1;
    }
    proof {
        assert(str_texts(names@) =~= definition_names(definitions@));
        lemma_first_dup_distinct(definition_names(definitions@));
    }
    validate_unique(&names, "memory definition")?;
    let mut j: usize = 0;
    while j < definitions.len()
        invariant
            j <= definitions@.len(),
            distinct_names(definition_names(definitions@)),
            first_dup(definition_names(definitions@)) is None,
            definitions_scan(definitions@, j as nat) is None,
            forall|k: int| 0 <= k < j ==> super::memory::definition_problem(#[trigger] definitions@[k]) is None,
            forall|a: int, b: int| 0 <= a < b < j ==> technologies_agree(#[trigger] definitions@[a], #[trigger] definitions@[b]),
        decreases definitions.len() - j,
    {
        let definition = &definitions[j];
        if let Err(m) = definition.validate() {
            proof { lemma_definitions_scan_sticky(definitions@, (j + 1) as nat, definitions@.len()); }
            return Err(ArchitectureError::Invalid(m));
        }
        let ghost dj = definitions@.take(j as int);
        match &definition.technology {
            None => {},
            Some(t) => {
                let mut a: usize = 0;
                while a < j
                    invariant
                        a <= j < definitions@.len(),
                        *definition == definitions@[j as int],
                        definition.technology == Some(*t),
                        forall|k: int| 0 <= k < a ==> match (#[trigger] definitions@[k]).technology {
                            Some(u) => u.name@ == t.name@ ==> u.kind == t.kind,
                            None => true,
                        },
                        dj == definitions@.take(j as int),
                        definitions_scan(definitions@, j as nat) is None,
                        super::memory::definition_problem(definitions@[j as int]) is None,
                        first_dup(definition_names(definitions@)) is None,
                    decreases j - a,
                {
                    if let Some(u) = &definitions[a].technology {
                        if crate::text::str_eq(u.name.as_str(), t.name.as_str()) && u.kind != t.kind {
                            proof {
                                assert(!technologies_agree(definitions@[a as int], definitions@[j as int]));
                                assert forall|k: int| 0 <= k < a implies !name_conflict(*t)(#[trigger] dj[k]) by {
                                    assert(dj[k] == definitions@[k]);
                                }
                                assert(dj[a as int] == definitions@[a as int]);
                                lemma_first_index(dj, name_conflict(*t), a as int);
                            }
                            let mut m = crate::text::owned("memory technology '");
                            crate::text::push_str(&mut m, t.name.as_str());
                            crate::text::push_str(&mut m, "' uses both kind ");
                            crate::text::push_decimal(&mut m, u.kind);
                            crate::text::push_str(&mut m, " and kind ");
                            crate::text::push_decimal(&mut m, t.kind);
                            proof {
                                assert(m@ =~= "memory technology '"@ + t.name@ + "' uses both kind "@
                                    + crate::text::decimal(u.kind as nat) + " and kind "@ + crate::text::decimal(t.kind as nat));
                                assert(definitions_scan(definitions@, (j + 1) as nat) == Some(ArchErrorModel::Invalid(m@)));
                                lemma_definitions_scan_sticky(definitions@, (j + 1) as nat, definitions@.len());
                            }
                            return Err(ArchitectureError::Invalid(m));
                        }
                    }
                    a += 1;
                }
                let mut a: usize = 0;
                while a < j
                    invariant
                        a <= j < definitions@.len(),
                        *definition == definitions@[j as int],
                        definition.technology == Some(*t),
                        forall|k: int| 0 <= k < j ==> match (#[trigger] definitions@[k]).technology {
                            Some(u) => u.name@ == t.name@ ==> u.kind == t.kind,
                            None => true,
                        },
                        forall|k: int| 0 <= k < a ==> match (#[trigger] definitions@[k]).technology {
                            Some(u) => u.kind == t.kind ==> u.name@ == t.name@,
                            None => true,
                        },
                        dj == definitions@.take(j as int),
                        definitions_scan(definitions@, j as nat) is None,
                        super::memory::definition_problem(definitions@[j as int]) is None,
                        first_dup(definition_names(definitions@)) is None,
                    decreases j - a,
                {
                    if let Some(u) = &definitions[a].technology {
                        if u.kind == t.kind && !crate::text::str_eq(u.name.as_str(), t.name.as_str()) {
                            proof {
                                assert(!technologies_agree(definitions@[a as int], definitions@[j as int]));
                                assert forall|k: int| 0 <= k < dj.len() implies !name_conflict(*t)(#[trigger] dj[k]) by {
                                    assert(dj[k] == definitions@[k]);
                                }
                                lemma_first_index(dj, name_conflict(*t), dj.len() as int);
                                assert forall|k: int| 0 <= k < a implies !kind_conflict(*t)(#[trigger] dj[k]) by {
                                    assert(dj[k] == definitions@[k]);
                                }
                                assert(dj[a as int] == definitions@[a as int]);
                                lemma_first_index(dj, kind_conflict(*t), a as int);
                            }
                            let mut m = crate::text::owned("memory technology kind ");
                            crate::text::push_decimal(&mut m, t.kind);
                            crate::text::push_str(&mut m, " is shared by '");
                            crate::text::push_str(&mut m, u.name.as_str());
                            crate::text::push_str(&mut m, "' and '");
                            crate::text::push_str(&mut m, t.name.as_str());
                            crate::text::push_str(&mut m, "'");
                            proof {
                                assert(m@ =~= "memory technology kind "@ + crate::text::decimal(t.kind as nat) + " is shared by '"@
                                    + u.name@ + "' and '"@ + t.name@ + "'"@);
                                assert(definitions_scan(definitions@, (j + 1) as nat) == Some(ArchErrorModel::Invalid(m@)));
                                lemma_definitions_scan_sticky(definitions@, (j + 1) as nat, definitions@.len());
                            }
                            return Err(ArchitectureError::Invalid(m));
                        }
                    }
                    a += 1;
                }
                proof {
                    assert forall|k: int| 0 <= k < j implies technologies_agree(#[trigger] definitions@[k], definitions@[j as int]) by {}
                    assert forall|k: int| 0 <= k < dj.len() implies !name_conflict(*t)(#[trigger] dj[k]) by {
                        assert(dj[k] == definitions@[k]);
                    }
                    lemma_first_index(dj, name_conflict(*t), dj.len() as int);
                    assert forall|k: int| 0 <= k < dj.len() implies !kind_conflict(*t)(#[trigger] dj[k]) by {
                        assert(dj[k] == definitions@[k]);
                    }
                    lemma_first_index(dj, kind_conflict(*t), dj.len() as int);
                    assert(definitions_scan(definitions@, (j + 1) as nat) is None);
                }
            },
        }
        j += 1;
    }
    Ok(())
}

/// Every axis of `candidate` is an axis of `axes` (the first of its name) with the same
/// extent.
pub open spec fn axes_known(candidate: Seq<Axis>, axes: Seq<Axis>) -> bool {
    forall|k: int| 0 <= k < candidate.len() ==> {
        let a = axis_index(axes, (#[trigger] candidate[k]).name@);
        a >= 0 && axes[a].extent == candidate[k].extent
    }
}

/// Checks that each axis of `candidate` is an architecture axis with the same extent.
pub fn validate_axes_known(owner: &str, candidate: &[Axis], axes: &[Axis]) -> (r: Result<(), ArchitectureError>)
    ensures
        r is Ok <==> axes_known(candidate@, axes@),
{
    let mut k: usize = 0;
    while k < candidate.len()
        invariant
            k <= candidate@.len(),
            forall|j: int| 0 <= j < k ==> {
                let a = axis_index(axes@, (#[trigger] candidate@[j]).name@);
                a >= 0 && axes@[a].extent == candidate@[j].extent
            },
        decreases candidate.len() - k,
    {
        let axis = &candidate[k];
        proof { lemma_first_index_is_first(axes@, axis_named(axis.name@)); }
        match find_axis(axes, axis.name.as_str()) {
            Some(a) => {
                if axes[a].extent != axis.extent {
                    let mut m = crate::text::owned(owner);
                    crate::text::push_str(&mut m, " axis '");
                    crate::text::push_str(&mut m, axis.name.as_str());
                    crate::text::push_str(&mut m, "' has extent ");
                    crate::text::push_decimal(&mut m, axis.extent);
                    crate::text::push_str(&mut m, ", expected ");
                    crate::text::push_decimal(&mut m, axes[a].extent);
                    return Err(ArchitectureError::Invalid(m));
                }
            },
            None => {
                return Err(ArchitectureError::UnknownReference {
                    owner: crate::text::owned(owner),
                    kind: crate::text::owned("axis"),
                    name: axis.name.clone(),
                });
            },
        }
        k += 1;
    }
    Ok(())
}

/// Two axes have the same name and extent.
pub open spec fn same_axis(a: Axis, b: Axis) -> bool {
    a.name@ == b.name@ && a.extent == b.extent
}

/// `prefix` is, axis for axis, the start of `domain`.
pub open spec fn is_prefix_domain(prefix: Seq<Axis>, domain: Seq<Axis>) -> bool {
    prefix.len() <= domain.len() && forall|i: int| 0 <= i < prefix.len() ==> same_axis(#[trigger] prefix[i], domain[i])
}

/// Whether `prefix` is, axis for axis, the start of `domain`.
pub fn domain_is_prefix(prefix: &[Axis], domain: &[Axis]) -> (r: bool)
    ensures
        r == is_prefix_domain(prefix@, domain@),
{
    if prefix.len() > domain.len() {
        return false;
    }
    let mut i: usize = 0;
    while i < prefix.len()
        invariant
            i <= prefix@.len() <= domain@.len(),
            forall|k: int| 0 <= k < i ==> same_axis(#[trigger] prefix@[k], domain@[k]),
        decreases prefix.len() - i,
    {
        if !(crate::text::str_eq(prefix[i].name.as_str(), domain[i].name.as_str()) && prefix[i].extent == domain[i].extent) {
            return false;
        }
        i += 1;
    }
    true
}

/// Whether two lists of axes are equal, axis for axis.
pub fn same_axes(a: &[Axis], b: &[Axis]) -> (r: bool)
    ensures
        r == (a@.len() == b@.len() && is_prefix_domain(a@, b@)),
{
    a.len() == b.len() && domain_is_prefix(a, b)
}

} // verus!
