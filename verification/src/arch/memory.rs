//! Memory definitions, memory arrays replicated over axes, and endpoints that select from them.
use vstd::prelude::*;

use super::axis::{axis_points, clone_axes, extents, grid, sat_product, Axis};
use super::index::{affine_valid, affine_vars, string_names, AffineExpression, AffineModel};
use crate::text::{all_ident, decimal};

verus! {

/// A named memory technology with a numeric kind.
#[derive(Debug, PartialEq, Eq, Hash)]
pub struct MemoryTechnology {
    pub name: String,
    pub kind: u64,
}

impl Clone for MemoryTechnology {
    fn clone(&self) -> (r: Self)
        ensures
            r == *self,
    {
        MemoryTechnology { name: self.name.clone(), kind: self.kind }
    }
}

impl MemoryTechnology {
    pub fn new(name: &str, kind: u64) -> (r: MemoryTechnology)
        ensures
            r.name@ == name@,
            r.kind == kind,
    {
        MemoryTechnology { name: crate::text::owned(name), kind }
    }
}

/// Optional physical banks within one logical memory instance.
#[derive(Debug, PartialEq, Eq, Clone, Copy)]
pub struct Banking {
    pub banks: u64,
}

impl Banking {
    pub fn new(banks: u64) -> (r: Banking)
        ensures
            r.banks == banks,
    {
        Banking { banks }
    }
}

/// A reusable memory kind; `capacity` is bytes per logical instance, not per bank.
#[derive(Debug, PartialEq, Eq)]
pub struct MemoryDefinition {
    pub name: String,
    pub capacity: u64,
    pub word_size: u64,
    pub technology: Option<MemoryTechnology>,
    pub banking: Option<Banking>,
}

impl Clone for MemoryDefinition {
    fn clone(&self) -> (r: Self)
        ensures
            r == *self,
    {
        MemoryDefinition {
            name: self.name.clone(),
            capacity: self.capacity,
            word_size: self.word_size,
            technology: match &self.technology {
                Some(t) => Some(t.clone()),
                None => None,
            },
            banking: self.banking,
        }
    }
}

/// The text of `n` in decimal.
pub open spec fn num(n: u64) -> Seq<char> {
    decimal(n as nat)
}

/// What `MemoryDefinition::validate` reports, if anything.
pub open spec fn definition_problem(d: MemoryDefinition) -> Option<Seq<char>> {
    let who = "memory '"@ + d.name@ + "'"@;
    if d.name@.len() == 0 {
        Some("memory name cannot be empty"@)
    } else if d.capacity == 0 {
        Some(who + " capacity must be positive"@)
    } else if d.word_size == 0 {
        Some(who + " word_size must be positive"@)
    } else if d.capacity % d.word_size != 0 {
        Some(who + " capacity "@ + num(d.capacity) + " is not divisible by word_size "@ + num(d.word_size))
    } else if d.technology matches Some(t) && (t.name@.len() == 0 || !all_ident(t.name@, 0, t.name@.len() as int)) {
        Some(who + " has invalid technology name '"@ + d.technology->0.name@ + "'"@)
    } else if d.banking matches Some(b) && b.banks == 0 {
        Some(who + " bank count must be positive"@)
    } else if d.banking matches Some(b) && d.word_size * b.banks > u64::MAX {
        Some(who + " bank geometry overflows"@)
    } else if d.banking matches Some(b) && d.capacity % ((d.word_size * b.banks) as u64) != 0 {
        Some(who + " capacity "@ + num(d.capacity) + " is not divisible by word_size "@ + num(d.word_size)
            + " × banks "@ + num(d.banking->0.banks))
    } else {
        None
    }
}

fn who(name: &String) -> (r: String)
    ensures
        r@ == "memory '"@ + name@ + "'"@,
{
    let mut m = crate::text::owned("memory '");
    crate::text::push_str(&mut m, name.as_str());
    crate::text::push_str(&mut m, "'");
    m
}

impl MemoryDefinition {
    pub fn new(name: &str, capacity: u64, word_size: u64) -> (r: MemoryDefinition)
        ensures
            r.name@ == name@,
            r.capacity == capacity,
            r.word_size == word_size,
            r.technology is None,
            r.banking is None,
    {
        MemoryDefinition { name: crate::text::owned(name), capacity, word_size, technology: None, banking: None }
    }

    pub fn with_banking(self, banks: u64) -> (r: MemoryDefinition)
        ensures
            r == (MemoryDefinition { banking: Some(Banking { banks }), ..self }),
    {
        let mut d = self;
        d.banking = Some(Banking::new(banks));
        d
    }

    pub fn with_technology(self, technology: MemoryTechnology) -> (r: MemoryDefinition)
        ensures
            r == (MemoryDefinition { technology: Some(technology), ..self }),
    {
        let mut d = self;
        d.technology = Some(technology);
        d
    }

    /// Checks the name, the positive sizes, that words (and banks of words) tile the
    /// capacity, and the technology name.
    pub fn validate(&self) -> (r: Result<(), String>)
        ensures
            match r {
                Ok(()) => definition_problem(*self) is None,
                Err(m) => definition_problem(*self) == Some(m@),
            },
    {
        if crate::text::is_empty(self.name.as_str()) {
            return Err(crate::text::owned("memory name cannot be empty"));
        }
        if self.capacity == 0 {
            let mut m = who(&self.name);
            crate::text::push_str(&mut m, " capacity must be positive");
            return Err(m);
        }
        if self.word_size == 0 {
            let mut m = who(&self.name);
            crate::text::push_str(&mut m, " word_size must be positive");
            return Err(m);
        }
        if self.capacity % self.word_size != 0 {
            let mut m = who(&self.name);
            crate::text::push_str(&mut m, " capacity ");
            crate::text::push_decimal(&mut m, self.capacity);
            crate::text::push_str(&mut m, " is not divisible by word_size ");
            crate::text::push_decimal(&mut m, self.word_size);
            return Err(m);
        }
        match &self.technology {
            Some(t) => {
                let cs = crate::text::chars_of(t.name.as_str());
                if cs.len() == 0 || !crate::text::all_ident_in(cs.as_slice(), 0, cs.len()) {
                    let mut m = who(&self.name);
                    crate::text::push_str(&mut m, " has invalid technology name '");
                    crate::text::push_str(&mut m, t.name.as_str());
                    crate::text::push_str(&mut m, "'");
                    return Err(m);
                }
            },
            None => {},
        }
        match self.banking {
            Some(b) => {
                if b.banks == 0 {
                    let mut m = who(&self.name);
                    crate::text::push_str(&mut m, " bank count must be positive");
                    return Err(m);
                }
                match self.word_size.checked_mul(b.banks) {
                    None => {
                        let mut m = who(&self.name);
                        crate::text::push_str(&mut m, " bank geometry overflows");
                        return Err(m);
                    },
                    Some(span) => {
                        assert(span > 0) by (nonlinear_arith)
                            requires
                                span == self.word_size * b.banks,
                                self.word_size > 0,
                                b.banks > 0;
                        if self.capacity % span != 0 {
                            let mut m = who(&self.name);
                            crate::text::push_str(&mut m, " capacity ");
                            crate::text::push_decimal(&mut m, self.capacity);
                            crate::text::push_str(&mut m, " is not divisible by word_size ");
                            crate::text::push_decimal(&mut m, self.word_size);
                            crate::text::push_str(&mut m, " × banks ");
                            crate::text::push_decimal(&mut m, b.banks);
                            return Err(m);
                        }
                    },
                }
            },
            None => {},
        }
        Ok(())
    }
}

/// A memory definition replicated over ordered, independent axes.
#[derive(Debug, PartialEq, Eq)]
pub struct MemoryArray {
    pub name: String,
    pub definition: String,
    pub axes: Vec<Axis>,
}

impl Clone for MemoryArray {
    fn clone(&self) -> (r: Self)
        ensures
            r.name == self.name,
            r.definition == self.definition,
            r.axes@ == self.axes@,
    {
        MemoryArray { name: self.name.clone(), definition: self.definition.clone(), axes: clone_axes(self.axes.as_slice()) }
    }
}

impl MemoryArray {
    pub fn new(name: &str, definition: &str, axes: Vec<Axis>) -> (r: MemoryArray)
        ensures
            r.name@ == name@,
            r.definition@ == definition@,
            r.axes == axes,
    {
        MemoryArray { name: crate::text::owned(name), definition: crate::text::owned(definition), axes }
    }

    /// The number of instances: the product of the extents, saturating at `u64::MAX`.
    pub fn instances(&self) -> (r: u64)
        ensures
            r == sat_product(extents(self.axes@)),
    {
        super::axis::instance_count(self.axes.as_slice())
    }

    /// Instance coordinates, the last axis varying fastest; a rank-0 memory has one empty
    /// point.
    pub fn points(&self) -> (r: Vec<Vec<u64>>)
        ensures
            r@.len() == grid(extents(self.axes@)).len(),
            forall|i: int| 0 <= i < r@.len() ==> #[trigger] r@[i]@ == grid(extents(self.axes@))[i],
    {
        axis_points(self.axes.as_slice())
    }

    pub fn name(&self) -> (r: &str)
        ensures
            r@ == self.name@,
    {
        self.name.as_str()
    }

    pub fn definition_name(&self) -> (r: &str)
        ensures
            r@ == self.definition@,
    {
        self.definition.as_str()
    }

    pub fn axes(&self) -> (r: &[Axis])
        ensures
            r@ == self.axes@,
    {
        self.axes.as_slice()
    }

    /// The instance domain: a copy of the axes.
    pub fn domain(&self) -> (r: Vec<Axis>)
        ensures
            r@ == self.axes@,
    {
        clone_axes(self.axes.as_slice())
    }

    pub fn rank(&self) -> (r: usize)
        ensures
            r == self.axes@.len(),
    {
        self.axes.len()
    }

    /// The symbol of the physical bank beneath one instance: `<name>_bank`.
    pub fn bank_symbol(&self) -> (r: String)
        ensures
            r@ == self.name@ + "_bank"@,
    {
        crate::text::concat(self.name.as_str(), "_bank")
    }
}

/// One selector of an endpoint: a whole axis, or the position an expression gives.
#[derive(Debug, PartialEq, Eq, Hash)]
pub enum EndpointIndex {
    All,
    Expression(AffineExpression),
}

impl Clone for EndpointIndex {
    fn clone(&self) -> (r: Self)
        ensures
            r == *self,
    {
        match self {
            EndpointIndex::All => EndpointIndex::All,
            EndpointIndex::Expression(e) => EndpointIndex::Expression(e.clone()),
        }
    }
}

/// One selector per memory axis, selecting their Cartesian product, and maybe a bank.
#[derive(Debug, PartialEq, Eq, Hash)]
pub struct MemoryEndpoint {
    pub memory: String,
    /// Empty selectors request pointwise resolution when used in a processor connection.
    pub indices: Vec<EndpointIndex>,
    pub bank: Option<AffineExpression>,
}

impl Clone for MemoryEndpoint {
    fn clone(&self) -> (r: Self)
        ensures
            r.memory == self.memory,
            r.indices@ == self.indices@,
            r.bank == self.bank,
    {
        let mut indices: Vec<EndpointIndex> = Vec::new();
        let mut i: usize = 0;
        while i < self.indices.len()
            invariant
                i <= self.indices@.len(),
                indices@ == self.indices@.take(i as int),
            decreases self.indices.len() - i,
        {
            indices.push(self.indices[i].clone());
            proof { assert(self.indices@.take(i + 1) =~= self.indices@.take(i as int).push(self.indices@[i as int])); }
            i += 1;
        }
        proof { assert(self.indices@.take(self.indices@.len() as int) =~= self.indices@); }
        MemoryEndpoint {
            memory: self.memory.clone(),
            indices,
            bank: match &self.bank {
                Some(b) => Some(b.clone()),
                None => None,
            },
        }
    }
}

/// The variables of the selector expressions.
pub open spec fn index_vars(v: Seq<EndpointIndex>) -> Set<Seq<char>>
    decreases v.len(),
{
    if v.len() == 0 {
        Set::empty()
    } else {
        index_vars(v.drop_last()) + match v.last() {
            EndpointIndex::All => Set::empty(),
            EndpointIndex::Expression(e) => affine_vars(e@),
        }
    }
}

/// The variables of an endpoint: those of its selectors and of its bank.
pub open spec fn endpoint_vars(e: MemoryEndpoint) -> Set<Seq<char>> {
    index_vars(e.indices@) + match e.bank {
        Some(b) => affine_vars(b@),
        None => Set::empty(),
    }
}

impl MemoryEndpoint {
    pub fn new(memory: &str, indices: Vec<EndpointIndex>) -> (r: MemoryEndpoint)
        ensures
            r.memory@ == memory@,
            r.indices == indices,
            r.bank is None,
    {
        MemoryEndpoint { memory: crate::text::owned(memory), indices, bank: None }
    }

    /// The whole of a memory: `All` on every axis.
    pub fn whole(memory: &MemoryArray) -> (r: MemoryEndpoint)
        ensures
            r.memory@ == memory.name@,
            r.indices@.len() == memory.axes@.len(),
            forall|i: int| 0 <= i < r.indices@.len() ==> r.indices@[i] == EndpointIndex::All,
            r.bank is None,
    {
        let mut indices: Vec<EndpointIndex> = Vec::new();
        let mut i: usize = 0;
        while i < memory.axes.len()
            invariant
                i <= memory.axes@.len(),
                indices@.len() == i,
                forall|k: int| 0 <= k < i ==> indices@[k] == EndpointIndex::All,
            decreases memory.axes.len() - i,
        {
            indices.push(EndpointIndex::All);
            i += 1;
        }
        MemoryEndpoint::new(memory.name(), indices)
    }

    pub fn with_bank(self, bank: AffineExpression) -> (r: MemoryEndpoint)
        ensures
            r.memory == self.memory,
            r.indices == self.indices,
            r.bank == Some(bank),
    {
        MemoryEndpoint { memory: self.memory, indices: self.indices, bank: Some(bank) }
    }

    /// Adds the variables of this endpoint that `out` does not hold yet.
    pub fn collect_variables(&self, out: &mut Vec<String>)
        ensures
            string_names(final(out)@) == string_names(old(out)@) + endpoint_vars(*self),
            super::index::distinct_strings(old(out)@) ==> super::index::distinct_strings(final(out)@),
    {
        let mut i: usize = 0;
        proof { assert(string_names(old(out)@) + index_vars(self.indices@.take(0)) =~= string_names(old(out)@)); }
        while i < self.indices.len()
            invariant
                i <= self.indices@.len(),
                string_names(out@) == string_names(old(out)@) + index_vars(self.indices@.take(i as int)),
                super::index::distinct_strings(old(out)@) ==> super::index::distinct_strings(out@),
            decreases self.indices.len() - i,
        {
            proof { assert(self.indices@.take(i + 1).drop_last() =~= self.indices@.take(i as int)); }
            match &self.indices[i] {
                EndpointIndex::All => {
                    proof {
                        assert(string_names(old(out)@) + index_vars(self.indices@.take(i + 1))
                            =~= string_names(old(out)@) + index_vars(self.indices@.take(i as int)));
                    }
                },
                EndpointIndex::Expression(e) => {
                    e.collect_variables(out);
                    proof {
                        assert(string_names(old(out)@) + index_vars(self.indices@.take(i as int)) + affine_vars(e@)
                            =~= string_names(old(out)@) + index_vars(self.indices@.take(i + 1)));
                    }
                },
            }
            i += 1;
        }
        proof { assert(self.indices@.take(self.indices@.len() as int) =~= self.indices@); }
        match &self.bank {
            Some(b) => b.collect_variables(out),
            None => {
                proof { assert(string_names(out@) + Set::<Seq<char>>::empty() =~= string_names(out@)); }
            },
        }
    }

    /// The variables of the selectors and the bank, each once.
    pub fn variables(&self) -> (r: Vec<String>)
        ensures
            string_names(r@) == endpoint_vars(*self),
            super::index::distinct_strings(r@),
    {
        let mut out: Vec<String> = Vec::new();
        proof { assert(string_names(out@) =~= Set::<Seq<char>>::empty()); }
        self.collect_variables(&mut out);
        proof { assert(Set::<Seq<char>>::empty() + endpoint_vars(*self) =~= endpoint_vars(*self)); }
        out
    }
}

/// No two axes of the memory share a name.
pub open spec fn distinct_axes(axes: Seq<Axis>) -> bool {
    forall|i: int, j: int| 0 <= i < j < axes.len() ==> axes[i].name@ != axes[j].name@
}

/// Checks that the memory does not repeat an axis.
pub fn validate_axes(memory: &MemoryArray) -> (r: Result<(), String>)
    ensures
        match r {
            Ok(()) => distinct_axes(memory.axes@),
            Err(m) => !distinct_axes(memory.axes@) && m@ == "memory '"@ + memory.name@ + "' repeats an axis"@,
        },
{
    let n = memory.axes.len();
    let mut i: usize = 0;
    while i < n
        invariant
            i <= n == memory.axes@.len(),
            forall|a: int, b: int| 0 <= a < b < n && a < i ==> memory.axes@[a].name@ != memory.axes@[b].name@,
        decreases n - i,
    {
        let mut j: usize = i + 1;
        while j < n
            invariant
                i < j <= n == memory.axes@.len(),
                forall|b: int| i < b < j ==> memory.axes@[i as int].name@ != memory.axes@[b].name@,
            decreases n - j,
        {
            if crate::text::str_eq(memory.axes[i].name.as_str(), memory.axes[j].name.as_str()) {
                let mut m = crate::text::owned("memory '");
                crate::text::push_str(&mut m, memory.name.as_str());
                crate::text::push_str(&mut m, "' repeats an axis");
                return Err(m);
            }
            j += 1;
        }
        i += 1;
    }
    Ok(())
}

/// What `validate_static_bank` reports, if anything.
pub open spec fn static_bank_problem(e: MemoryEndpoint, d: MemoryDefinition) -> Option<Seq<char>> {
    match e.bank {
        None => None,
        Some(bank) => match d.banking {
            None => Some("memory '"@ + d.name@ + "' has no banks, but endpoint selects one"@),
            Some(b) => match bank {
                AffineExpression::Constant(c) => if c < 0 || c >= b.banks {
                    Some("bank "@ + crate::text::signed_decimal(c as int) + " is out of bounds for memory '"@ + d.name@
                        + "' with "@ + num(b.banks) + " banks"@)
                } else {
                    None
                },
                _ => None,
            },
        },
    }
}

/// A constant bank selector must name one of the memory's banks.
pub fn validate_static_bank(endpoint: &MemoryEndpoint, definition: &MemoryDefinition) -> (r: Result<(), String>)
    ensures
        match r {
            Ok(()) => static_bank_problem(*endpoint, *definition) is None,
            Err(m) => static_bank_problem(*endpoint, *definition) == Some(m@),
        },
{
    match &endpoint.bank {
        None => Ok(()),
        Some(bank) => match definition.banking {
            None => {
                let mut m = crate::text::owned("memory '");
                crate::text::push_str(&mut m, definition.name.as_str());
                crate::text::push_str(&mut m, "' has no banks, but endpoint selects one");
                Err(m)
            },
            Some(b) => match bank {
                AffineExpression::Constant(c) => {
                    if *c < 0 || (*c as u64) >= b.banks {
                        let mut m = crate::text::owned("bank ");
                        crate::text::push_signed(&mut m, *c);
                        crate::text::push_str(&mut m, " is out of bounds for memory '");
                        crate::text::push_str(&mut m, definition.name.as_str());
                        crate::text::push_str(&mut m, "' with ");
                        crate::text::push_decimal(&mut m, b.banks);
                        crate::text::push_str(&mut m, " banks");
                        Err(m)
                    } else {
                        Ok(())
                    }
                },
                _ => Ok(()),
            },
        },
    }
}

/// Every selector expression is valid.
pub open spec fn indices_valid(v: Seq<EndpointIndex>) -> bool {
    forall|i: int| 0 <= i < v.len() ==> (#[trigger] v[i] matches EndpointIndex::Expression(e) ==> affine_valid(e@))
}

/// What `validate_selection` reports, if anything.
pub open spec fn selection_ok(e: MemoryEndpoint, m: MemoryArray) -> bool {
    indices_valid(e.indices@) && (e.bank matches Some(b) ==> affine_valid(b@)) && e.indices@.len() == m.axes@.len()
}

/// The selectors are valid expressions and there is one per memory axis.
pub fn validate_selection(endpoint: &MemoryEndpoint, memory: &MemoryArray) -> (r: Result<(), String>)
    ensures
        r is Ok <==> selection_ok(*endpoint, *memory),
        match r {
            Err(m) => indices_valid(endpoint.indices@) && (endpoint.bank matches Some(b) ==> affine_valid(b@))
                ==> m@ == "endpoint '"@ + endpoint.memory@ + "' has "@ + decimal(endpoint.indices@.len())
                    + " selectors; memory expects "@ + decimal(memory.axes@.len()),
            Ok(()) => true,
        },
{
    let mut i: usize = 0;
    while i < endpoint.indices.len()
        invariant
            i <= endpoint.indices@.len(),
            forall|k: int| 0 <= k < i ==> (#[trigger] endpoint.indices@[k] matches EndpointIndex::Expression(e) ==> affine_valid(e@)),
        decreases endpoint.indices.len() - i,
    {
        match &endpoint.indices[i] {
            EndpointIndex::Expression(e) => {
                e.validate()?;
            },
            EndpointIndex::All => {},
        }
        i += 1;
    }
    match &endpoint.bank {
        Some(b) => {
            b.validate()?;
        },
        None => {},
    }
    if endpoint.indices.len() != memory.axes.len() {
        let mut m = crate::text::owned("endpoint '");
        crate::text::push_str(&mut m, endpoint.memory.as_str());
        crate::text::push_str(&mut m, "' has ");
        crate::text::push_decimal(&mut m, endpoint.indices.len() as u64);
        crate::text::push_str(&mut m, " selectors; memory expects ");
        crate::text::push_decimal(&mut m, memory.axes.len() as u64);
        return Err(m);
    }
    Ok(())
}

} // verus!
