//! Integer affine expressions over named index variables, and their parser.
use vstd::prelude::*;

use crate::text::{is_space, is_digit, is_ident_char, has_prefix_at, space, digit, ident_char, starts_with_at};

verus! {

/// One named, zero-based index range.
#[derive(Debug, PartialEq, Eq, Hash)]
pub struct IndexDomain {
    pub name: String,
    pub size: u64,
}

impl IndexDomain {
    pub fn new(name: &str, size: u64) -> (r: IndexDomain)
        ensures
            r.name@ == name@,
            r.size == size,
    {
        IndexDomain { name: crate::text::owned(name), size }
    }
}

/// Integer affine expression used by memory endpoints and coordinate maps.
#[derive(Debug, PartialEq, Eq, Hash)]
pub enum AffineExpression {
    Constant(i64),
    Variable(String),
    Add(Box<AffineExpression>, Box<AffineExpression>),
    Sub(Box<AffineExpression>, Box<AffineExpression>),
    Mul(i64, Box<AffineExpression>),
    FloorDiv(Box<AffineExpression>, i64),
    CeilDiv(Box<AffineExpression>, i64),
    Mod(Box<AffineExpression>, i64),
}

/// Model of an [`AffineExpression`].
pub ghost enum AffineModel {
    Constant(int),
    Variable(Seq<char>),
    Add(Box<AffineModel>, Box<AffineModel>),
    Sub(Box<AffineModel>, Box<AffineModel>),
    Mul(int, Box<AffineModel>),
    FloorDiv(Box<AffineModel>, int),
    CeilDiv(Box<AffineModel>, int),
    Mod(Box<AffineModel>, int),
}

pub open spec fn affine_model(e: AffineExpression) -> AffineModel
    decreases e,
{
    match e {
        AffineExpression::Constant(v) => AffineModel::Constant(v as int),
        AffineExpression::Variable(n) => AffineModel::Variable(n@),
        AffineExpression::Add(a, b) => AffineModel::Add(Box::new(affine_model(*a)), Box::new(affine_model(*b))),
        AffineExpression::Sub(a, b) => AffineModel::Sub(Box::new(affine_model(*a)), Box::new(affine_model(*b))),
        AffineExpression::Mul(c, a) => AffineModel::Mul(c as int, Box::new(affine_model(*a))),
        AffineExpression::FloorDiv(a, d) => AffineModel::FloorDiv(Box::new(affine_model(*a)), d as int),
        AffineExpression::CeilDiv(a, d) => AffineModel::CeilDiv(Box::new(affine_model(*a)), d as int),
        AffineExpression::Mod(a, d) => AffineModel::Mod(Box::new(affine_model(*a)), d as int),
    }
}

impl View for AffineExpression {
    type V = AffineModel;

    open spec fn view(&self) -> AffineModel {
        affine_model(*self)
    }
}

impl Clone for AffineExpression {
    fn clone(&self) -> (r: Self)
        ensures
            r == *self,
        decreases self,
    {
        match self {
            AffineExpression::Constant(v) => AffineExpression::Constant(*v),
            AffineExpression::Variable(n) => AffineExpression::Variable(n.clone()),
            AffineExpression::Add(a, b) => AffineExpression::Add(Box::new((**a).clone()), Box::new((**b).clone())),
            AffineExpression::Sub(a, b) => AffineExpression::Sub(Box::new((**a).clone()), Box::new((**b).clone())),
            AffineExpression::Mul(c, a) => AffineExpression::Mul(*c, Box::new((**a).clone())),
            AffineExpression::FloorDiv(a, d) => AffineExpression::FloorDiv(Box::new((**a).clone()), *d),
            AffineExpression::CeilDiv(a, d) => AffineExpression::CeilDiv(Box::new((**a).clone()), *d),
            AffineExpression::Mod(a, d) => AffineExpression::Mod(Box::new((**a).clone()), *d),
        }
    }
}

/// A parse failure: a message and the character offset at which it occurred.
#[derive(Debug, PartialEq, Eq)]
pub struct EndpointParseError {
    pub message: String,
    pub position: usize,
}

impl Clone for EndpointParseError {
    fn clone(&self) -> (r: Self)
        ensures
            r == *self,
    {
        EndpointParseError { message: self.message.clone(), position: self.position }
    }
}

// ---------------------------------------------------------------------------
// Values

/// First value bound to `n` in an association list.
pub open spec fn bound_value(values: Seq<(String, i64)>, n: Seq<char>) -> Option<int>
    decreases values.len(),
{
    if values.len() == 0 {
        None
    } else if values[0].0@ == n {
        Some(values[0].1 as int)
    } else {
        bound_value(values.subrange(1, values.len() as int), n)
    }
}

/// Value of an affine expression under the bindings; `None` on an unbound
/// variable or a non-positive divisor.
pub open spec fn affine_eval(e: AffineModel, values: Seq<(String, i64)>) -> Option<int>
    decreases e,
{
    match e {
        AffineModel::Constant(v) => Some(v),
        AffineModel::Variable(n) => bound_value(values, n),
        AffineModel::Add(a, b) => match (affine_eval(*a, values), affine_eval(*b, values)) {
            (Some(x), Some(y)) => Some(x + y),
            _ => None,
        },
        AffineModel::Sub(a, b) => match (affine_eval(*a, values), affine_eval(*b, values)) {
            (Some(x), Some(y)) => Some(x - y),
            _ => None,
        },
        AffineModel::Mul(c, a) => match affine_eval(*a, values) {
            Some(x) => Some(c * x),
            None => None,
        },
        AffineModel::FloorDiv(a, d) => match affine_eval(*a, values) {
            Some(x) => if d <= 0 { None } else { Some(x / d) },
            None => None,
        },
        AffineModel::CeilDiv(a, d) => match affine_eval(*a, values) {
            Some(x) => if d <= 0 { None } else { Some(-((-x) / d)) },
            None => None,
        },
        AffineModel::Mod(a, d) => if d <= 0 {
            None
        } else {
            match affine_eval(*a, values) {
                Some(x) => Some(x % d),
                None => None,
            }
        },
    }
}

/// Evaluating `e` under the bindings never leaves `i64` (the order of evaluation is
/// left operand first).
pub open spec fn affine_fits(e: AffineModel, values: Seq<(String, i64)>) -> bool
    decreases e,
{
    match e {
        AffineModel::Constant(_) => true,
        AffineModel::Variable(_) => true,
        AffineModel::Add(a, b) => affine_fits(*a, values) && (affine_eval(*a, values) is Some ==> affine_fits(*b, values)
            && (affine_eval(*b, values) is Some ==> crate::math::expr::in_i64(affine_eval(*a, values)->0 + affine_eval(*b, values)->0))),
        AffineModel::Sub(a, b) => affine_fits(*a, values) && (affine_eval(*a, values) is Some ==> affine_fits(*b, values)
            && (affine_eval(*b, values) is Some ==> crate::math::expr::in_i64(affine_eval(*a, values)->0 - affine_eval(*b, values)->0))),
        AffineModel::Mul(c, a) => affine_fits(*a, values) && (affine_eval(*a, values) is Some ==> crate::math::expr::in_i64(c * affine_eval(*a, values)->0)),
        AffineModel::FloorDiv(a, _) => affine_fits(*a, values),
        AffineModel::CeilDiv(a, d) => affine_fits(*a, values) && (affine_eval(*a, values) is Some && d > 0 ==> affine_eval(*a, values)->0 > i64::MIN),
        AffineModel::Mod(a, d) => d > 0 ==> affine_fits(*a, values),
    }
}

fn lookup_value(values: &[(String, i64)], name: &String) -> (r: Option<i64>)
    ensures
        crate::math::expr::opt_int(r) == bound_value(values@, name@),
{
    let mut i: usize = 0;
    proof { assert(values@.subrange(0, values@.len() as int) =~= values@); }
    while i < values.len()
        invariant
            i <= values@.len(),
            bound_value(values@, name@) == bound_value(values@.subrange(i as int, values@.len() as int), name@),
        decreases values.len() - i,
    {
        let ghost rest = values@.subrange(i as int, values@.len() as int);
        proof {
            assert(rest[0] == values@[i as int]);
            assert(rest.subrange(1, rest.len() as int) =~= values@.subrange(i + 1, values@.len() as int));
        }
        if values[i].0 == *name {
            return Some(values[i].1);
        }
        i += 1;
    }
    None
}

impl AffineExpression {
    pub fn constant(value: i64) -> (r: AffineExpression)
        ensures
            r@ == AffineModel::Constant(value as int),
    {
        AffineExpression::Constant(value)
    }

    pub fn variable(name: &str) -> (r: AffineExpression)
        ensures
            r@ == AffineModel::Variable(name@),
    {
        AffineExpression::Variable(crate::text::owned(name))
    }

    pub fn add(a: AffineExpression, b: AffineExpression) -> (r: AffineExpression)
        ensures
            r@ == AffineModel::Add(Box::new(a@), Box::new(b@)),
    {
        AffineExpression::Add(Box::new(a), Box::new(b))
    }

    pub fn sub(a: AffineExpression, b: AffineExpression) -> (r: AffineExpression)
        ensures
            r@ == AffineModel::Sub(Box::new(a@), Box::new(b@)),
    {
        AffineExpression::Sub(Box::new(a), Box::new(b))
    }

    pub fn modulo(a: AffineExpression, modulus: i64) -> (r: AffineExpression)
        ensures
            r@ == AffineModel::Mod(Box::new(a@), modulus as int),
    {
        AffineExpression::Mod(Box::new(a), modulus)
    }

    /// Value under the bindings (the first binding of a name counts).
    pub fn evaluate(&self, values: &[(String, i64)]) -> (r: Option<i64>)
        requires
            affine_fits(self@, values@),
        ensures
            crate::math::expr::opt_int(r) == affine_eval(self@, values@),
        decreases self,
    {
        match self {
            AffineExpression::Constant(v) => Some(*v),
            AffineExpression::Variable(n) => lookup_value(values, n),
            AffineExpression::Add(a, b) => {
                let x = a.evaluate(values)?;
                let y = b.evaluate(values)?;
                Some(x + y)
            },
            AffineExpression::Sub(a, b) => {
                let x = a.evaluate(values)?;
                let y = b.evaluate(values)?;
                Some(x - y)
            },
            AffineExpression::Mul(c, a) => {
                let x = a.evaluate(values)?;
                Some(*c * x)
            },
            AffineExpression::FloorDiv(a, d) => {
                let x = a.evaluate(values)?;
                if *d <= 0 {
                    None
                } else {
                    proof {
                        let vi = x as int;
                        let di = *d as int;
                        assert(vi / di >= i64::MIN as int && vi / di <= i64::MAX as int) by (nonlinear_arith)
                            requires
                                vi >= i64::MIN as int,
                                vi <= i64::MAX as int,
                                di >= 1,
                        ;
                    }
                    x.checked_div_euclid(*d)
                }
            },
            AffineExpression::CeilDiv(a, d) => {
                let x = a.evaluate(values)?;
                if *d <= 0 {
                    None
                } else {
                    let v: i64 = -x;
                    let dd: i64 = *d;
                    proof {
                        let vi = v as int;
                        let di = dd as int;
                        assert(vi / di >= -(i64::MAX as int) && vi / di <= i64::MAX as int) by (nonlinear_arith)
                            requires
                                vi >= -(i64::MAX as int),
                                vi <= i64::MAX as int,
                                di >= 1,
                        ;
                    }
                    match v.checked_div_euclid(dd) {
                        Some(q) => Some(-q),
                        None => None,
                    }
                }
            },
            AffineExpression::Mod(a, d) => {
                if *d <= 0 {
                    None
                } else {
                    let x = a.evaluate(values)?;
                    proof {
                        let vi = x as int;
                        let di = *d as int;
                        assert(0 <= vi % di < di) by (nonlinear_arith)
                            requires
                                di >= 1,
                        ;
                    }
                    x.checked_rem_euclid(*d)
                }
            },
        }
    }

    /// Whether evaluating this expression under the bindings stays within `i64`.
    pub fn fits(&self, values: &[(String, i64)]) -> (r: bool)
        ensures
            r == affine_fits(self@, values@),
        decreases self,
    {
        match self {
            AffineExpression::Constant(_) => true,
            AffineExpression::Variable(_) => true,
            AffineExpression::Add(a, b) => {
                if !a.fits(values) {
                    return false;
                }
                match a.evaluate(values) {
                    None => true,
                    Some(x) => {
                        if !b.fits(values) {
                            return false;
                        }
                        match b.evaluate(values) {
                            None => true,
                            Some(y) => x.checked_add(y).is_some(),
                        }
                    },
                }
            },
            AffineExpression::Sub(a, b) => {
                if !a.fits(values) {
                    return false;
                }
                match a.evaluate(values) {
                    None => true,
                    Some(x) => {
                        if !b.fits(values) {
                            return false;
                        }
                        match b.evaluate(values) {
                            None => true,
                            Some(y) => x.checked_sub(y).is_some(),
                        }
                    },
                }
            },
            AffineExpression::Mul(c, a) => {
                if !a.fits(values) {
                    return false;
                }
                match a.evaluate(values) {
                    None => true,
                    Some(x) => c.checked_mul(x).is_some(),
                }
            },
            AffineExpression::FloorDiv(a, _) => a.fits(values),
            AffineExpression::CeilDiv(a, d) => {
                if !a.fits(values) {
                    return false;
                }
                match a.evaluate(values) {
                    None => true,
                    Some(x) => !(*d > 0) || x > i64::MIN,
                }
            },
            AffineExpression::Mod(a, d) => !(*d > 0) || a.fits(values),
        }
    }

    /// Value under the bindings, or `Err(())` where evaluation would leave `i64`.
    pub fn checked_evaluate(&self, values: &[(String, i64)]) -> (r: Result<Option<i64>, ()>)
        ensures
            r is Err <==> !affine_fits(self@, values@),
            r matches Ok(v) ==> crate::math::expr::opt_int(v) == affine_eval(self@, values@),
    {
        if self.fits(values) {
            Ok(self.evaluate(values))
        } else {
            Err(())
        }
    }
}


// ---------------------------------------------------------------------------
// Variables

pub open spec fn affine_vars(e: AffineModel) -> Set<Seq<char>>
    decreases e,
{
    match e {
        AffineModel::Constant(_) => Set::empty(),
        AffineModel::Variable(n) => set![n],
        AffineModel::Add(a, b) => affine_vars(*a) + affine_vars(*b),
        AffineModel::Sub(a, b) => affine_vars(*a) + affine_vars(*b),
        AffineModel::Mul(_, a) => affine_vars(*a),
        AffineModel::FloorDiv(a, _) => affine_vars(*a),
        AffineModel::CeilDiv(a, _) => affine_vars(*a),
        AffineModel::Mod(a, _) => affine_vars(*a),
    }
}

/// The names held by a list of strings.
pub open spec fn string_names(v: Seq<String>) -> Set<Seq<char>> {
    Set::new(|n: Seq<char>| exists|i: int| 0 <= i < v.len() && #[trigger] v[i]@ == n)
}

/// No name occurs twice.
pub open spec fn distinct_strings(v: Seq<String>) -> bool {
    forall|i: int, j: int| 0 <= i < j < v.len() ==> v[i]@ != v[j]@
}

/// Whether the list holds a string with the characters of `s`.
pub fn contains_string(v: &Vec<String>, s: &str) -> (r: bool)
    ensures
        r == string_names(v@).contains(s@),
{
    let mut i: usize = 0;
    while i < v.len()
        invariant
            i <= v.len(),
            forall|j: int| 0 <= j < i ==> v@[j]@ != s@,
        decreases v.len() - i,
    {
        if crate::text::str_eq(v[i].as_str(), s) {
            assert(string_names(v@).contains(s@)) by { assert(v@[i as int]@ == s@); }
            return true;
        }
        i += 1;
    }
    false
}

/// Appends `s` unless the list already holds it.
pub fn add_string(out: &mut Vec<String>, s: &str)
    ensures
        string_names(final(out)@) == string_names(old(out)@).insert(s@),
        distinct_strings(old(out)@) ==> distinct_strings(final(out)@),
        final(out)@.len() >= old(out)@.len(),
        final(out)@.subrange(0, old(out)@.len() as int) == old(out)@,
{
    if !contains_string(out, s) {
        out.push(crate::text::owned(s));
        proof {
            assert(string_names(out@) =~= string_names(old(out)@).insert(s@)) by {
                assert forall|n: Seq<char>| string_names(out@).contains(n) implies string_names(old(out)@).insert(s@).contains(n) by {
                    let i = choose|i: int| 0 <= i < out@.len() && #[trigger] out@[i]@ == n;
                    if i < old(out)@.len() {
                        assert(old(out)@[i] == out@[i]);
                    }
                }
                assert forall|n: Seq<char>| string_names(old(out)@).insert(s@).contains(n) implies string_names(out@).contains(n) by {
                    if n == s@ {
                        assert(out@[old(out)@.len() as int]@ == n);
                    } else {
                        let i = choose|i: int| 0 <= i < old(out)@.len() && #[trigger] old(out)@[i]@ == n;
                        assert(out@[i]@ == n);
                    }
                }
            }
        }
    } else {
        proof {
            assert(string_names(old(out)@).insert(s@) =~= string_names(old(out)@));
        }
    }
    proof {
        assert(out@.subrange(0, old(out)@.len() as int) =~= old(out)@);
    }
}

impl AffineExpression {
    /// Adds the variables of this expression that `out` does not hold yet.
    pub fn collect_variables(&self, out: &mut Vec<String>)
        ensures
            string_names(final(out)@) == string_names(old(out)@) + affine_vars(self@),
            distinct_strings(old(out)@) ==> distinct_strings(final(out)@),
        decreases self,
    {
        match self {
            AffineExpression::Constant(_) => {
                assert(string_names(old(out)@) + affine_vars(self@) =~= string_names(old(out)@));
            },
            AffineExpression::Variable(n) => {
                add_string(out, n.as_str());
                assert(string_names(old(out)@).insert(n@) =~= string_names(old(out)@) + affine_vars(self@));
            },
            AffineExpression::Add(a, b) => {
                a.collect_variables(out);
                b.collect_variables(out);
                assert(string_names(old(out)@) + affine_vars(a@) + affine_vars(b@) =~= string_names(old(out)@) + affine_vars(self@));
            },
            AffineExpression::Sub(a, b) => {
                a.collect_variables(out);
                b.collect_variables(out);
                assert(string_names(old(out)@) + affine_vars(a@) + affine_vars(b@) =~= string_names(old(out)@) + affine_vars(self@));
            },
            AffineExpression::Mul(_, a) => a.collect_variables(out),
            AffineExpression::FloorDiv(a, _) => a.collect_variables(out),
            AffineExpression::CeilDiv(a, _) => a.collect_variables(out),
            AffineExpression::Mod(a, _) => a.collect_variables(out),
        }
    }

    /// The variables of this expression, each once.
    pub fn variables(&self) -> (r: Vec<String>)
        ensures
            string_names(r@) == affine_vars(self@),
            distinct_strings(r@),
    {
        let mut out: Vec<String> = Vec::new();
        proof { assert(string_names(out@) =~= Set::<Seq<char>>::empty()); }
        self.collect_variables(&mut out);
        proof { assert(Set::<Seq<char>>::empty() + affine_vars(self@) =~= affine_vars(self@)); }
        out
    }
}

/// Every divisor and modulus is positive.
pub open spec fn affine_valid(e: AffineModel) -> bool
    decreases e,
{
    match e {
        AffineModel::Constant(_) => true,
        AffineModel::Variable(_) => true,
        AffineModel::Add(a, b) => affine_valid(*a) && affine_valid(*b),
        AffineModel::Sub(a, b) => affine_valid(*a) && affine_valid(*b),
        AffineModel::Mul(_, a) => affine_valid(*a),
        AffineModel::FloorDiv(a, d) => d > 0 && affine_valid(*a),
        AffineModel::CeilDiv(a, d) => d > 0 && affine_valid(*a),
        AffineModel::Mod(a, d) => d > 0 && affine_valid(*a),
    }
}

impl AffineExpression {
    /// Checks that every divisor and modulus is positive.
    pub fn validate(&self) -> (r: Result<(), String>)
        ensures
            r is Ok <==> affine_valid(self@),
        decreases self,
    {
        match self {
            AffineExpression::Constant(_) => Ok(()),
            AffineExpression::Variable(_) => Ok(()),
            AffineExpression::Add(a, b) => {
                a.validate()?;
                b.validate()
            },
            AffineExpression::Sub(a, b) => {
                a.validate()?;
                b.validate()
            },
            AffineExpression::Mul(_, a) => a.validate(),
            AffineExpression::FloorDiv(a, d) | AffineExpression::CeilDiv(a, d) | AffineExpression::Mod(a, d) => {
                if *d <= 0 {
                    Err(crate::text::owned("affine divisor and modulus must be positive"))
                } else {
                    a.validate()
                }
            },
        }
    }
}

} // verus!
