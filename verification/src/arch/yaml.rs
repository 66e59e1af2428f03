//! Architecture packages as read from YAML: the chip file with its dimensions, memory
//! placements, processor placements, resources, networks and scopes, and the memory
//! catalog. The values here are what the YAML holds; building turns them into the
//! architecture model, resolving parameterised sizes on the way.
use vstd::prelude::*;

use super::memory::{Banking, MemoryDefinition, MemoryEndpoint, MemoryTechnology};
use crate::math::checked::{checked_eval, first_undeclared, first_undeclared_symbol};
use crate::math::expr::{eval, fits, mappings_model, subst, Expr, ExprModel, Sym};
use crate::math::parse::expr_text;
use crate::math::show::expr_show;
use crate::text::{decimal, push_str, seq_lt, texts};

verus! {

// ---------------------------------------------------------------------------
// Errors

/// Why an architecture package could not be loaded.
#[derive(Debug)]
pub enum ArchLoadError {
    /// A file could not be read.
    Io { path: String, message: String },
    /// A file is not the expected YAML.
    Yaml { path: String, message: String },
    /// The package does not describe a valid architecture.
    Invalid(String),
}

impl ArchLoadError {
    /// The error as a sentence.
    pub fn message(&self) -> (r: String)
        ensures
            r@ == match self {
                ArchLoadError::Io { path, message } => "failed to read '"@ + path@ + "': "@ + message@,
                ArchLoadError::Yaml { path, message } => "failed to parse '"@ + path@ + "': "@ + message@,
                ArchLoadError::Invalid(m) => "invalid architecture package: "@ + m@,
            },
    {
        let mut s = String::new();
        match self {
            ArchLoadError::Io { path, message } => {
                push_str(&mut s, "failed to read '");
                push_str(&mut s, path.as_str());
                push_str(&mut s, "': ");
                push_str(&mut s, message.as_str());
            },
            ArchLoadError::Yaml { path, message } => {
                push_str(&mut s, "failed to parse '");
                push_str(&mut s, path.as_str());
                push_str(&mut s, "': ");
                push_str(&mut s, message.as_str());
            },
            ArchLoadError::Invalid(m) => {
                push_str(&mut s, "invalid architecture package: ");
                push_str(&mut s, m.as_str());
            },
        }
        proof {
            assert(s@ =~= match self {
                ArchLoadError::Io { path, message } => "failed to read '"@ + path@ + "': "@ + message@,
                ArchLoadError::Yaml { path, message } => "failed to parse '"@ + path@ + "': "@ + message@,
                ArchLoadError::Invalid(m) => "invalid architecture package: "@ + m@,
            });
        }
        s
    }
}

/// `Invalid` with the message `m`.
pub open spec fn invalid(r: ArchLoadError, m: Seq<char>) -> bool {
    r matches ArchLoadError::Invalid(x) && x@ == m
}

// ---------------------------------------------------------------------------
// Sizes given as numbers or as expressions over the architecture parameters

/// A size: a number, or expression text over the architecture parameters.
pub enum ScalarExprYaml {
    Literal(u64),
    Expression(String),
}

/// A dimension's size, given the same ways.
pub type DimensionSizeYaml = ScalarExprYaml;

/// A number literal fits an `i64` expression constant.
pub open spec fn literal_ok(v: ScalarExprYaml) -> bool {
    match v {
        ScalarExprYaml::Literal(n) => n <= i64::MAX,
        ScalarExprYaml::Expression(_) => true,
    }
}

/// The size as an expression, or the parse error.
pub open spec fn scalar_text(v: ScalarExprYaml) -> Result<ExprModel, (Seq<char>, int)> {
    match v {
        ScalarExprYaml::Literal(n) => Ok(ExprModel::Const(n as int)),
        ScalarExprYaml::Expression(t) => expr_text(t@),
    }
}

/// A parse error as text: the message and where.
pub open spec fn parse_error_text(e: (Seq<char>, int)) -> Seq<char> {
    e.0 + " at position "@ + decimal(e.1 as nat)
}

/// The positive value of a constant expression that evaluates within `i64`.
pub open spec fn positive_value(e: ExprModel) -> Option<int> {
    if fits(e) && (eval(e) matches Some(v) && v > 0) { eval(e) } else { None }
}

/// A size resolved: parsed, its parameters checked against the declared ones, the
/// bindings substituted, and the value positive.
pub open spec fn resolve_spec(
    v: ScalarExprYaml,
    label: Seq<char>,
    declared: Seq<Seq<char>>,
    subs: Seq<(Seq<char>, ExprModel)>,
) -> Result<int, Seq<char>> {
    match scalar_text(v) {
        Err(pe) => Err(label + ": "@ + parse_error_text(pe)),
        Ok(e) => match first_undeclared(e, declared) {
            Some(n) => Err(label + " uses undeclared parameter '"@ + n + "'"@),
            None => match positive_value(subst(e, subs)) {
                Some(x) => Ok(x),
                None => Err(label + " does not instantiate to a positive u64: "@ + expr_show(subst(e, subs))),
            },
        },
    }
}

/// A parse error as text.
pub fn parse_error_message(e: &crate::math::parse::ParseError) -> (r: String)
    ensures
        r@ == parse_error_text((e.message@, e.position as int)),
{
    let mut s = String::new();
    push_str(&mut s, e.message.as_str());
    push_str(&mut s, " at position ");
    crate::text::push_decimal(&mut s, e.position as u64);
    s
}

/// The positive value of an expression, if it has one within `i64`.
pub fn positive_const(e: &Expr) -> (r: Option<u64>)
    ensures
        match r {
            Some(v) => positive_value(e@) == Some(v as int),
            None => positive_value(e@) is None,
        },
{
    match checked_eval(e) {
        Ok(Some(v)) => if v > 0 { Some(v as u64) } else { None },
        _ => None,
    }
}

impl ScalarExprYaml {
    /// The size resolved under the declared parameters and their bindings.
    pub fn resolve(&self, label: &str, declared: &[String], substitutions: &[(Sym, Expr)]) -> (r: Result<u64, ArchLoadError>)
        requires
            literal_ok(*self),
        ensures
            match r {
                Ok(v) => resolve_spec(*self, label@, texts(declared@), mappings_model(substitutions@)) == Ok::<int, Seq<char>>(v as int),
                Err(e) => resolve_spec(*self, label@, texts(declared@), mappings_model(substitutions@)) matches Err(m) && invalid(e, m),
            },
    {
        let expression = match self {
            ScalarExprYaml::Literal(v) => Expr::Const(*v as i64),
            ScalarExprYaml::Expression(t) => match Expr::parse(t.as_str()) {
                Ok(e) => e,
                Err(pe) => {
                    let mut m = crate::text::owned(label);
                    push_str(&mut m, ": ");
                    let pm = parse_error_message(&pe);
                    push_str(&mut m, pm.as_str());
                    return Err(ArchLoadError::Invalid(m));
                },
            },
        };
        match first_undeclared_symbol(&expression, declared) {
            Some(n) => {
                let mut m = crate::text::owned(label);
                push_str(&mut m, " uses undeclared parameter '");
                push_str(&mut m, n.as_str());
                push_str(&mut m, "'");
                return Err(ArchLoadError::Invalid(m));
            },
            None => {},
        }
        let substituted = expression.substitute(substitutions);
        match positive_const(&substituted) {
            Some(v) => Ok(v),
            None => {
                let mut m = crate::text::owned(label);
                push_str(&mut m, " does not instantiate to a positive u64: ");
                let t = substituted.text();
                push_str(&mut m, t.as_str());
                Err(ArchLoadError::Invalid(m))
            },
        }
    }
}

// ---------------------------------------------------------------------------
// The memory catalog

/// A memory definition of the catalog.
pub struct MemoryDefinitionYaml {
    pub indices: Vec<String>,
    pub capacity: ScalarExprYaml,
    pub word_size: ScalarExprYaml,
    pub technology: Option<String>,
    pub banking: Option<BankingYaml>,
}

/// Banking given as a count, or as `{ banks: n }`.
pub enum BankingYaml {
    Count(ScalarExprYaml),
    Detailed { banks: ScalarExprYaml },
}

/// The memory catalog: memory definitions by name, and named memory regions.
pub struct MemoryCatalogYaml {
    pub memories: Vec<(String, MemoryDefinitionYaml)>,
    pub regions: Vec<(String, MemoryEndpoint)>,
}

pub open spec fn banks_of(b: BankingYaml) -> ScalarExprYaml {
    match b {
        BankingYaml::Count(n) => n,
        BankingYaml::Detailed { banks } => banks,
    }
}

/// Every number literal of the catalog fits an `i64` constant.
pub open spec fn catalog_literals_ok(ms: Seq<(String, MemoryDefinitionYaml)>) -> bool {
    forall|k: int| 0 <= k < ms.len() ==> {
        &&& literal_ok(#[trigger] ms[k].1.capacity)
        &&& literal_ok(ms[k].1.word_size)
        &&& (ms[k].1.banking matches Some(b) ==> literal_ok(banks_of(b)))
    }
}

/// `acc` with `x` added at its end unless it holds it already.
pub open spec fn add_distinct(acc: Seq<Seq<char>>, x: Seq<char>) -> Seq<Seq<char>> {
    if acc.contains(x) { acc } else { acc.push(x) }
}

/// The technologies of the memories, each once, in order of first appearance; a
/// technology's kind is its position here.
pub open spec fn technologies(ms: Seq<(String, MemoryDefinitionYaml)>) -> Seq<Seq<char>>
    decreases ms.len(),
{
    if ms.len() == 0 {
        Seq::empty()
    } else {
        match ms.last().1.technology {
            Some(t) => add_distinct(technologies(ms.drop_last()), t@),
            None => technologies(ms.drop_last()),
        }
    }
}

/// The position of the first `x` in `s`, or its length.
pub open spec fn position_of(s: Seq<Seq<char>>, x: Seq<char>) -> int
    decreases s.len(),
{
    if s.len() == 0 { 0 } else if s[0] == x { 0 } else { 1 + position_of(s.drop_first(), x) }
}

/// Model of a built memory definition.
pub ghost struct DefModel {
    pub name: Seq<char>,
    pub capacity: int,
    pub word_size: int,
    pub technology: Option<(Seq<char>, int)>,
    pub banks: Option<int>,
}

pub open spec fn def_model(d: MemoryDefinition) -> DefModel {
    DefModel {
        name: d.name@,
        capacity: d.capacity as int,
        word_size: d.word_size as int,
        technology: match d.technology { Some(t) => Some((t.name@, t.kind as int)), None => None },
        banks: match d.banking { Some(b) => Some(b.banks as int), None => None },
    }
}

/// One memory of the catalog built: its sizes resolved (capacity, then word size, then
/// banks) and its technology given its kind.
pub open spec fn def_built(
    name: Seq<char>,
    m: MemoryDefinitionYaml,
    kinds: Seq<Seq<char>>,
    declared: Seq<Seq<char>>,
    subs: Seq<(Seq<char>, ExprModel)>,
) -> Result<DefModel, Seq<char>> {
    let who = "memory '"@ + name + "'"@;
    match resolve_spec(m.capacity, who + " capacity"@, declared, subs) {
        Err(e) => Err(e),
        Ok(c) => match resolve_spec(m.word_size, who + " word_size"@, declared, subs) {
            Err(e) => Err(e),
            Ok(w) => {
                let banks = match m.banking {
                    Some(b) => match resolve_spec(banks_of(b), who + " banks"@, declared, subs) {
                        Err(e) => Err(e),
                        Ok(n) => Ok(Some(n)),
                    },
                    None => Ok(None),
                };
                match banks {
                    Err(e) => Err(e),
                    Ok(b) => Ok(DefModel {
                        name,
                        capacity: c,
                        word_size: w,
                        technology: match m.technology {
                            Some(t) => Some((t@, position_of(kinds, t@))),
                            None => None,
                        },
                        banks: b,
                    }),
                }
            },
        },
    }
}

/// The memories built in order; the first that fails decides the error.
pub open spec fn defs_built(
    ms: Seq<(String, MemoryDefinitionYaml)>,
    kinds: Seq<Seq<char>>,
    declared: Seq<Seq<char>>,
    subs: Seq<(Seq<char>, ExprModel)>,
) -> Result<Seq<DefModel>, Seq<char>>
    decreases ms.len(),
{
    if ms.len() == 0 {
        Ok(Seq::empty())
    } else {
        match defs_built(ms.drop_last(), kinds, declared, subs) {
            Err(e) => Err(e),
            Ok(v) => match def_built(ms.last().0@, ms.last().1, kinds, declared, subs) {
                Err(e) => Err(e),
                Ok(d) => Ok(v.push(d)),
            },
        }
    }
}

/// `d` inserted into `acc` after every entry whose name is not greater.
pub open spec fn insert_by_name(acc: Seq<DefModel>, d: DefModel) -> Seq<DefModel>
    decreases acc.len(),
{
    if acc.len() == 0 {
        seq![d]
    } else if seq_lt(d.name, acc.last().name) {
        insert_by_name(acc.drop_last(), d).push(acc.last())
    } else {
        acc.push(d)
    }
}

/// The definitions sorted by name, keeping the order of equal names.
pub open spec fn sort_by_name(v: Seq<DefModel>) -> Seq<DefModel>
    decreases v.len(),
{
    if v.len() == 0 { Seq::empty() } else { insert_by_name(sort_by_name(v.drop_last()), v.last()) }
}

/// What building the catalog gives: the definitions sorted by name.
pub open spec fn catalog_spec(
    ms: Seq<(String, MemoryDefinitionYaml)>,
    declared: Seq<Seq<char>>,
    subs: Seq<(Seq<char>, ExprModel)>,
) -> Result<Seq<DefModel>, Seq<char>> {
    match defs_built(ms, technologies(ms), declared, subs) {
        Err(e) => Err(e),
        Ok(v) => Ok(sort_by_name(v)),
    }
}

pub open spec fn defs_model(v: Seq<MemoryDefinition>) -> Seq<DefModel> {
    v.map_values(|d: MemoryDefinition| def_model(d))
}

pub proof fn lemma_technologies_contain(ms: Seq<(String, MemoryDefinitionYaml)>, k: int)
    requires
        0 <= k < ms.len(),
        ms[k].1.technology is Some,
    ensures
        technologies(ms).contains(ms[k].1.technology->0@),
    decreases ms.len(),
{
    if k == ms.len() - 1 {
        let acc = technologies(ms.drop_last());
        let t = ms[k].1.technology->0@;
        if !acc.contains(t) {
            assert(acc.push(t)[acc.len() as int] == t);
        }
    } else {
        lemma_technologies_contain(ms.drop_last(), k);
        assert(ms.drop_last()[k] == ms[k]);
        let acc = technologies(ms.drop_last());
        let x = ms[k].1.technology->0@;
        let i = choose|i: int| 0 <= i < acc.len() && acc[i] == x;
        match ms.last().1.technology {
            Some(t) => {
                if !acc.contains(t@) {
                    assert(acc.push(t@)[i] == x);
                }
            },
            None => {},
        }
    }
}

fn x_technologies(ms: &Vec<(String, MemoryDefinitionYaml)>) -> (r: Vec<String>)
    ensures
        texts(r@) == technologies(ms@),
{
    let mut out: Vec<String> = Vec::new();
    let mut i: usize = 0;
    proof { assert(ms@.take(0) =~= Seq::<(String, MemoryDefinitionYaml)>::empty()); }
    while i < ms.len()
        invariant
            i <= ms@.len(),
            texts(out@) == technologies(ms@.take(i as int)),
        decreases ms.len() - i,
    {
        proof {
            assert(ms@.take(i + 1).drop_last() =~= ms@.take(i as int));
            assert(ms@.take(i + 1).last() == ms@[i as int]);
        }
        match &ms[i].1.technology {
            Some(t) => {
                let mut found = false;
                let mut j: usize = 0;
                while j < out.len()
                    invariant
                        j <= out@.len(),
                        !found ==> forall|k: int| 0 <= k < j ==> #[trigger] out@[k]@ != t@,
                        found ==> texts(out@).contains(t@),
                    decreases out.len() - j,
                {
                    if crate::text::str_eq(out[j].as_str(), t.as_str()) {
                        found = true;
                        proof { assert(texts(out@)[j as int] == t@); }
                    }
                    j += 1;
                }
                if !found {
                    let ghost before = out@;
                    out.push(t.clone());
                    proof {
                        if texts(before).contains(t@) {
                            let k = choose|k: int| 0 <= k < texts(before).len() && texts(before)[k] == t@;
                            assert(before[k]@ == t@);
                        }
                        assert(texts(out@) =~= texts(before).push(t@));
                    }
                }
            },
            None => {},
        }
        i += 1;
    }
    proof { assert(ms@.take(ms@.len() as int) =~= ms@); }
    out
}

/// The position of the first entry equal to `t`, which `kinds` holds.
pub(crate) fn position_in(kinds: &Vec<String>, t: &String) -> (r: usize)
    requires
        texts(kinds@).contains(t@),
    ensures
        r as int == position_of(texts(kinds@), t@),
        r < kinds@.len(),
{
    let ghost m = texts(kinds@);
    let mut j: usize = 0;
    proof { assert(m.skip(0) =~= m); }
    while j < kinds.len()
        invariant
            j <= kinds@.len(),
            m == texts(kinds@),
            m.skip(j as int).contains(t@),
            position_of(m, t@) == j + position_of(m.skip(j as int), t@),
        decreases kinds.len() - j,
    {
        proof {
            assert(m.skip(j as int)[0] == kinds@[j as int]@);
            assert(m.skip(j as int).drop_first() =~= m.skip(j + 1));
        }
        if crate::text::str_eq(kinds[j].as_str(), t.as_str()) {
            return j;
        }
        proof {
            let i = choose|i: int| 0 <= i < m.skip(j as int).len() && m.skip(j as int)[i] == t@;
            assert(i > 0);
            assert(m.skip(j + 1)[i - 1] == t@);
        }
        j += 1;
    }
    proof { assert(m.skip(j as int).len() == 0); }
    0
}

pub proof fn lemma_insert_by_name(acc: Seq<DefModel>, d: DefModel, i: int)
    requires
        0 <= i <= acc.len(),
        forall|k: int| i <= k < acc.len() ==> seq_lt(d.name, #[trigger] acc[k].name),
        i == 0 || !seq_lt(d.name, acc[i - 1].name),
    ensures
        insert_by_name(acc, d) == acc.take(i).push(d) + acc.skip(i),
    decreases acc.len(),
{
    if acc.len() == i {
        assert(acc.skip(i) =~= Seq::<DefModel>::empty());
        assert(acc.take(i) =~= acc);
        if acc.len() > 0 {
            assert(acc.last() == acc[i - 1]);
        }
    } else {
        assert(seq_lt(d.name, acc[acc.len() - 1].name));
        lemma_insert_by_name(acc.drop_last(), d, i);
        assert(acc.drop_last().take(i) =~= acc.take(i));
        assert(acc.drop_last().skip(i).push(acc.last()) =~= acc.skip(i));
        assert(acc.take(i).push(d) + acc.drop_last().skip(i) + seq![acc.last()]
            =~= acc.take(i).push(d) + acc.skip(i));
    }
}

fn x_insert_by_name(acc: &mut Vec<MemoryDefinition>, d: MemoryDefinition)
    ensures
        defs_model(final(acc)@) == insert_by_name(defs_model(old(acc)@), def_model(d)),
{
    let ghost m = defs_model(acc@);
    let dn = crate::text::chars_of(d.name.as_str());
    let mut i: usize = acc.len();
    while i > 0 && crate::text::chars_lt(dn.as_slice(), crate::text::chars_of(acc[i - 1].name.as_str()).as_slice())
        invariant
            i <= acc@.len(),
            acc@ == old(acc)@,
            m == defs_model(acc@),
            dn@ == d.name@,
            forall|k: int| i <= k < m.len() ==> seq_lt(d.name@, #[trigger] m[k].name),
        decreases i,
    {
        proof { assert(m[i - 1].name == acc@[i - 1].name@); }
        i -= 1;
    }
    proof {
        if i > 0 {
            assert(m[i - 1].name == acc@[i - 1].name@);
        }
        lemma_insert_by_name(m, def_model(d), i as int);
    }
    acc.insert(i, d);
    proof {
        assert(defs_model(acc@) =~= m.take(i as int).push(def_model(d)) + m.skip(i as int));
    }
}

pub proof fn lemma_defs_err(
    ms: Seq<(String, MemoryDefinitionYaml)>,
    kinds: Seq<Seq<char>>,
    declared: Seq<Seq<char>>,
    subs: Seq<(Seq<char>, ExprModel)>,
    j: int,
)
    requires
        0 <= j <= ms.len(),
        defs_built(ms.take(j), kinds, declared, subs) is Err,
    ensures
        defs_built(ms, kinds, declared, subs) == defs_built(ms.take(j), kinds, declared, subs),
    decreases ms.len(),
{
    if ms.len() == j {
        assert(ms.take(j) =~= ms);
    } else {
        assert(ms.drop_last().take(j) =~= ms.take(j));
        lemma_defs_err(ms.drop_last(), kinds, declared, subs, j);
    }
}

fn label_of(name: &String, what: &str) -> (r: String)
    ensures
        r@ == "memory '"@ + name@ + "'"@ + what@,
{
    let mut s = crate::text::owned("memory '");
    push_str(&mut s, name.as_str());
    push_str(&mut s, "'");
    push_str(&mut s, what);
    proof { assert(s@ =~= "memory '"@ + name@ + "'"@ + what@); }
    s
}

fn x_def_built(
    name: &String,
    m: &MemoryDefinitionYaml,
    kinds: &Vec<String>,
    declared: &[String],
    substitutions: &[(Sym, Expr)],
) -> (r: Result<MemoryDefinition, ArchLoadError>)
    requires
        literal_ok(m.capacity),
        literal_ok(m.word_size),
        m.banking matches Some(b) ==> literal_ok(banks_of(b)),
        m.technology matches Some(t) ==> texts(kinds@).contains(t@),
    ensures
        match r {
            Ok(d) => def_built(name@, *m, texts(kinds@), texts(declared@), mappings_model(substitutions@)) == Ok::<DefModel, Seq<char>>(def_model(d)),
            Err(e) => def_built(name@, *m, texts(kinds@), texts(declared@), mappings_model(substitutions@)) matches Err(x) && invalid(e, x),
        },
{
    let capacity = m.capacity.resolve(label_of(name, " capacity").as_str(), declared, substitutions)?;
    let word_size = m.word_size.resolve(label_of(name, " word_size").as_str(), declared, substitutions)?;
    let banking = match &m.banking {
        Some(b) => {
            let banks = match b {
                BankingYaml::Count(n) => n,
                BankingYaml::Detailed { banks } => banks,
            };
            Some(Banking { banks: banks.resolve(label_of(name, " banks").as_str(), declared, substitutions)? })
        },
        None => None,
    };
    let technology = match &m.technology {
        Some(t) => Some(MemoryTechnology { name: t.clone(), kind: position_in(kinds, t) as u64 }),
        None => None,
    };
    Ok(MemoryDefinition { name: name.clone(), capacity, word_size, technology, banking })
}

impl MemoryCatalogYaml {
    /// The memory definitions, sorted by name, with their sizes resolved and each
    /// technology's kind its order of first appearance; and the named regions.
    pub fn build(self, declared: &[String], substitutions: &[(Sym, Expr)]) -> (r: Result<(Vec<MemoryDefinition>, Vec<(String, MemoryEndpoint)>), ArchLoadError>)
        requires
            catalog_literals_ok(self.memories@),
        ensures
            match r {
                Ok((defs, regions)) => catalog_spec(self.memories@, texts(declared@), mappings_model(substitutions@))
                    == Ok::<Seq<DefModel>, Seq<char>>(defs_model(defs@)) && regions@ == self.regions@,
                Err(e) => catalog_spec(self.memories@, texts(declared@), mappings_model(substitutions@)) matches Err(m) && invalid(e, m),
            },
    {
        let ghost ms = self.memories@;
        let ghost d = texts(declared@);
        let ghost sm = mappings_model(substitutions@);
        let kinds = x_technologies(&self.memories);
        let mut built: Vec<MemoryDefinition> = Vec::new();
        let mut i: usize = 0;
        proof { assert(defs_model(built@) =~= Seq::<DefModel>::empty()); assert(ms.take(0) =~= Seq::<(String, MemoryDefinitionYaml)>::empty()); }
        while i < self.memories.len()
            invariant
                i <= ms.len(),
                ms == self.memories@,
                d == texts(declared@),
                sm == mappings_model(substitutions@),
                texts(kinds@) == technologies(ms),
                catalog_literals_ok(ms),
                defs_built(ms.take(i as int), technologies(ms), d, sm) == Ok::<Seq<DefModel>, Seq<char>>(defs_model(built@)),
            decreases ms.len() - i,
        {
            let (name, m) = (&self.memories[i].0, &self.memories[i].1);
            proof {
                assert(ms[i as int] == (*name, *m));
                assert(literal_ok(ms[i as int].1.capacity));
                if m.technology is Some { lemma_technologies_contain(ms, i as int); }
                assert(ms.take(i + 1).drop_last() =~= ms.take(i as int));
                assert(ms.take(i + 1).last() == ms[i as int]);
            }
            let def = match x_def_built(name, m, &kinds, declared, substitutions) {
                Ok(x) => x,
                Err(e) => {
                    proof { lemma_defs_err(ms, technologies(ms), d, sm, i + 1); }
                    return Err(e);
                },
            };
            let ghost before = built@;
            built.push(def);
            proof { assert(defs_model(built@) =~= defs_model(before).push(def_model(def))); }
            i += 1;
        }
        proof { assert(ms.take(ms.len() as int) =~= ms); }
        let ghost all = defs_model(built@);
        let mut sorted: Vec<MemoryDefinition> = Vec::new();
        proof { assert(defs_model(sorted@) =~= sort_by_name(all.take(0))); }
        let mut j: usize = 0;
        let n = built.len();
        while j < n
            invariant
                j <= n == all.len(),
                n == built@.len(),
                all == defs_model(built@),
                defs_model(sorted@) == sort_by_name(all.take(j as int)),
            decreases n - j,
        {
            let x = built[j].clone();
            proof {
                assert(def_model(x) == all[j as int]);
                assert(all.take(j + 1).drop_last() =~= all.take(j as int));
                assert(all.take(j + 1).last() == all[j as int]);
            }
            x_insert_by_name(&mut sorted, x);
            j += 1;
        }
        proof { assert(all.take(n as int) =~= all); }
        Ok((sorted, self.regions))
    }
}

// ---------------------------------------------------------------------------
// Resources, scopes and processor placements

/// A resource: exclusive, or with a capacity.
pub struct ResourceYaml {
    pub name: String,
    pub capacity: Option<u64>,
}

impl ResourceYaml {
    /// The resource, not indexed.
    pub fn build(&self) -> (r: super::resource::Resource)
        ensures
            r.name@ == self.name@,
            r.indices@.len() == 0,
            r.capacity == self.capacity,
    {
        match self.capacity {
            Some(c) => super::resource::Resource::quantitative(self.name.as_str(), c),
            None => super::resource::Resource::exclusive(self.name.as_str()),
        }
    }
}

/// The string slices of a list of strings.
pub fn str_slices(v: &Vec<String>) -> (r: Vec<&str>)
    ensures
        crate::text::str_texts(r@) == texts(v@),
{
    let mut out: Vec<&str> = Vec::new();
    let mut i: usize = 0;
    while i < v.len()
        invariant
            i <= v@.len(),
            crate::text::str_texts(out@) == texts(v@).take(i as int),
        decreases v.len() - i,
    {
        let ghost before = out@;
        out.push(v[i].as_str());
        proof {
            assert(crate::text::str_texts(out@) =~= crate::text::str_texts(before).push(v@[i as int]@));
            assert(texts(v@).take(i + 1) =~= texts(v@).take(i as int).push(v@[i as int]@));
        }
        i += 1;
    }
    proof { assert(texts(v@).take(v@.len() as int) =~= texts(v@)); }
    out
}

/// A scope: its name, parent, dimensions and members.
pub struct ScopeYaml {
    pub name: String,
    pub parent: Option<String>,
    pub dimensions: Vec<String>,
    pub memories: Vec<String>,
    pub processors: Vec<String>,
    pub networks: Vec<String>,
    pub resources: Vec<String>,
}

impl ScopeYaml {
    /// The scope with the same name, parent, axes and members.
    pub fn build(&self) -> (r: super::scope::Scope)
        ensures
            r.name@ == self.name@,
            opt_text(r.parent) == opt_text(self.parent),
            texts(r.axes@) == texts(self.dimensions@),
            texts(r.memories@) == texts(self.memories@),
            texts(r.processors@) == texts(self.processors@),
            texts(r.networks@) == texts(self.networks@),
            texts(r.resources@) == texts(self.resources@),
    {
        let scope = super::scope::Scope::new(self.name.as_str(), str_slices(&self.dimensions).as_slice())
            .with_memories(str_slices(&self.memories).as_slice())
            .with_processors(str_slices(&self.processors).as_slice())
            .with_networks(str_slices(&self.networks).as_slice())
            .with_resources(str_slices(&self.resources).as_slice());
        match &self.parent {
            Some(p) => scope.with_parent(p.as_str()),
            None => scope,
        }
    }
}

pub open spec fn opt_text(o: Option<String>) -> Option<Seq<char>> {
    match o {
        Some(s) => Some(s@),
        None => None,
    }
}

/// A processor placement: the processor definition file, the domain axes, the named
/// input and output ports with their endpoints, and the resources it takes.
pub struct ProcessorPlacementYaml {
    pub definition: String,
    pub domain: Vec<String>,
    pub inputs: Vec<(String, MemoryEndpoint)>,
    pub outputs: Vec<(String, MemoryEndpoint)>,
    pub resources: Vec<String>,
}

/// A port as its name and endpoint.
pub open spec fn port_pair(p: super::processor::ConnectionPort) -> (Seq<char>, EndpointKey) {
    (p.name@, endpoint_key(p.endpoint))
}

pub open spec fn pair_model(p: (String, MemoryEndpoint)) -> (Seq<char>, EndpointKey) {
    (p.0@, endpoint_key(p.1))
}

/// An endpoint by its memory, selectors and bank.
pub type EndpointKey = (Seq<char>, Seq<super::memory::EndpointIndex>, Option<super::index::AffineExpression>);

pub open spec fn endpoint_key(e: MemoryEndpoint) -> EndpointKey {
    (e.memory@, e.indices@, e.bank)
}

fn ports_of(v: &Vec<(String, MemoryEndpoint)>) -> (r: Vec<super::processor::ConnectionPort>)
    ensures
        r@.map_values(|p: super::processor::ConnectionPort| port_pair(p)) == v@.map_values(|p: (String, MemoryEndpoint)| pair_model(p)),
{
    let mut out: Vec<super::processor::ConnectionPort> = Vec::new();
    let mut i: usize = 0;
    while i < v.len()
        invariant
            i <= v@.len(),
            out@.map_values(|p: super::processor::ConnectionPort| port_pair(p)) == v@.map_values(|p: (String, MemoryEndpoint)| pair_model(p)).take(i as int),
        decreases v.len() - i,
    {
        let ghost before = out@;
        let e = v[i].1.clone();
        let port = super::processor::ConnectionPort::new(v[i].0.as_str(), MemoryEndpoint { memory: e.memory, indices: e.indices, bank: e.bank });
        out.push(port);
        proof {
            assert(out@.map_values(|p: super::processor::ConnectionPort| port_pair(p))
                =~= before.map_values(|p: super::processor::ConnectionPort| port_pair(p)).push(pair_model(v@[i as int])));
            assert(v@.map_values(|p: (String, MemoryEndpoint)| pair_model(p)).take(i + 1)
                =~= v@.map_values(|p: (String, MemoryEndpoint)| pair_model(p)).take(i as int).push(pair_model(v@[i as int])));
        }
        i += 1;
    }
    proof { assert(v@.map_values(|p: (String, MemoryEndpoint)| pair_model(p)).take(v@.len() as int) =~= v@.map_values(|p: (String, MemoryEndpoint)| pair_model(p))); }
    out
}

impl ProcessorPlacementYaml {
    /// The connection of the placement: its domain, ports and resources.
    pub fn build(&self) -> (r: super::processor::Connection)
        ensures
            texts(r.domain@) == texts(self.domain@),
            r.inputs@.map_values(|p: super::processor::ConnectionPort| port_pair(p)) == self.inputs@.map_values(|p: (String, MemoryEndpoint)| pair_model(p)),
            r.outputs@.map_values(|p: super::processor::ConnectionPort| port_pair(p)) == self.outputs@.map_values(|p: (String, MemoryEndpoint)| pair_model(p)),
            texts(r.resources@) == texts(self.resources@),
    {
        super::processor::Connection::new(str_slices(&self.domain).as_slice(), ports_of(&self.inputs), ports_of(&self.outputs))
            .with_resources(str_slices(&self.resources).as_slice())
    }
}

// ---------------------------------------------------------------------------
// Networks

/// A network: its name, node dimensions, links, interfaces and resources.
pub struct NetworkYaml {
    pub name: String,
    pub dimensions: Vec<String>,
    pub links: Vec<NetworkLinkYaml>,
    pub interfaces: Vec<NetworkInterfaceYaml>,
    pub resources: Vec<ResourceYaml>,
}

/// A link family: its map text, bandwidth and latency texts, and resource.
pub struct NetworkLinkYaml {
    pub name: String,
    pub map: String,
    pub bandwidth: String,
    pub latency: Option<String>,
    pub resource: Option<String>,
}

/// An interface: its endpoint text and bandwidth texts.
pub struct NetworkInterfaceYaml {
    pub name: String,
    pub endpoint: String,
    pub injection_bandwidth: Option<String>,
    pub ejection_bandwidth: Option<String>,
}

/// The size given for a dimension: its first entry.
pub open spec fn size_of(dims: Seq<(String, u64)>, n: Seq<char>) -> Option<u64>
    decreases dims.len(),
{
    if dims.len() == 0 {
        None
    } else if dims[0].0@ == n {
        Some(dims[0].1)
    } else {
        size_of(dims.drop_first(), n)
    }
}

/// The axes of a network, in its order; an unknown dimension is an error.
pub open spec fn net_axes(net: Seq<char>, names: Seq<String>, dims: Seq<(String, u64)>) -> Result<Seq<(Seq<char>, u64)>, Seq<char>>
    decreases names.len(),
{
    if names.len() == 0 {
        Ok(Seq::empty())
    } else {
        match net_axes(net, names.drop_last(), dims) {
            Err(e) => Err(e),
            Ok(v) => match size_of(dims, names.last()@) {
                None => Err("network '"@ + net + "' uses unknown dimension '"@ + names.last()@ + "'"@),
                Some(x) => Ok(v.push((names.last()@, x))),
            },
        }
    }
}

pub open spec fn axes_pairs(v: Seq<super::axis::Axis>) -> Seq<(Seq<char>, u64)> {
    v.map_values(|a: super::axis::Axis| (a.name@, a.extent))
}

/// The bindings as expression constants.
pub open spec fn expr_bindings(b: Seq<(String, u64)>) -> Seq<(Seq<char>, ExprModel)> {
    b.map_values(|p: (String, u64)| (p.0@, ExprModel::Const(p.1 as int)))
}

/// The bindings as affine constants.
pub open spec fn affine_bindings(b: Seq<(String, u64)>) -> Seq<(String, i64)> {
    b.map_values(|p: (String, u64)| (p.0, p.1 as i64))
}

/// Every binding fits an `i64` constant.
pub open spec fn bindings_ok(b: Seq<(String, u64)>) -> bool {
    forall|k: int| 0 <= k < b.len() ==> #[trigger] b[k].1 <= i64::MAX
}

/// An optional expression text parsed and given the bindings.
pub open spec fn opt_expr(t: Option<String>, subs: Seq<(Seq<char>, ExprModel)>) -> Result<Option<ExprModel>, (Seq<char>, int)> {
    match t {
        None => Ok(None),
        Some(x) => match expr_text(x@) {
            Err(e) => Err(e),
            Ok(e) => Ok(Some(subst(e, subs))),
        },
    }
}

/// Model of a link.
pub ghost struct LinkModel {
    pub name: Seq<char>,
    pub map: crate::math::affine::AffineMapModel,
    pub bandwidth: ExprModel,
    pub latency: Option<ExprModel>,
    pub resource: Option<Seq<char>>,
}

pub open spec fn opt_expr_model(e: Option<Expr>) -> Option<ExprModel> {
    match e {
        Some(x) => Some(x@),
        None => None,
    }
}

pub open spec fn link_model(l: super::network::NetworkLink) -> LinkModel {
    LinkModel { name: l.name@, map: l.map@, bandwidth: l.bandwidth@, latency: opt_expr_model(l.latency), resource: opt_text(l.resource) }
}

/// One link built: its map over the network's axes, its bandwidth and latency with the
/// bindings substituted.
pub open spec fn link_spec(net: Seq<char>, axes: Seq<super::axis::Axis>, b: Seq<(String, u64)>, l: NetworkLinkYaml) -> Result<LinkModel, Seq<char>> {
    let who = "network '"@ + net + "' link '"@ + l.name@ + "'"@;
    match crate::math::affine::map_text(l.map@, axes, affine_bindings(b)) {
        Err(ae) => Err(who + ": "@ + crate::math::affine::error_text(ae)),
        Ok(map) => match expr_text(l.bandwidth@) {
            Err(pe) => Err(who + " bandwidth: "@ + parse_error_text(pe)),
            Ok(bw) => match opt_expr(l.latency, expr_bindings(b)) {
                Err(pe) => Err(who + " latency: "@ + parse_error_text(pe)),
                Ok(lat) => Ok(LinkModel {
                    name: l.name@,
                    map,
                    bandwidth: subst(bw, expr_bindings(b)),
                    latency: lat,
                    resource: opt_text(l.resource),
                }),
            },
        },
    }
}

/// The links built in order; the first that fails decides the error.
pub open spec fn links_spec(net: Seq<char>, axes: Seq<super::axis::Axis>, b: Seq<(String, u64)>, ls: Seq<NetworkLinkYaml>) -> Result<Seq<LinkModel>, Seq<char>>
    decreases ls.len(),
{
    if ls.len() == 0 {
        Ok(Seq::empty())
    } else {
        match links_spec(net, axes, b, ls.drop_last()) {
            Err(e) => Err(e),
            Ok(v) => match link_spec(net, axes, b, ls.last()) {
                Err(e) => Err(e),
                Ok(m) => Ok(v.push(m)),
            },
        }
    }
}

/// Model of an interface: name, endpoint memory and selectors, bandwidths.
pub ghost struct InterfaceModel {
    pub name: Seq<char>,
    pub memory: Seq<char>,
    pub selectors: Seq<super::index_parser::SelectorModel>,
    pub injection: Option<ExprModel>,
    pub ejection: Option<ExprModel>,
}

pub open spec fn interface_model(i: super::network::NetworkInterface) -> InterfaceModel {
    InterfaceModel {
        name: i.name@,
        memory: i.endpoint.memory@,
        selectors: super::index_parser::selectors_of(i.endpoint.indices@),
        injection: opt_expr_model(i.injection_bandwidth),
        ejection: opt_expr_model(i.ejection_bandwidth),
    }
}

/// One interface built: its endpoint parsed, its bandwidths given the bindings.
pub open spec fn interface_spec(net: Seq<char>, b: Seq<(String, u64)>, i: NetworkInterfaceYaml) -> Result<InterfaceModel, Seq<char>> {
    let who = "network '"@ + net + "' interface '"@ + i.name@ + "'"@;
    match super::index_parser::p_endpoint(i.endpoint@) {
        Err(pe) => Err(who + ": "@ + parse_error_text(pe)),
        Ok(ep) => match opt_expr(i.injection_bandwidth, expr_bindings(b)) {
            Err(pe) => Err(who + " injection bandwidth: "@ + parse_error_text(pe)),
            Ok(inj) => match opt_expr(i.ejection_bandwidth, expr_bindings(b)) {
                Err(pe) => Err(who + " ejection bandwidth: "@ + parse_error_text(pe)),
                Ok(ej) => Ok(InterfaceModel { name: i.name@, memory: ep.0, selectors: ep.1, injection: inj, ejection: ej }),
            },
        },
    }
}

/// The interfaces built in order; the first that fails decides the error.
pub open spec fn interfaces_spec(net: Seq<char>, b: Seq<(String, u64)>, is: Seq<NetworkInterfaceYaml>) -> Result<Seq<InterfaceModel>, Seq<char>>
    decreases is.len(),
{
    if is.len() == 0 {
        Ok(Seq::empty())
    } else {
        match interfaces_spec(net, b, is.drop_last()) {
            Err(e) => Err(e),
            Ok(v) => match interface_spec(net, b, is.last()) {
                Err(e) => Err(e),
                Ok(m) => Ok(v.push(m)),
            },
        }
    }
}

/// `t` is the network `n` built with the sizes `dims` and the bindings `b`.
pub open spec fn network_built(n: NetworkYaml, dims: Seq<(String, u64)>, b: Seq<(String, u64)>, t: super::network::NetworkTopology) -> bool {
    &&& t.name@ == n.name@
    &&& net_axes(n.name@, n.dimensions@, dims) == Ok::<Seq<(Seq<char>, u64)>, Seq<char>>(axes_pairs(t.dimensions@))
    &&& t.resources@.len() == n.resources@.len()
    &&& forall|k: int| 0 <= k < t.resources@.len() ==> {
        &&& (#[trigger] t.resources@[k]).name@ == n.resources@[k].name@
        &&& t.resources@[k].capacity == n.resources@[k].capacity
        &&& t.resources@[k].indices@ == t.dimensions@
    }
    &&& links_spec(n.name@, t.dimensions@, b, n.links@) == Ok::<Seq<LinkModel>, Seq<char>>(
        t.links@.map_values(|l: super::network::NetworkLink| link_model(l)))
    &&& interfaces_spec(n.name@, b, n.interfaces@) == Ok::<Seq<InterfaceModel>, Seq<char>>(
        t.interfaces@.map_values(|i: super::network::NetworkInterface| interface_model(i)))
}

/// The error building the network gives: an unknown dimension first, then the first
/// link, then the first interface that cannot be built.
pub open spec fn network_error(n: NetworkYaml, dims: Seq<(String, u64)>, b: Seq<(String, u64)>, m: Seq<char>) -> bool {
    match net_axes(n.name@, n.dimensions@, dims) {
        Err(e) => m == e,
        Ok(ax) => {
            exists|dv: Seq<super::axis::Axis>| axes_pairs(dv) == ax && (match links_spec(n.name@, dv, b, n.links@) {
                Err(e) => m == e,
                Ok(_) => interfaces_spec(n.name@, b, n.interfaces@) == Err::<Seq<InterfaceModel>, Seq<char>>(m),
            })
        },
    }
}

fn x_size_of(dims: &[(String, u64)], n: &String) -> (r: Option<u64>)
    ensures
        r == size_of(dims@, n@),
{
    let mut i: usize = 0;
    proof { assert(dims@.skip(0) =~= dims@); }
    while i < dims.len()
        invariant
            i <= dims@.len(),
            size_of(dims@, n@) == size_of(dims@.skip(i as int), n@),
        decreases dims.len() - i,
    {
        proof {
            assert(dims@.skip(i as int)[0] == dims@[i as int]);
            assert(dims@.skip(i as int).drop_first() =~= dims@.skip(i + 1));
        }
        if crate::text::str_eq(dims[i].0.as_str(), n.as_str()) {
            return Some(dims[i].1);
        }
        i += 1;
    }
    None
}

fn x_opt_expr(t: &Option<String>, subs: &Vec<(Sym, Expr)>) -> (r: Result<Option<Expr>, crate::math::parse::ParseError>)
    ensures
        match r {
            Ok(e) => opt_expr(*t, mappings_model(subs@)) == Ok::<Option<ExprModel>, (Seq<char>, int)>(opt_expr_model(e)),
            Err(pe) => opt_expr(*t, mappings_model(subs@)) == Err::<Option<ExprModel>, (Seq<char>, int)>((pe.message@, pe.position as int)),
        },
{
    match t {
        None => Ok(None),
        Some(x) => match Expr::parse(x.as_str()) {
            Err(pe) => Err(pe),
            Ok(e) => Ok(Some(e.substitute(subs.as_slice()))),
        },
    }
}

fn who_text(a: &str, net: &String, b: &str, name: &String, c: &str) -> (r: String)
    ensures
        r@ == a@ + net@ + b@ + name@ + "'"@ + c@,
{
    let mut s = crate::text::owned(a);
    push_str(&mut s, net.as_str());
    push_str(&mut s, b);
    push_str(&mut s, name.as_str());
    push_str(&mut s, "'");
    push_str(&mut s, c);
    proof { assert(s@ =~= a@ + net@ + b@ + name@ + "'"@ + c@); }
    s
}

fn x_link(net: &String, axes: &Vec<super::axis::Axis>, b: &[(String, u64)], abind: &Vec<(String, i64)>, ebind: &Vec<(Sym, Expr)>, l: &NetworkLinkYaml) -> (r: Result<super::network::NetworkLink, ArchLoadError>)
    requires
        abind@ == affine_bindings(b@),
        mappings_model(ebind@) == expr_bindings(b@),
    ensures
        match r {
            Ok(x) => link_spec(net@, axes@, b@, *l) == Ok::<LinkModel, Seq<char>>(link_model(x)),
            Err(e) => link_spec(net@, axes@, b@, *l) matches Err(m) && invalid(e, m),
        },
{
    let map = match crate::math::affine::AffineMap::parse_with_bindings(l.map.as_str(), axes.as_slice(), abind.as_slice()) {
        Ok(m) => m,
        Err(ae) => {
            let mut m = who_text("network '", net, "' link '", &l.name, ": ");
            let t = ae.message();
            push_str(&mut m, t.as_str());
            return Err(ArchLoadError::Invalid(m));
        },
    };
    let bw = match Expr::parse(l.bandwidth.as_str()) {
        Ok(e) => e.substitute(ebind.as_slice()),
        Err(pe) => {
            let mut m = who_text("network '", net, "' link '", &l.name, " bandwidth: ");
            let t = parse_error_message(&pe);
            push_str(&mut m, t.as_str());
            return Err(ArchLoadError::Invalid(m));
        },
    };
    let lat = match x_opt_expr(&l.latency, ebind) {
        Ok(x) => x,
        Err(pe) => {
            let mut m = who_text("network '", net, "' link '", &l.name, " latency: ");
            let t = parse_error_message(&pe);
            push_str(&mut m, t.as_str());
            return Err(ArchLoadError::Invalid(m));
        },
    };
    let mut built = super::network::NetworkLink::new(l.name.as_str(), map, bw);
    match lat {
        Some(x) => { built = built.with_latency(x); },
        None => {},
    }
    match &l.resource {
        Some(x) => { built = built.with_resource(x.as_str()); },
        None => {},
    }
    Ok(built)
}

fn x_interface(net: &String, b: &[(String, u64)], ebind: &Vec<(Sym, Expr)>, i: &NetworkInterfaceYaml) -> (r: Result<super::network::NetworkInterface, ArchLoadError>)
    requires
        mappings_model(ebind@) == expr_bindings(b@),
    ensures
        match r {
            Ok(x) => interface_spec(net@, b@, *i) == Ok::<InterfaceModel, Seq<char>>(interface_model(x)),
            Err(e) => interface_spec(net@, b@, *i) matches Err(m) && invalid(e, m),
        },
{
    let endpoint = match MemoryEndpoint::parse(i.endpoint.as_str()) {
        Ok(e) => e,
        Err(pe) => {
            let mut m = who_text("network '", net, "' interface '", &i.name, ": ");
            let mut t = pe.message.clone();
            push_str(&mut t, " at position ");
            crate::text::push_decimal(&mut t, pe.position as u64);
            push_str(&mut m, t.as_str());
            return Err(ArchLoadError::Invalid(m));
        },
    };
    let inj = match x_opt_expr(&i.injection_bandwidth, ebind) {
        Ok(x) => x,
        Err(pe) => {
            let mut m = who_text("network '", net, "' interface '", &i.name, " injection bandwidth: ");
            let t = parse_error_message(&pe);
            push_str(&mut m, t.as_str());
            return Err(ArchLoadError::Invalid(m));
        },
    };
    let ej = match x_opt_expr(&i.ejection_bandwidth, ebind) {
        Ok(x) => x,
        Err(pe) => {
            let mut m = who_text("network '", net, "' interface '", &i.name, " ejection bandwidth: ");
            let t = parse_error_message(&pe);
            push_str(&mut m, t.as_str());
            return Err(ArchLoadError::Invalid(m));
        },
    };
    let mut built = super::network::NetworkInterface::new(i.name.as_str(), endpoint);
    match inj {
        Some(x) => { built = built.with_injection_bandwidth(x); },
        None => {},
    }
    match ej {
        Some(x) => { built = built.with_ejection_bandwidth(x); },
        None => {},
    }
    Ok(built)
}

pub proof fn lemma_links_err(net: Seq<char>, axes: Seq<super::axis::Axis>, b: Seq<(String, u64)>, ls: Seq<NetworkLinkYaml>, j: int)
    requires
        0 <= j <= ls.len(),
        links_spec(net, axes, b, ls.take(j)) is Err,
    ensures
        links_spec(net, axes, b, ls) == links_spec(net, axes, b, ls.take(j)),
    decreases ls.len(),
{
    if ls.len() == j {
        assert(ls.take(j) =~= ls);
    } else {
        assert(ls.drop_last().take(j) =~= ls.take(j));
        lemma_links_err(net, axes, b, ls.drop_last(), j);
    }
}

pub proof fn lemma_interfaces_err(net: Seq<char>, b: Seq<(String, u64)>, is: Seq<NetworkInterfaceYaml>, j: int)
    requires
        0 <= j <= is.len(),
        interfaces_spec(net, b, is.take(j)) is Err,
    ensures
        interfaces_spec(net, b, is) == interfaces_spec(net, b, is.take(j)),
    decreases is.len(),
{
    if is.len() == j {
        assert(is.take(j) =~= is);
    } else {
        assert(is.drop_last().take(j) =~= is.take(j));
        lemma_interfaces_err(net, b, is.drop_last(), j);
    }
}

pub proof fn lemma_axes_err(net: Seq<char>, names: Seq<String>, dims: Seq<(String, u64)>, j: int)
    requires
        0 <= j <= names.len(),
        net_axes(net, names.take(j), dims) is Err,
    ensures
        net_axes(net, names, dims) == net_axes(net, names.take(j), dims),
    decreases names.len(),
{
    if names.len() == j {
        assert(names.take(j) =~= names);
    } else {
        assert(names.drop_last().take(j) =~= names.take(j));
        lemma_axes_err(net, names.drop_last(), dims, j);
    }
}

fn x_net_axes(net: &String, names: &Vec<String>, dimensions: &[(String, u64)]) -> (r: Result<Vec<super::axis::Axis>, ArchLoadError>)
    ensures
        match r {
            Ok(v) => net_axes(net@, names@, dimensions@) == Ok::<Seq<(Seq<char>, u64)>, Seq<char>>(axes_pairs(v@)),
            Err(e) => net_axes(net@, names@, dimensions@) matches Err(m) && invalid(e, m),
        },
{
    let mut axes: Vec<super::axis::Axis> = Vec::new();
    let mut i: usize = 0;
    proof { assert(axes_pairs(axes@) =~= Seq::<(Seq<char>, u64)>::empty()); assert(names@.take(0) =~= Seq::<String>::empty()); }
    while i < names.len()
        invariant
            i <= names@.len(),
            net_axes(net@, names@.take(i as int), dimensions@) == Ok::<Seq<(Seq<char>, u64)>, Seq<char>>(axes_pairs(axes@)),
        decreases names.len() - i,
    {
        let n = &names[i];
        proof {
            assert(names@.take(i + 1).drop_last() =~= names@.take(i as int));
            assert(names@.take(i + 1).last() == *n);
        }
        match x_size_of(dimensions, n) {
            Some(x) => {
                let ghost before = axes@;
                let a = super::axis::Axis::new(n.as_str(), x);
                axes.push(a);
                proof { assert(axes_pairs(axes@) =~= axes_pairs(before).push((n@, x))); }
            },
            None => {
                let mut m = crate::text::owned("network '");
                push_str(&mut m, net.as_str());
                push_str(&mut m, "' uses unknown dimension '");
                push_str(&mut m, n.as_str());
                push_str(&mut m, "'");
                proof {
                    lemma_axes_err(net@, names@, dimensions@, i + 1);
                    assert(m@ =~= "network '"@ + net@ + "' uses unknown dimension '"@ + n@ + "'"@);
                }
                return Err(ArchLoadError::Invalid(m));
            },
        }
        i += 1;
    }
    proof { assert(names@.take(names@.len() as int) =~= names@); }
    Ok(axes)
}

pub(crate) fn x_bindings(bindings: &[(String, u64)]) -> (r: (Vec<(Sym, Expr)>, Vec<(String, i64)>))
    requires
        bindings_ok(bindings@),
    ensures
        mappings_model(r.0@) == expr_bindings(bindings@),
        r.1@ == affine_bindings(bindings@),
{
    let mut ebind: Vec<(Sym, Expr)> = Vec::new();
    let mut abind: Vec<(String, i64)> = Vec::new();
    let mut k: usize = 0;
    while k < bindings.len()
        invariant
            k <= bindings@.len(),
            bindings_ok(bindings@),
            mappings_model(ebind@) == expr_bindings(bindings@).take(k as int),
            abind@ == affine_bindings(bindings@).take(k as int),
        decreases bindings.len() - k,
    {
        let ghost e0 = ebind@;
        let ghost a0 = abind@;
        let v = bindings[k].1;
        assert(v <= i64::MAX);
        let s = Sym::new(bindings[k].0.as_str());
        ebind.push((s, Expr::Const(v as i64)));
        abind.push((bindings[k].0.clone(), v as i64));
        proof {
            assert(mappings_model(ebind@) =~= mappings_model(e0).push((bindings@[k as int].0@, ExprModel::Const(v as int))));
            assert(expr_bindings(bindings@).take(k + 1) =~= expr_bindings(bindings@).take(k as int).push((bindings@[k as int].0@, ExprModel::Const(v as int))));
            assert(affine_bindings(bindings@).take(k + 1) =~= affine_bindings(bindings@).take(k as int).push((bindings@[k as int].0, v as i64)));
            assert(abind@ =~= a0.push((bindings@[k as int].0, v as i64)));
        }
        k += 1;
    }
    proof {
        assert(expr_bindings(bindings@).take(bindings@.len() as int) =~= expr_bindings(bindings@));
        assert(affine_bindings(bindings@).take(bindings@.len() as int) =~= affine_bindings(bindings@));
    }
    (ebind, abind)
}

/// The resources of `rs`, each indexed by the dimensions of `t`, are those of `t`.
pub open spec fn resources_match(t: super::network::NetworkTopology, rs: Seq<ResourceYaml>) -> bool {
    &&& t.resources@.len() == rs.len()
    &&& forall|k: int| 0 <= k < t.resources@.len() ==> {
        &&& (#[trigger] t.resources@[k]).name@ == rs[k].name@
        &&& t.resources@[k].capacity == rs[k].capacity
        &&& t.resources@[k].indices@ == t.dimensions@
    }
}

fn x_add_resources(network: super::network::NetworkTopology, rs: &Vec<ResourceYaml>) -> (r: super::network::NetworkTopology)
    requires
        network.resources@.len() == 0,
    ensures
        r.name == network.name,
        r.dimensions == network.dimensions,
        r.links == network.links,
        r.interfaces == network.interfaces,
        resources_match(r, rs@),
{
    let mut t = network;
    let mut j: usize = 0;
    while j < rs.len()
        invariant
            j <= rs@.len(),
            t.name == network.name,
            t.dimensions == network.dimensions,
            t.links == network.links,
            t.interfaces == network.interfaces,
            resources_match(t, rs@.take(j as int)),
        decreases rs.len() - j,
    {
        let indices = super::axis::clone_axes(t.dimensions.as_slice());
        let res = rs[j].build().indexed(indices);
        t = t.with_resource(res);
        j += 1;
    }
    proof { assert(rs@.take(rs@.len() as int) =~= rs@); }
    t
}

fn x_add_links(
    network: super::network::NetworkTopology,
    ls: &Vec<NetworkLinkYaml>,
    b: &[(String, u64)],
    abind: &Vec<(String, i64)>,
    ebind: &Vec<(Sym, Expr)>,
) -> (r: Result<super::network::NetworkTopology, ArchLoadError>)
    requires
        network.links@.len() == 0,
        abind@ == affine_bindings(b@),
        mappings_model(ebind@) == expr_bindings(b@),
    ensures
        match r {
            Ok(t) => t.name == network.name && t.dimensions == network.dimensions && t.resources == network.resources
                && t.interfaces == network.interfaces
                && links_spec(network.name@, network.dimensions@, b@, ls@) == Ok::<Seq<LinkModel>, Seq<char>>(
                    t.links@.map_values(|l: super::network::NetworkLink| link_model(l))),
            Err(e) => links_spec(network.name@, network.dimensions@, b@, ls@) matches Err(m) && invalid(e, m),
        },
{
    let mut t = network;
    let mut j: usize = 0;
    proof {
        assert(ls@.take(0) =~= Seq::<NetworkLinkYaml>::empty());
        assert(t.links@.map_values(|l: super::network::NetworkLink| link_model(l)) =~= Seq::<LinkModel>::empty());
    }
    while j < ls.len()
        invariant
            j <= ls@.len(),
            t.name == network.name,
            t.dimensions == network.dimensions,
            t.resources == network.resources,
            t.interfaces == network.interfaces,
            abind@ == affine_bindings(b@),
            mappings_model(ebind@) == expr_bindings(b@),
            links_spec(network.name@, network.dimensions@, b@, ls@.take(j as int))
                == Ok::<Seq<LinkModel>, Seq<char>>(t.links@.map_values(|l: super::network::NetworkLink| link_model(l))),
        decreases ls.len() - j,
    {
        proof {
            assert(ls@.take(j + 1).drop_last() =~= ls@.take(j as int));
            assert(ls@.take(j + 1).last() == ls@[j as int]);
        }
        let link = match x_link(&t.name, &t.dimensions, b, abind, ebind, &ls[j]) {
            Ok(l) => l,
            Err(e) => {
                proof { lemma_links_err(network.name@, network.dimensions@, b@, ls@, j + 1); }
                return Err(e);
            },
        };
        let ghost before = t.links@;
        t = t.with_link(link);
        proof {
            assert(t.links@.map_values(|l: super::network::NetworkLink| link_model(l))
                =~= before.map_values(|l: super::network::NetworkLink| link_model(l)).push(link_model(link)));
        }
        j += 1;
    }
    proof { assert(ls@.take(ls@.len() as int) =~= ls@); }
    Ok(t)
}

fn x_add_interfaces(
    network: super::network::NetworkTopology,
    is: &Vec<NetworkInterfaceYaml>,
    b: &[(String, u64)],
    ebind: &Vec<(Sym, Expr)>,
) -> (r: Result<super::network::NetworkTopology, ArchLoadError>)
    requires
        network.interfaces@.len() == 0,
        mappings_model(ebind@) == expr_bindings(b@),
    ensures
        match r {
            Ok(t) => t.name == network.name && t.dimensions == network.dimensions && t.resources == network.resources
                && t.links == network.links
                && interfaces_spec(network.name@, b@, is@) == Ok::<Seq<InterfaceModel>, Seq<char>>(
                    t.interfaces@.map_values(|i: super::network::NetworkInterface| interface_model(i))),
            Err(e) => interfaces_spec(network.name@, b@, is@) matches Err(m) && invalid(e, m),
        },
{
    let mut t = network;
    let mut j: usize = 0;
    proof {
        assert(is@.take(0) =~= Seq::<NetworkInterfaceYaml>::empty());
        assert(t.interfaces@.map_values(|i: super::network::NetworkInterface| interface_model(i)) =~= Seq::<InterfaceModel>::empty());
    }
    while j < is.len()
        invariant
            j <= is@.len(),
            t.name == network.name,
            t.dimensions == network.dimensions,
            t.resources == network.resources,
            t.links == network.links,
            mappings_model(ebind@) == expr_bindings(b@),
            interfaces_spec(network.name@, b@, is@.take(j as int))
                == Ok::<Seq<InterfaceModel>, Seq<char>>(t.interfaces@.map_values(|i: super::network::NetworkInterface| interface_model(i))),
        decreases is.len() - j,
    {
        proof {
            assert(is@.take(j + 1).drop_last() =~= is@.take(j as int));
            assert(is@.take(j + 1).last() == is@[j as int]);
        }
        let iface = match x_interface(&t.name, b, ebind, &is[j]) {
            Ok(x) => x,
            Err(e) => {
                proof { lemma_interfaces_err(network.name@, b@, is@, j + 1); }
                return Err(e);
            },
        };
        let ghost before = t.interfaces@;
        t = t.with_interface(iface);
        proof {
            assert(t.interfaces@.map_values(|i: super::network::NetworkInterface| interface_model(i))
                =~= before.map_values(|i: super::network::NetworkInterface| interface_model(i)).push(interface_model(iface)));
        }
        j += 1;
    }
    proof { assert(is@.take(is@.len() as int) =~= is@); }
    Ok(t)
}

impl NetworkYaml {
    /// The network over the named dimensions with their sizes, its links' maps, bandwidths
    /// and latencies given the parameter bindings, its interfaces and its resources (each
    /// indexed by the network's dimensions).
    pub fn build(&self, dimensions: &[(String, u64)], bindings: &[(String, u64)]) -> (r: Result<super::network::NetworkTopology, ArchLoadError>)
        requires
            bindings_ok(bindings@),
        ensures
            match r {
                Ok(t) => network_built(*self, dimensions@, bindings@, t),
                Err(e) => exists|m: Seq<char>| invalid(e, m) && network_error(*self, dimensions@, bindings@, m),
            },
    {
        let axes = x_net_axes(&self.name, &self.dimensions, dimensions)?;
        let (ebind, abind) = x_bindings(bindings);
        let network = super::network::NetworkTopology::new(self.name.as_str(), axes);
        let network = x_add_resources(network, &self.resources);
        let ghost dims = network.dimensions@;
        let network = match x_add_links(network, &self.links, bindings, &abind, &ebind) {
            Ok(t) => t,
            Err(e) => {
                proof {
                    let m = links_spec(self.name@, dims, bindings@, self.links@)->Err_0;
                    assert(network_error(*self, dimensions@, bindings@, m));
                }
                return Err(e);
            },
        };
        let network = match x_add_interfaces(network, &self.interfaces, bindings, &ebind) {
            Ok(t) => t,
            Err(e) => {
                proof {
                    let m = interfaces_spec(self.name@, bindings@, self.interfaces@)->Err_0;
                    assert(network_error(*self, dimensions@, bindings@, m));
                }
                return Err(e);
            },
        };
        Ok(network)
    }
}

// ---------------------------------------------------------------------------
// The chip

/// A memory placement: its axes, and the catalog model it places (its own name when
/// given directly).
pub enum MemoryPlacementYaml {
    Direct(Vec<String>),
    Detailed { model: String, dimensions: Vec<String> },
}

/// The chip file: its name, the catalog file, the parameters, the dimensions, memory and
/// processor placements, resources, networks and scopes.
pub struct ChipYaml {
    pub name: String,
    pub memory: String,
    pub parameters: Vec<String>,
    pub dimensions: Vec<(String, DimensionSizeYaml)>,
    pub memories: Vec<(String, MemoryPlacementYaml)>,
    pub processors: Vec<(String, ProcessorPlacementYaml)>,
    pub resources: Vec<ResourceYaml>,
    pub networks: Vec<NetworkYaml>,
    pub scopes: Vec<ScopeYaml>,
}

/// The bindings are listed by name, each name once, as a map holds them.
pub open spec fn bindings_sorted(b: Seq<(String, u64)>) -> bool {
    forall|i: int, j: int| 0 <= i < j < b.len() ==> seq_lt(b[i].0@, b[j].0@)
}

/// No parameter is declared twice.
pub open spec fn distinct_texts(v: Seq<Seq<char>>) -> bool {
    forall|i: int, j: int| 0 <= i < j < v.len() ==> v[i] != v[j]
}

/// The names of the bindings.
pub open spec fn binding_names(b: Seq<(String, u64)>) -> Seq<Seq<char>> {
    b.map_values(|p: (String, u64)| p.0@)
}

/// The first binding, in order, for a parameter that is not declared.
pub open spec fn unknown_binding(params: Seq<Seq<char>>, b: Seq<(String, u64)>) -> Option<Seq<char>>
    decreases b.len(),
{
    if b.len() == 0 {
        None
    } else if !params.contains(b[0].0@) {
        Some(b[0].0@)
    } else {
        unknown_binding(params, b.drop_first())
    }
}

/// `p` is the least declared parameter, by name, that has no binding.
pub open spec fn least_unbound(params: Seq<Seq<char>>, b: Seq<(String, u64)>, p: Seq<char>) -> bool {
    &&& params.contains(p)
    &&& !binding_names(b).contains(p)
    &&& forall|q: Seq<char>| params.contains(q) && !binding_names(b).contains(q) ==> !seq_lt(q, p)
}

/// The dimensions resolved in order; the first that fails decides the error.
pub open spec fn dims_spec(
    ds: Seq<(String, DimensionSizeYaml)>,
    declared: Seq<Seq<char>>,
    subs: Seq<(Seq<char>, ExprModel)>,
) -> Result<Seq<(Seq<char>, u64)>, Seq<char>>
    decreases ds.len(),
{
    if ds.len() == 0 {
        Ok(Seq::empty())
    } else {
        match dims_spec(ds.drop_last(), declared, subs) {
            Err(e) => Err(e),
            Ok(v) => match resolve_spec(ds.last().1, "dimension '"@ + ds.last().0@ + "'"@, declared, subs) {
                Err(e) => Err(e),
                Ok(x) => Ok(v.push((ds.last().0@, x as u64))),
            },
        }
    }
}

/// What the chip's parameters, catalog and dimensions give, before anything is built
/// from them: the catalog's definitions and the dimension sizes.
pub open spec fn chip_prelude(c: ChipYaml, catalog: MemoryCatalogYaml, b: Seq<(String, u64)>) -> Result<(Seq<DefModel>, Seq<(Seq<char>, u64)>), Seq<char>> {
    let params = texts(c.parameters@);
    if !distinct_texts(params) {
        Err("duplicate architecture parameter"@)
    } else if unknown_binding(params, b) is Some {
        Err("binding supplied for unknown architecture parameter '"@ + unknown_binding(params, b)->0 + "'"@)
    } else if exists|p: Seq<char>| least_unbound(params, b, p) {
        Err("architecture parameter '"@ + (choose|p: Seq<char>| least_unbound(params, b, p)) + "' has no binding"@)
    } else {
        match catalog_spec(catalog.memories@, params, expr_bindings(b)) {
            Err(e) => Err(e),
            Ok(defs) => match dims_spec(c.dimensions@, params, expr_bindings(b)) {
                Err(e) => Err(e),
                Ok(dims) => Ok((defs, dims)),
            },
        }
    }
}

/// The processor definition files of the placements, each once, in order of first use.
pub open spec fn definition_files(ps: Seq<(String, ProcessorPlacementYaml)>) -> Seq<Seq<char>>
    decreases ps.len(),
{
    if ps.len() == 0 { Seq::empty() } else { add_distinct(definition_files(ps.drop_last()), ps.last().1.definition@) }
}

/// The dimension sizes as named sizes.
pub open spec fn dims_list(c: ChipYaml, dims: Seq<(Seq<char>, u64)>) -> Seq<(String, u64)> {
    Seq::new(dims.len(), |k: int| (c.dimensions@[k].0, dims[k].1))
}

pub open spec fn placement_model(m: (String, MemoryPlacementYaml)) -> (Seq<char>, Seq<char>, Seq<Seq<char>>) {
    match m.1 {
        MemoryPlacementYaml::Direct(d) => (m.0@, m.0@, texts(d@)),
        MemoryPlacementYaml::Detailed { model, dimensions } => (m.0@, model@, texts(dimensions@)),
    }
}

pub open spec fn builder_placement(p: (String, String, Vec<String>)) -> (Seq<char>, Seq<char>, Seq<Seq<char>>) {
    (p.0@, p.1@, texts(p.2@))
}

/// The connection is the placement's.
pub open spec fn connection_built(p: ProcessorPlacementYaml, c: super::processor::Connection) -> bool {
    &&& texts(c.domain@) == texts(p.domain@)
    &&& c.inputs@.map_values(|q: super::processor::ConnectionPort| port_pair(q)) == p.inputs@.map_values(|q: (String, MemoryEndpoint)| pair_model(q))
    &&& c.outputs@.map_values(|q: super::processor::ConnectionPort| port_pair(q)) == p.outputs@.map_values(|q: (String, MemoryEndpoint)| pair_model(q))
    &&& texts(c.resources@) == texts(p.resources@)
}

/// The scope is the YAML scope's.
pub open spec fn scope_built(y: ScopeYaml, s: super::scope::Scope) -> bool {
    &&& s.name@ == y.name@
    &&& opt_text(s.parent) == opt_text(y.parent)
    &&& texts(s.axes@) == texts(y.dimensions@)
    &&& texts(s.memories@) == texts(y.memories@)
    &&& texts(s.processors@) == texts(y.processors@)
    &&& texts(s.networks@) == texts(y.networks@)
    &&& texts(s.resources@) == texts(y.resources@)
}

/// The builder holds everything the chip describes: its dimensions and catalog as the
/// prelude resolved them, its placements, the loaded processor definitions in order of
/// first use, each placement connected to the definition of its file, and its resources,
/// networks and scopes built.
pub open spec fn chip_assembled(
    c: ChipYaml,
    defs: Seq<DefModel>,
    dims: Seq<(Seq<char>, u64)>,
    loaded: Seq<super::processor::ProcessorDefinition>,
    b: Seq<(String, u64)>,
    a: super::builder::ArchitectureBuilder,
) -> bool {
    let files = definition_files(c.processors@);
    &&& a.name@ == c.name@
    &&& axes_pairs(a.dimensions@) == dims
    &&& defs_model(a.memory_definitions@) == defs
    &&& a.placements@.map_values(|p: (String, String, Vec<String>)| builder_placement(p))
        == c.memories@.map_values(|m: (String, MemoryPlacementYaml)| placement_model(m))
    &&& a.processor_definitions@ == loaded
    &&& a.connections@.len() == c.processors@.len()
    &&& forall|k: int| 0 <= k < a.connections@.len() ==> {
        &&& (#[trigger] a.connections@[k]).0@ == c.processors@[k].0@
        &&& a.connections@[k].1@ == loaded[position_of(files, c.processors@[k].1.definition@)].name@
        &&& connection_built(c.processors@[k].1, a.connections@[k].2)
    }
    &&& a.resources@.len() == c.resources@.len()
    &&& forall|k: int| 0 <= k < a.resources@.len() ==> {
        &&& (#[trigger] a.resources@[k]).name@ == c.resources@[k].name@
        &&& a.resources@[k].capacity == c.resources@[k].capacity
        &&& a.resources@[k].indices@.len() == 0
    }
    &&& a.networks@.len() == c.networks@.len()
    &&& forall|k: int| 0 <= k < a.networks@.len() ==> network_built(c.networks@[k], dims_list(c, dims), b, #[trigger] a.networks@[k])
    &&& a.scopes@.len() == c.scopes@.len()
    &&& forall|k: int| 0 <= k < a.scopes@.len() ==> scope_built(c.scopes@[k], #[trigger] a.scopes@[k])
}

/// Everything the YAML may hold as numbers fits the expressions built from it.
pub open spec fn chip_literals_ok(c: ChipYaml, catalog: MemoryCatalogYaml, b: Seq<(String, u64)>) -> bool {
    &&& catalog_literals_ok(catalog.memories@)
    &&& forall|k: int| 0 <= k < c.dimensions@.len() ==> literal_ok(#[trigger] c.dimensions@[k].1)
    &&& bindings_ok(b)
}

pub open spec fn loaded_defs(v: Seq<Result<super::processor::ProcessorDefinition, ArchLoadError>>) -> Seq<super::processor::ProcessorDefinition> {
    v.map_values(|r: Result<super::processor::ProcessorDefinition, ArchLoadError>| r->Ok_0)
}

/// Some network is built from `n`.
pub open spec fn network_builds(n: NetworkYaml, dims: Seq<(String, u64)>, b: Seq<(String, u64)>) -> bool {
    exists|t: super::network::NetworkTopology| network_built(n, dims, b, t)
}

/// The networks before `k` build, and network `k` fails with the error `e`.
pub open spec fn network_fails_at(c: ChipYaml, dims: Seq<(Seq<char>, u64)>, b: Seq<(String, u64)>, e: ArchLoadError, k: int) -> bool {
    &&& 0 <= k < c.networks@.len()
    &&& forall|j: int| 0 <= j < k ==> network_builds(#[trigger] c.networks@[j], dims_list(c, dims), b)
    &&& exists|m: Seq<char>| invalid(e, m) && network_error(c.networks@[k], dims_list(c, dims), b, m)
}

/// How building fails once the prelude holds: the first network that cannot be built,
/// else the first processor definition that could not be loaded, else the builder's
/// refusal of what was assembled, with the message of the builder's error.
pub open spec fn chip_failure(
    c: ChipYaml,
    defs: Seq<DefModel>,
    dims: Seq<(Seq<char>, u64)>,
    loaded: Seq<Result<super::processor::ProcessorDefinition, ArchLoadError>>,
    b: Seq<(String, u64)>,
    e: ArchLoadError,
) -> bool {
    ||| exists|k: int| #[trigger] network_fails_at(c, dims, b, e, k)
    ||| (forall|j: int| 0 <= j < c.networks@.len() ==> network_builds(#[trigger] c.networks@[j], dims_list(c, dims), b))
        && exists|k: int| 0 <= k < loaded.len() && loaded[k] is Err && (forall|j: int| 0 <= j < k ==> (#[trigger] loaded[j]) is Ok) && e == loaded[k]->Err_0
    ||| (forall|j: int| 0 <= j < loaded.len() ==> (#[trigger] loaded[j]) is Ok) && e is Invalid
        && exists|a: super::builder::ArchitectureBuilder| chip_assembled(c, defs, dims, loaded_defs(loaded), b, a) && !super::builder::buildable(a)
            && (super::builder::build_error(a) matches Some(x) ==> e->Invalid_0@ == super::architecture::arch_error_text(x))
}

fn x_definition_files(ps: &Vec<(String, ProcessorPlacementYaml)>) -> (r: Vec<String>)
    ensures
        texts(r@) == definition_files(ps@),
{
    let mut out: Vec<String> = Vec::new();
    let mut i: usize = 0;
    proof { assert(ps@.take(0) =~= Seq::<(String, ProcessorPlacementYaml)>::empty()); }
    while i < ps.len()
        invariant
            i <= ps@.len(),
            texts(out@) == definition_files(ps@.take(i as int)),
        decreases ps.len() - i,
    {
        proof {
            assert(ps@.take(i + 1).drop_last() =~= ps@.take(i as int));
            assert(ps@.take(i + 1).last() == ps@[i as int]);
        }
        let t = &ps[i].1.definition;
        if !crate::math::checked::contains_text(out.as_slice(), t.as_str()) {
            let ghost before = out@;
            out.push(t.clone());
            proof { assert(texts(out@) =~= texts(before).push(t@)); }
        }
        i += 1;
    }
    proof { assert(ps@.take(ps@.len() as int) =~= ps@); }
    out
}

impl ChipYaml {
    /// The processor definition files the placements use, each once, in order of first
    /// use: the files to load before building.
    pub fn definition_files(&self) -> (r: Vec<String>)
        ensures
            texts(r@) == definition_files(self.processors@),
    {
        x_definition_files(&self.processors)
    }
}

} // verus!
