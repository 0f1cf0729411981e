use vstd::prelude::*;
use crate::order::{rule_c, good_cmp, lemma_rule_good, cmp_rule};

verus! {

/// A value stored in a fact.
#[derive(Clone, Debug, PartialEq, Eq, Hash, PartialOrd, Ord)]
pub enum TypedValue {
    Str(String),
    Int(usize),
    Bool(bool),
}

/// The mathematical value that a `TypedValue` stands for.
pub enum Val {
    Str(Seq<char>),
    Int(usize),
    Bool(bool),
}

impl View for TypedValue {
    type V = Val;

    open spec fn view(&self) -> Val {
        match self {
            TypedValue::Str(s) => Val::Str(s@),
            TypedValue::Int(n) => Val::Int(*n),
            TypedValue::Bool(b) => Val::Bool(*b),
        }
    }
}

/// A ground fact: the values of an atom, without its relation name.
pub type AnonymousGroundAtom = Vec<TypedValue>;

/// The mathematical value of a fact.
pub open spec fn fact_view(f: Seq<TypedValue>) -> Seq<Val> {
    f.map_values(|v: TypedValue| v@)
}

impl TypedValue {
    /// A copy holding the same value.
    pub fn copied(&self) -> (r: TypedValue)
        ensures
            r@ == self@,
    {
        match self {
            TypedValue::Str(s) => TypedValue::Str(s.clone()),
            TypedValue::Int(n) => TypedValue::Int(*n),
            TypedValue::Bool(b) => TypedValue::Bool(*b),
        }
    }

    /// Whether two values are the same.
    pub fn same(&self, other: &TypedValue) -> (r: bool)
        ensures
            r == (self@ == other@),
    {
        match self {
            TypedValue::Str(a) => match other {
                TypedValue::Str(b) => {
                    let r = a.eq(b);
                    r
                },
                _ => false,
            },
            TypedValue::Int(a) => match other {
                TypedValue::Int(b) => *a == *b,
                _ => false,
            },
            TypedValue::Bool(a) => match other {
                TypedValue::Bool(b) => *a == *b,
                _ => false,
            },
        }
    }

    /// The string value of this text.
    pub fn from_text(s: &str) -> (r: TypedValue)
        ensures
            r@ == Val::Str(s@),
    {
        TypedValue::Str(s.to_string())
    }
}

/// A copy of a fact, value by value.
pub fn copy_fact(f: &Vec<TypedValue>) -> (r: Vec<TypedValue>)
    ensures
        fact_view(r@) == fact_view(f@),
{
    let mut r: Vec<TypedValue> = Vec::new();
    let mut i: usize = 0;
    while i < f.len()
        invariant
            i <= f.len(),
            r@.len() == i,
            forall|k: int| 0 <= k < i ==> r@[k]@ == f@[k]@,
        decreases f.len() - i,
    {
        r.push(f[i].copied());
        i = i + 1;
    }
    assert(fact_view(r@) =~= fact_view(f@));
    r
}

/// Whether two facts hold the same values in the same order.
pub fn same_fact(a: &Vec<TypedValue>, b: &Vec<TypedValue>) -> (r: bool)
    ensures
        r == (fact_view(a@) == fact_view(b@)),
{
    if a.len() != b.len() {
        assert(fact_view(a@).len() != fact_view(b@).len());
        return false;
    }
    let mut i: usize = 0;
    while i < a.len()
        invariant
            i <= a.len(),
            a.len() == b.len(),
            forall|k: int| 0 <= k < i ==> a@[k]@ == b@[k]@,
        decreases a.len() - i,
    {
        if !a[i].same(&b[i]) {
            assert(fact_view(a@)[i as int] != fact_view(b@)[i as int]);
            return false;
        }
        i = i + 1;
    }
    assert(fact_view(a@) =~= fact_view(b@));
    true
}


/// A value-inventing term: the function named `name`, applied to the values
/// bound to the variables in `deps`, in that order.
#[derive(Clone, Debug, PartialEq, Eq, Hash, PartialOrd, Ord)]
pub struct SkolemFunction {
    pub name: String,
    pub deps: Vec<String>,
}

/// A position of an atom: a variable, a constant, or a value-inventing term.
#[derive(Clone, Debug, PartialEq, Eq, Hash, PartialOrd, Ord)]
pub enum Term {
    Variable(String),
    Constant(TypedValue),
    Skolemizer(SkolemFunction),
}

/// A relation name and its terms.
#[derive(Clone, Debug, PartialEq, Eq, Hash, PartialOrd, Ord)]
pub struct Atom {
    pub terms: Vec<Term>,
    pub symbol: String,
}

impl Term {
    /// The variable of this name.
    pub fn var(name: &str) -> (r: Term)
        ensures
            r matches Term::Variable(x) && x@ == name@,
    {
        Term::Variable(name.to_owned())
    }

    /// The constant string of this text.
    pub fn text(value: &str) -> (r: Term)
        ensures
            r matches Term::Constant(c) && c@ == Val::Str(value@),
    {
        Term::Constant(TypedValue::from_text(value))
    }

    /// The value-inventing term that applies the function `name` to the
    /// values of `deps`.
    pub fn skolem(name: &str, deps: Vec<String>) -> (r: Term)
        ensures
            r matches Term::Skolemizer(f) && f.name@ == name@ && f.deps == deps,
    {
        Term::Skolemizer(SkolemFunction { name: name.to_owned(), deps })
    }
}

impl Atom {
    /// The atom of relation `symbol` with these terms.
    pub fn new(symbol: &str, terms: Vec<Term>) -> (r: Atom)
        ensures
            r.symbol@ == symbol@,
            r.terms == terms,
    {
        Atom { terms, symbol: symbol.to_owned() }
    }
}

impl Rule {
    /// The rule deriving `head` from `body`; its id is set when it joins a
    /// program.
    pub fn new(head: Atom, body: Vec<Atom>) -> (r: Rule)
        ensures
            r.head == head,
            r.body == body,
            r.id == 0,
    {
        Rule { head, body, id: 0 }
    }
}

/// One position of a query: any value, or exactly this one.
pub enum Matcher {
    Any,
    Constant(TypedValue),
}

/// Whether a matcher accepts a value.
pub open spec fn matcher_accepts(m: Matcher, v: Val) -> bool {
    match m {
        Matcher::Any => true,
        Matcher::Constant(c) => c@ == v,
    }
}

/// Whether a sequence of matchers accepts a fact, position by position.
pub open spec fn pattern_accepts(ms: Seq<Matcher>, f: Seq<Val>) -> bool {
    &&& ms.len() == f.len()
    &&& forall|i: int| 0 <= i < ms.len() ==> matcher_accepts(#[trigger] ms[i], f[i])
}

/// A pattern over the facts of the relation `symbol`.
pub struct Query<'a> {
    pub matchers: Vec<Matcher>,
    pub symbol: &'a str,
}

/// Builds a query one position at a time.
pub struct QueryBuilder<'a> {
    pub query: Query<'a>,
}

impl<'a> QueryBuilder<'a> {
    /// A query over `relation` with no positions yet.
    pub fn new(relation: &'a str) -> (r: Self)
        ensures
            r.query.symbol@ == relation@,
            r.query.matchers@.len() == 0,
    {
        QueryBuilder { query: Query { matchers: Vec::new(), symbol: relation } }
    }

    /// Adds a position that accepts any value.
    pub fn with_any(&mut self)
        ensures
            final(self).query.symbol == old(self).query.symbol,
            final(self).query.matchers@ == old(self).query.matchers@.push(Matcher::Any),
    {
        self.query.matchers.push(Matcher::Any);
    }

    /// Adds a position that accepts exactly `value`.
    pub fn with_constant(&mut self, value: TypedValue)
        ensures
            final(self).query.symbol == old(self).query.symbol,
            final(self).query.matchers@ == old(self).query.matchers@.push(Matcher::Constant(value)),
    {
        self.query.matchers.push(Matcher::Constant(value));
    }

    /// The query built so far.
    pub fn build(self) -> (r: Query<'a>)
        ensures
            r == self.query,
    {
        self.query
    }
}

/// A head atom derived from a conjunction of body atoms.
#[derive(Clone, Debug, PartialEq, Eq, Hash, PartialOrd, Ord)]
pub struct Rule {
    pub head: Atom,
    pub body: Vec<Atom>,
    pub id: usize,
}

/// Rules, each with its position as id.
#[derive(Clone, Debug, PartialEq, Eq, Hash, PartialOrd, Ord)]
pub struct Program {
    pub inner: Vec<Rule>,
}

/// The mathematical value of a term.
pub enum TermV {
    Var(Seq<char>),
    Const(Val),
    Skolem(Seq<char>, Seq<Seq<char>>),
}

pub open spec fn names_v(v: Seq<String>) -> Seq<Seq<char>> {
    v.map_values(|x: String| x@)
}

pub open spec fn term_v(t: Term) -> TermV {
    match t {
        Term::Variable(x) => TermV::Var(x@),
        Term::Constant(c) => TermV::Const(c@),
        Term::Skolemizer(f) => TermV::Skolem(f.name@, names_v(f.deps@)),
    }
}

pub open spec fn terms_v(ts: Seq<Term>) -> Seq<TermV> {
    ts.map_values(|t: Term| term_v(t))
}

/// The mathematical value of an atom: its terms and its relation name.
pub open spec fn atom_v(a: Atom) -> (Seq<TermV>, Seq<char>) {
    (terms_v(a.terms@), a.symbol@)
}

pub open spec fn atoms_v(body: Seq<Atom>) -> Seq<(Seq<TermV>, Seq<char>)> {
    body.map_values(|a: Atom| atom_v(a))
}

/// The mathematical value of a rule: its head and body, without its id.
pub open spec fn rule_v(r: Rule) -> ((Seq<TermV>, Seq<char>), Seq<(Seq<TermV>, Seq<char>)>) {
    (atom_v(r.head), atoms_v(r.body@))
}

/// Some rule of `s` has the head and body of `x`.
pub open spec fn has_rule(s: Seq<Rule>, x: Rule) -> bool {
    exists|j: int| 0 <= j < s.len() && rule_v(#[trigger] s[j]) == rule_v(x)
}

/// Some rule of `s` has exactly the head and body of `x`.
pub open spec fn has_parts(s: Seq<Rule>, x: Rule) -> bool {
    exists|j: int| 0 <= j < s.len() && (#[trigger] s[j]).head == x.head && s[j].body == x.body
}

/// Adds a rule to a list kept strictly increasing by `rule_c`, unless a rule
/// with the same head and body is already there.
pub fn insert_sorted(sorted: &mut Vec<Rule>, rule: Rule)
    requires
        good_cmp(rule_c()),
        forall|a: int, b: int| 0 <= a < b < old(sorted)@.len() ==> rule_c()(rule_v(#[trigger] old(sorted)@[a]), rule_v(#[trigger] old(sorted)@[b])) < 0,
    ensures
        forall|a: int, b: int| 0 <= a < b < final(sorted)@.len() ==> rule_c()(rule_v(#[trigger] final(sorted)@[a]), rule_v(#[trigger] final(sorted)@[b])) < 0,
        has_rule(final(sorted)@, rule),
        forall|x: Rule| #[trigger] has_rule(old(sorted)@, x) ==> has_rule(final(sorted)@, x),
        forall|j: int| 0 <= j < final(sorted)@.len() ==> has_parts(old(sorted)@, #[trigger] final(sorted)@[j])
            || (final(sorted)@[j].head == rule.head && final(sorted)@[j].body == rule.body),
{
    let mut q: usize = 0;
    while q < sorted.len() && cmp_rule(&sorted[q], &rule) < 0
        invariant
            q <= sorted@.len(),
            forall|t: int| 0 <= t < q ==> rule_c()(rule_v(#[trigger] sorted@[t]), rule_v(rule)) < 0,
        decreases sorted.len() - q,
    {
        q = q + 1;
    }
    let ghost before = sorted@;
    if q < sorted.len() && cmp_rule(&sorted[q], &rule) == 0 {
        proof {
            assert(rule_v(sorted@[q as int]) == rule_v(rule));
            assert forall|j: int| 0 <= j < sorted@.len() implies has_parts(before, #[trigger] sorted@[j]) by {}
        }
        return;
    }
    let kept = Rule { head: rule.head, body: rule.body, id: 0 };
    assert(rule_v(kept) == rule_v(rule));
    sorted.insert(q, kept);
    proof {
        assert(sorted@ == before.insert(q as int, kept));
        assert forall|t: int| q < t < sorted@.len() implies rule_c()(rule_v(kept), rule_v(#[trigger] sorted@[t])) < 0 by {
            assert(sorted@[t] == before[t - 1]);
            assert(rule_c()(rule_v(before[q as int]), rule_v(rule)) != 0);
            assert(rule_c()(rule_v(rule), rule_v(before[q as int])) < 0);
            if t - 1 > q {
                assert(rule_c()(rule_v(before[q as int]), rule_v(before[t - 1])) < 0);
            }
        }
        assert forall|a: int, b: int| 0 <= a < b < sorted@.len() implies rule_c()(rule_v(#[trigger] sorted@[a]), rule_v(#[trigger] sorted@[b])) < 0 by {
            if b < q {
                assert(sorted@[a] == before[a] && sorted@[b] == before[b]);
            } else if b == q {
                assert(sorted@[a] == before[a]);
            } else if a == q {
                assert(rule_c()(rule_v(kept), rule_v(sorted@[b])) < 0);
            } else if a < q {
                assert(sorted@[a] == before[a] && sorted@[b] == before[b - 1]);
                assert(rule_c()(rule_v(before[a]), rule_v(rule)) < 0);
                assert(rule_c()(rule_v(rule), rule_v(sorted@[b])) < 0);
            } else {
                assert(sorted@[a] == before[a - 1] && sorted@[b] == before[b - 1]);
            }
        }
        assert(sorted@[q as int] == kept);
        assert forall|x: Rule| #[trigger] has_rule(before, x) implies has_rule(sorted@, x) by {
            let j = choose|j: int| 0 <= j < before.len() && rule_v(#[trigger] before[j]) == rule_v(x);
            if j < q {
                assert(sorted@[j] == before[j]);
            } else {
                assert(sorted@[j + 1] == before[j]);
            }
        }
        assert forall|j: int| 0 <= j < sorted@.len() implies has_parts(before, #[trigger] sorted@[j])
            || (sorted@[j].head == rule.head && sorted@[j].body == rule.body) by {
            if j < q {
                assert(sorted@[j] == before[j]);
            } else if j > q {
                assert(sorted@[j] == before[j - 1]);
            }
        }
    }
}

impl Program {
    /// Each rule's id is its position.
    pub open spec fn ids_dense(&self) -> bool {
        forall|i: int| 0 <= i < self.inner@.len() ==> #[trigger] self.inner@[i].id == i
    }

    /// A program of these rules, sorted by `rule_c` with duplicates dropped,
    /// each rule's id set to its position. The result depends on the rules
    /// given only through their set of distinct rules.
    pub fn from_rules(rules: Vec<Rule>) -> (r: Program)
        ensures
            r.ids_dense(),
            forall|a: int, b: int| 0 <= a < b < r.inner@.len() ==> rule_c()(rule_v(#[trigger] r.inner@[a]), rule_v(#[trigger] r.inner@[b])) < 0,
            forall|i: int| 0 <= i < rules@.len() ==> has_rule(r.inner@, #[trigger] rules@[i]),
            forall|j: int| 0 <= j < r.inner@.len() ==> has_parts(rules@, #[trigger] r.inner@[j]),
    {
        proof {
            lemma_rule_good();
        }
        let mut rest = rules;
        let mut sorted: Vec<Rule> = Vec::new();
        let ghost orig = rest@;
        let n = rest.len();
        let mut k: usize = 0;
        while k < n
            invariant
                good_cmp(rule_c()),
                k <= n,
                n == orig.len(),
                orig == rules@,
                rest@ == orig.subrange(k as int, n as int),
                forall|a: int, b: int| 0 <= a < b < sorted@.len() ==> rule_c()(rule_v(#[trigger] sorted@[a]), rule_v(#[trigger] sorted@[b])) < 0,
                forall|i: int| 0 <= i < k ==> has_rule(sorted@, #[trigger] orig[i]),
                forall|j: int| 0 <= j < sorted@.len() ==> has_parts(orig, #[trigger] sorted@[j]),
            decreases n - k,
        {
            let rule = rest.remove(0);
            assert(rule == orig[k as int]);
            let ghost before = sorted@;
            insert_sorted(&mut sorted, rule);
            proof {
                assert forall|i: int| 0 <= i < k + 1 implies has_rule(sorted@, #[trigger] orig[i]) by {
                    if i < k {
                        assert(has_rule(before, orig[i]));
                    }
                }
                assert forall|j: int| 0 <= j < sorted@.len() implies has_parts(orig, #[trigger] sorted@[j]) by {
                    if !(sorted@[j].head == orig[k as int].head && sorted@[j].body == orig[k as int].body) {
                        assert(has_parts(before, sorted@[j]));
                        let x = choose|x: int| 0 <= x < before.len() && (#[trigger] before[x]).head == sorted@[j].head && before[x].body == sorted@[j].body;
                        assert(has_parts(orig, before[x]));
                    }
                }
            }
            k = k + 1;
        }
        let mut inner: Vec<Rule> = Vec::new();
        let ghost all = sorted@;
        let m = sorted.len();
        let mut t: usize = 0;
        while t < m
            invariant
                t <= m,
                m == all.len(),
                sorted@ == all.subrange(t as int, m as int),
                inner@.len() == t,
                forall|x: int| 0 <= x < t ==> #[trigger] inner@[x].id == x && rule_v(inner@[x]) == rule_v(all[x]) && inner@[x].head
                    == all[x].head && inner@[x].body == all[x].body,
            decreases m - t,
        {
            let rule = sorted.remove(0);
            assert(rule == all[t as int]);
            let kept = Rule { head: rule.head, body: rule.body, id: t };
            inner.push(kept);
            t = t + 1;
        }
        let r = Program { inner };
        assert forall|i: int| 0 <= i < r.inner@.len() implies #[trigger] r.inner@[i].id == i by {
            assert(inner@[i].id == i);
        }
        assert forall|a: int, b: int| 0 <= a < b < r.inner@.len() implies rule_c()(rule_v(#[trigger] r.inner@[a]), rule_v(#[trigger] r.inner@[b])) < 0 by {
            assert(inner@[a].id == a && inner@[b].id == b);
        }
        assert forall|i: int| 0 <= i < rules@.len() implies has_rule(r.inner@, #[trigger] rules@[i]) by {
            assert(has_rule(all, orig[i]));
            let j = choose|j: int| 0 <= j < all.len() && rule_v(#[trigger] all[j]) == rule_v(orig[i]);
            assert(inner@[j].id == j);
        }
        assert forall|j: int| 0 <= j < r.inner@.len() implies has_parts(rules@, #[trigger] r.inner@[j]) by {
            assert(inner@[j].id == j);
            assert(has_parts(orig, all[j]));
        }
        r
    }
}

/// The functions that value-inventing terms name. `apply` returns `None` for a
/// name it does not know or arguments it does not accept.
pub trait SkolemFunctions {
    fn apply(&self, name: &String, args: &Vec<TypedValue>) -> Option<TypedValue>;
}

/// A table with no functions in it.
pub struct NoFunctions;

impl SkolemFunctions for NoFunctions {
    fn apply(&self, name: &String, args: &Vec<TypedValue>) -> (r: Option<TypedValue>) {
        None
    }
}

/// The variable `x` stands in some body atom.
pub open spec fn body_has_var(body: Seq<Atom>, x: Seq<char>) -> bool {
    exists|k: int, j: int|
        0 <= k < body.len() && 0 <= j < body[k].terms@.len() && (#[trigger] body[k].terms@[j] matches Term::Variable(y) && y@ == x)
}

/// Every variable of the rule's head stands in its body.
pub open spec fn head_safe(r: Rule) -> bool {
    forall|i: int| 0 <= i < r.head.terms@.len() ==> match #[trigger] r.head.terms@[i] {
        Term::Variable(x) => body_has_var(r.body@, x@),
        _ => true,
    }
}

/// Whether the variable stands in some body atom.
pub fn body_mentions(body: &Vec<Atom>, x: &String) -> (r: bool)
    ensures
        r == body_has_var(body@, x@),
{
    let mut k: usize = 0;
    while k < body.len()
        invariant
            k <= body@.len(),
            forall|a: int, j: int|
                0 <= a < k && 0 <= j < body@[a].terms@.len() ==> !(#[trigger] body@[a].terms@[j] matches Term::Variable(y) && y@ == x@),
        decreases body.len() - k,
    {
        let ts = &body[k].terms;
        let mut j: usize = 0;
        while j < ts.len()
            invariant
                k < body@.len(),
                *ts == body@[k as int].terms,
                j <= ts@.len(),
                forall|a: int, q: int|
                    (0 <= a < k && 0 <= q < body@[a].terms@.len()) || (a == k && 0 <= q < j) ==> !(#[trigger] body@[a].terms@[q] matches Term::Variable(y) && y@ == x@),
            decreases ts.len() - j,
        {
            match &ts[j] {
                Term::Variable(y) => {
                    if y.eq(x) {
                        assert(body@[k as int].terms@[j as int] matches Term::Variable(y) && y@ == x@);
                        return true;
                    }
                },
                _ => {},
            }
            j = j + 1;
        }
        k = k + 1;
    }
    false
}

impl Rule {
    /// Whether every variable of the head stands in the body.
    pub fn is_head_safe(&self) -> (r: bool)
        ensures
            r == head_safe(*self),
    {
        let mut i: usize = 0;
        while i < self.head.terms.len()
            invariant
                i <= self.head.terms@.len(),
                forall|q: int| 0 <= q < i ==> match #[trigger] self.head.terms@[q] {
                    Term::Variable(x) => body_has_var(self.body@, x@),
                    _ => true,
                },
            decreases self.head.terms.len() - i,
        {
            match &self.head.terms[i] {
                Term::Variable(x) => {
                    if !body_mentions(&self.body, x) {
                        return false;
                    }
                },
                _ => {},
            }
            i = i + 1;
        }
        true
    }
}

} // verus!
