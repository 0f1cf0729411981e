use vstd::prelude::*;
use crate::syntax::{TypedValue, Val, Term, Atom, Rule, SkolemFunctions, fact_view, head_safe, body_has_var};
use crate::engine::storage::{RelationStorage, fact_set};

verus! {

/// Variable bindings, later ones first when looked up.
pub type Bindings = Vec<(String, TypedValue)>;

/// The value bound to `x`, the latest binding of it winning.
pub open spec fn bound(b: Seq<(String, TypedValue)>, x: Seq<char>) -> Option<Val>
    decreases b.len(),
{
    if b.len() == 0 {
        None
    } else if b.last().0@ == x {
        Some(b.last().1@)
    } else {
        bound(b.drop_last(), x)
    }
}

/// `b2` keeps every binding of `b1`.
pub open spec fn extends(b2: Seq<(String, TypedValue)>, b1: Seq<(String, TypedValue)>) -> bool {
    forall|x: Seq<char>| #[trigger] bound(b1, x) is Some ==> bound(b2, x) == bound(b1, x)
}

/// A term agrees with a value under bindings: a variable is bound to it, a
/// constant equals it. A value-inventing term is not matched.
pub open spec fn term_agrees(t: Term, v: Val, b: Seq<(String, TypedValue)>) -> bool {
    match t {
        Term::Variable(x) => bound(b, x@) == Some(v),
        Term::Constant(c) => c@ == v,
        Term::Skolemizer(_) => true,
    }
}

/// An atom's terms agree with a fact, position by position.
pub open spec fn atom_agrees(ts: Seq<Term>, f: Seq<Val>, b: Seq<(String, TypedValue)>) -> bool {
    &&& ts.len() == f.len()
    &&& forall|i: int| 0 <= i < ts.len() ==> term_agrees(#[trigger] ts[i], f[i], b)
}

/// A term agrees with a value under an assignment of values to variables.
pub open spec fn term_under(t: Term, v: Val, s: Map<Seq<char>, Val>) -> bool {
    match t {
        Term::Variable(x) => s.contains_key(x@) && s[x@] == v,
        Term::Constant(c) => c@ == v,
        Term::Skolemizer(_) => true,
    }
}

/// An atom's terms agree with a fact under an assignment.
pub open spec fn atom_under(ts: Seq<Term>, f: Seq<Val>, s: Map<Seq<char>, Val>) -> bool {
    &&& ts.len() == f.len()
    &&& forall|i: int| 0 <= i < ts.len() ==> term_under(#[trigger] ts[i], f[i], s)
}

/// Every binding agrees with the assignment.
pub open spec fn consistent(b: Seq<(String, TypedValue)>, s: Map<Seq<char>, Val>) -> bool {
    forall|x: Seq<char>| #[trigger] bound(b, x) is Some ==> s.contains_key(x) && bound(b, x) == Some(s[x])
}

/// The fact that head terms without value-inventing terms denote under an
/// assignment.
pub open spec fn head_fact(ts: Seq<Term>, s: Map<Seq<char>, Val>) -> Seq<Val> {
    Seq::new(
        ts.len(),
        |i: int|
            match ts[i] {
                Term::Variable(x) => s[x@],
                Term::Constant(c) => c@,
                Term::Skolemizer(_) => Val::Bool(false),
            },
    )
}

pub proof fn lemma_extends_trans(
    b3: Seq<(String, TypedValue)>,
    b2: Seq<(String, TypedValue)>,
    b1: Seq<(String, TypedValue)>,
)
    requires
        extends(b3, b2),
        extends(b2, b1),
    ensures
        extends(b3, b1),
{
    assert forall|x: Seq<char>| #[trigger] bound(b1, x) is Some implies bound(b3, x) == bound(b1, x) by {
        assert(bound(b2, x) is Some);
    }
}

pub proof fn lemma_push_fresh(b: Seq<(String, TypedValue)>, p: (String, TypedValue))
    requires
        bound(b, p.0@) is None,
    ensures
        extends(b.push(p), b),
        bound(b.push(p), p.0@) == Some(p.1@),
{
    assert(b.push(p).drop_last() =~= b);
}

pub proof fn lemma_agrees_extends(
    ts: Seq<Term>,
    f: Seq<Val>,
    b2: Seq<(String, TypedValue)>,
    b1: Seq<(String, TypedValue)>,
)
    requires
        atom_agrees(ts, f, b1),
        extends(b2, b1),
    ensures
        atom_agrees(ts, f, b2),
{
    assert forall|i: int| 0 <= i < ts.len() implies term_agrees(#[trigger] ts[i], f[i], b2) by {
        match ts[i] {
            Term::Variable(x) => {
                assert(bound(b1, x@) is Some);
            },
            _ => {},
        }
    }
}

/// The value bound to `x`, if any.
pub fn lookup<'a>(b: &'a Bindings, x: &String) -> (r: Option<&'a TypedValue>)
    ensures
        r matches Some(v) ==> bound(b@, x@) == Some(v@),
        r is None ==> bound(b@, x@) is None,
{
    let mut i: usize = b.len();
    assert(b@.subrange(0, i as int) =~= b@);
    while i > 0
        invariant
            i <= b@.len(),
            bound(b@, x@) == bound(b@.subrange(0, i as int), x@),
        decreases i,
    {
        proof {
            assert(b@.subrange(0, i as int).drop_last() =~= b@.subrange(0, i - 1));
        }
        if b[i - 1].0.eq(x) {
            return Some(&b[i - 1].1);
        }
        i = i - 1;
    }
    None
}

/// Unifies an atom's terms with a fact, binding the variables not bound yet.
/// On success the new bindings keep the old ones and the atom agrees with the
/// fact under them.
pub fn unify(ts: &Vec<Term>, fact: &Vec<TypedValue>, b: &mut Bindings) -> (r: bool)
    ensures
        r ==> atom_agrees(ts@, fact_view(fact@), final(b)@),
        r ==> extends(final(b)@, old(b)@),
        forall|s: Map<Seq<char>, Val>|
            atom_under(ts@, fact_view(fact@), s) && #[trigger] consistent(old(b)@, s) ==> r && consistent(final(b)@, s),
{
    if ts.len() != fact.len() {
        assert forall|s: Map<Seq<char>, Val>| !atom_under(ts@, fact_view(fact@), s) by {}
        return false;
    }
    let ghost b0 = b@;
    let mut j: usize = 0;
    while j < ts.len()
        invariant
            j <= ts@.len(),
            ts@.len() == fact@.len(),
            extends(b@, b0),
            b0 == old(b)@,
            forall|k: int| 0 <= k < j ==> term_agrees(#[trigger] ts@[k], fact@[k]@, b@),
            forall|s: Map<Seq<char>, Val>|
                atom_under(ts@, fact_view(fact@), s) && #[trigger] consistent(b0, s) ==> consistent(b@, s),
        decreases ts.len() - j,
    {
        let ghost before = b@;
        match &ts[j] {
            Term::Variable(x) => {
                match lookup(b, x) {
                    Some(v) => {
                        if !v.same(&fact[j]) {
                            proof {
                                assert forall|s: Map<Seq<char>, Val>|
                                    !(atom_under(ts@, fact_view(fact@), s) && #[trigger] consistent(b0, s)) by {
                                    if atom_under(ts@, fact_view(fact@), s) && consistent(b0, s) {
                                        assert(consistent(b@, s));
                                        assert(term_under(ts@[j as int], fact_view(fact@)[j as int], s));
                                        assert(bound(b@, x@) is Some);
                                        assert(v@ == s[x@]);
                                    }
                                }
                            }
                            return false;
                        }
                    },
                    None => {
                        let p = (x.clone(), fact[j].copied());
                        b.push(p);
                        proof {
                            assert forall|s: Map<Seq<char>, Val>|
                                atom_under(ts@, fact_view(fact@), s) && #[trigger] consistent(b0, s) implies consistent(b@, s) by {
                                assert(consistent(before, s));
                                assert(term_under(ts@[j as int], fact_view(fact@)[j as int], s));
                                assert forall|y: Seq<char>| #[trigger] bound(b@, y) is Some implies s.contains_key(y) && bound(b@, y) == Some(s[y]) by {
                                    assert(b@.drop_last() =~= before);
                                    if y != p.0@ {
                                        assert(bound(b@, y) == bound(before, y));
                                    }
                                }
                            }
                            lemma_push_fresh(before, p);
                            lemma_extends_trans(b@, before, b0);
                            assert forall|k: int| 0 <= k < j implies term_agrees(
                                #[trigger] ts@[k],
                                fact@[k]@,
                                b@,
                            ) by {
                                assert(term_agrees(ts@[k], fact@[k]@, before));
                                match ts@[k] {
                                    Term::Variable(y) => {
                                        assert(bound(before, y@) is Some);
                                    },
                                    _ => {},
                                }
                            }
                        }
                    },
                }
            },
            Term::Constant(c) => {
                if !c.same(&fact[j]) {
                    proof {
                        assert forall|s: Map<Seq<char>, Val>|
                            !(atom_under(ts@, fact_view(fact@), s) && #[trigger] consistent(b0, s)) by {
                            if atom_under(ts@, fact_view(fact@), s) {
                                assert(term_under(ts@[j as int], fact_view(fact@)[j as int], s));
                            }
                        }
                    }
                    return false;
                }
            },
            Term::Skolemizer(_) => {},
        }
        j = j + 1;
    }
    proof {
        assert forall|i: int| 0 <= i < ts@.len() implies term_agrees(
            #[trigger] ts@[i],
            fact_view(fact@)[i],
            b@,
        ) by {
            assert(term_agrees(ts@[i], fact@[i]@, b@));
        }
    }
    true
}


/// No value-inventing term stands among the terms.
pub open spec fn plain_terms(ts: Seq<Term>) -> bool {
    forall|i: int| 0 <= i < ts.len() ==> !((#[trigger] ts[i]) is Skolemizer)
}

/// Every variable among the terms is bound.
pub open spec fn all_bound(ts: Seq<Term>, b: Seq<(String, TypedValue)>) -> bool {
    forall|i: int| 0 <= i < ts.len() ==> match #[trigger] ts[i] {
        Term::Variable(x) => bound(b, x@) is Some,
        _ => true,
    }
}

/// A copy of the bindings.
pub fn copy_bindings(b: &Bindings) -> (r: Bindings)
    ensures
        forall|x: Seq<char>| #[trigger] bound(r@, x) == bound(b@, x),
{
    let mut r: Bindings = Vec::new();
    let mut i: usize = 0;
    while i < b.len()
        invariant
            i <= b@.len(),
            r@.len() == i,
            forall|k: int| 0 <= k < i ==> (#[trigger] r@[k]).0@ == b@[k].0@ && r@[k].1@ == b@[k].1@,
        decreases b.len() - i,
    {
        r.push((b[i].0.clone(), b[i].1.copied()));
        i = i + 1;
    }
    proof {
        lemma_bound_same(r@, b@);
    }
    r
}

pub proof fn lemma_bound_same(r: Seq<(String, TypedValue)>, b: Seq<(String, TypedValue)>)
    requires
        r.len() == b.len(),
        forall|k: int| 0 <= k < b.len() ==> (#[trigger] r[k]).0@ == b[k].0@ && r[k].1@ == b[k].1@,
    ensures
        forall|x: Seq<char>| #[trigger] bound(r, x) == bound(b, x),
    decreases b.len(),
{
    if b.len() > 0 {
        let r2 = r.drop_last();
        let b2 = b.drop_last();
        assert forall|k: int| 0 <= k < b2.len() implies (#[trigger] r2[k]).0@ == b2[k].0@ && r2[k].1@ == b2[k].1@ by {
            assert(r[k].0@ == b[k].0@);
        }
        lemma_bound_same(r2, b2);
        assert(r.last().0@ == b.last().0@ && r.last().1@ == b.last().1@);
        assert forall|x: Seq<char>| #[trigger] bound(r, x) == bound(b, x) by {
            assert(bound(r2, x) == bound(b2, x));
        }
    }
}

/// Every dependency of every value-inventing term among the terms is bound.
pub open spec fn deps_bound(ts: Seq<Term>, b: Seq<(String, TypedValue)>) -> bool {
    forall|i: int| 0 <= i < ts.len() ==> match #[trigger] ts[i] {
        Term::Skolemizer(f) => forall|e: int| 0 <= e < f.deps@.len() ==> bound(b, (#[trigger] f.deps@[e])@) is Some,
        _ => true,
    }
}

/// Builds the fact that a head atom denotes under the bindings. Fails where a
/// variable is unbound or a value-inventing term cannot be computed.
pub fn build_head<F: SkolemFunctions>(ts: &Vec<Term>, b: &Bindings, funcs: &F) -> (r: Result<Vec<TypedValue>, String>)
    ensures
        r matches Ok(f) ==> atom_agrees(ts@, fact_view(f@), b@),
        plain_terms(ts@) && all_bound(ts@, b@) ==> r is Ok,
        !all_bound(ts@, b@) ==> r is Err,
        !deps_bound(ts@, b@) ==> r is Err,
        r is Ok ==> all_bound(ts@, b@) && deps_bound(ts@, b@),
        r matches Ok(f) ==> forall|s: Map<Seq<char>, Val>|
            #[trigger] consistent(b@, s) && plain_terms(ts@) ==> fact_view(f@) == head_fact(ts@, s),
{
    let mut out: Vec<TypedValue> = Vec::new();
    let mut j: usize = 0;
    while j < ts.len()
        invariant
            j <= ts@.len(),
            out@.len() == j,
            forall|k: int| 0 <= k < j ==> term_agrees(#[trigger] ts@[k], out@[k]@, b@),
            forall|k: int| 0 <= k < j ==> match #[trigger] ts@[k] {
                Term::Variable(x) => bound(b@, x@) is Some,
                _ => true,
            },
            forall|k: int| 0 <= k < j ==> match #[trigger] ts@[k] {
                Term::Skolemizer(f) => forall|e: int| 0 <= e < f.deps@.len() ==> bound(b@, (#[trigger] f.deps@[e])@) is Some,
                _ => true,
            },
        decreases ts.len() - j,
    {
        match &ts[j] {
            Term::Variable(x) => {
                match lookup(b, x) {
                    Some(v) => out.push(v.copied()),
                    None => {
                        return Err("a head variable is not bound in the body".to_owned());
                    },
                }
            },
            Term::Constant(c) => out.push(c.copied()),
            Term::Skolemizer(s) => {
                assert(!plain_terms(ts@));
                let mut args: Vec<TypedValue> = Vec::new();
                let mut d: usize = 0;
                while d < s.deps.len()
                    invariant
                        !plain_terms(ts@),
                        j < ts@.len(),
                        ts@[j as int] == Term::Skolemizer(*s),
                        d <= s.deps@.len(),
                        forall|e: int| 0 <= e < d ==> bound(b@, (#[trigger] s.deps@[e])@) is Some,
                    decreases s.deps.len() - d,
                {
                    match lookup(b, &s.deps[d]) {
                        Some(v) => args.push(v.copied()),
                        None => {
                            proof {
                                assert(bound(b@, s.deps@[d as int]@) is None);
                                if deps_bound(ts@, b@) {
                                    assert(match ts@[j as int] {
                                        Term::Skolemizer(f) => forall|e: int| 0 <= e < f.deps@.len() ==> bound(b@, (#[trigger] f.deps@[e])@) is Some,
                                        _ => true,
                                    });
                                    assert(bound(b@, s.deps@[d as int]@) is Some);
                                }
                            }
                            return Err("a function argument is not bound".to_owned());
                        },
                    }
                    d = d + 1;
                }
                match funcs.apply(&s.name, &args) {
                    Some(v) => out.push(v),
                    None => {
                        return Err("a function could not be applied".to_owned());
                    },
                }
            },
        }
        j = j + 1;
    }
    assert forall|i: int| 0 <= i < ts@.len() implies term_agrees(
        #[trigger] ts@[i],
        fact_view(out@)[i],
        b@,
    ) by {
        assert(term_agrees(ts@[i], out@[i]@, b@));
    }
    assert forall|s: Map<Seq<char>, Val>|
        #[trigger] consistent(b@, s) && plain_terms(ts@) implies fact_view(out@) == head_fact(ts@, s) by {
        assert forall|i: int| 0 <= i < ts@.len() implies fact_view(out@)[i] == #[trigger] head_fact(ts@, s)[i] by {
            assert(term_agrees(ts@[i], out@[i]@, b@));
            assert(!(ts@[i] is Skolemizer));
            match ts@[i] {
                Term::Variable(x) => {
                    assert(bound(b@, x@) is Some);
                },
                _ => {},
            }
        }
        assert(fact_view(out@) =~= head_fact(ts@, s));
    }
    Ok(out)
}


/// Whether body position `k` reads the delta of its relation.
pub open spec fn reads_delta(delta: Option<usize>, k: int) -> bool {
    delta matches Some(d) && d == k
}

/// The facts that body atom `a`, at position `k`, is matched against.
pub open spec fn source(store: RelationStorage, a: Atom, k: int, delta: Option<usize>) -> Set<Seq<Val>> {
    if reads_delta(delta, k) {
        store.delta(a.symbol@)
    } else {
        store.facts(a.symbol@)
    }
}

/// Some fact of its source agrees with the atom under the bindings.
pub open spec fn atom_matched(
    store: RelationStorage,
    a: Atom,
    k: int,
    delta: Option<usize>,
    b: Seq<(String, TypedValue)>,
) -> bool {
    exists|f: Seq<Val>| #[trigger] source(store, a, k, delta).contains(f) && atom_agrees(a.terms@, f, b)
}

/// The first `n` body atoms are matched under the bindings.
pub open spec fn body_matched(
    store: RelationStorage,
    body: Seq<Atom>,
    n: int,
    delta: Option<usize>,
    b: Seq<(String, TypedValue)>,
) -> bool {
    forall|k: int| 0 <= k < n ==> #[trigger] atom_matched(store, body[k], k, delta, b)
}

/// The fact `f` follows from one application of the rule to the storage:
/// some bindings match every body atom and make the head agree with `f`.
pub open spec fn derives(store: RelationStorage, rule: Rule, delta: Option<usize>, f: Seq<Val>) -> bool {
    exists|b: Seq<(String, TypedValue)>|
        #[trigger] body_matched(store, rule.body@, rule.body@.len() as int, delta, b) && atom_agrees(
            rule.head.terms@,
            f,
            b,
        )
}

/// Under the assignment, body atom `a` at position `q` agrees with some fact
/// of its source.
pub open spec fn atom_holds(store: RelationStorage, a: Atom, q: int, delta: Option<usize>, s: Map<Seq<char>, Val>) -> bool {
    exists|f: Seq<Val>| #[trigger] source(store, a, q, delta).contains(f) && atom_under(a.terms@, f, s)
}

/// Under the assignment, every body atom from position `k` on agrees with
/// some fact of its source.
pub open spec fn rest_matched(store: RelationStorage, body: Seq<Atom>, k: int, delta: Option<usize>, s: Map<Seq<char>, Val>) -> bool {
    forall|q: int| k <= q < body.len() ==> #[trigger] atom_holds(store, body[q], q, delta, s)
}

/// One of the first `j` facts agrees with the terms under the assignment.
pub open spec fn seen_match(facts: Seq<Vec<TypedValue>>, j: int, ts: Seq<Term>, s: Map<Seq<char>, Val>) -> bool {
    exists|t: int| 0 <= t < j && atom_under(ts, fact_view(#[trigger] facts[t]@), s)
}

pub proof fn lemma_prefix_fact_set(a: Seq<Vec<TypedValue>>, b: Seq<Vec<TypedValue>>)
    requires
        a.len() <= b.len(),
        forall|i: int| 0 <= i < a.len() ==> b[i] == a[i],
    ensures
        fact_set(a).subset_of(fact_set(b)),
{
    assert forall|f: Seq<Val>| fact_set(a).contains(f) implies fact_set(b).contains(f) by {
        let j = choose|j: int| 0 <= j < a.len() && fact_view(#[trigger] a[j]@) == f;
        assert(b[j] == a[j]);
    }
}

pub proof fn lemma_body_matched_extends(
    store: RelationStorage,
    body: Seq<Atom>,
    n: int,
    delta: Option<usize>,
    b2: Seq<(String, TypedValue)>,
    b1: Seq<(String, TypedValue)>,
)
    requires
        body_matched(store, body, n, delta, b1),
        extends(b2, b1),
    ensures
        body_matched(store, body, n, delta, b2),
{
    assert forall|k: int| 0 <= k < n implies #[trigger] atom_matched(store, body[k], k, delta, b2) by {
        assert(atom_matched(store, body[k], k, delta, b1));
        let f = choose|f: Seq<Val>| #[trigger] source(store, body[k], k, delta).contains(f) && atom_agrees(body[k].terms@, f, b1);
        lemma_agrees_extends(body[k].terms@, f, b2, b1);
    }
}

/// Applies the rule from body position `k` on, the bindings matching the
/// positions before it, and pushes each head fact derived onto `out`.
pub fn join_from<F: SkolemFunctions>(
    store: &RelationStorage,
    rule: &Rule,
    delta: Option<usize>,
    k: usize,
    b: &Bindings,
    funcs: &F,
    out: &mut Vec<Vec<TypedValue>>,
) -> (r: Result<(), String>)
    requires
        store.wf(),
        k <= rule.body@.len(),
        body_matched(*store, rule.body@, k as int, delta, b@),
        forall|i: int| 0 <= i < old(out)@.len() ==> derives(*store, *rule, delta, fact_view(#[trigger] old(out)@[i]@)),
    ensures
        forall|i: int| 0 <= i < final(out)@.len() ==> derives(*store, *rule, delta, fact_view(#[trigger] final(out)@[i]@)),
        final(out)@.len() >= old(out)@.len(),
        forall|i: int| 0 <= i < old(out)@.len() ==> #[trigger] final(out)@[i] == old(out)@[i],
        r is Ok ==> forall|s: Map<Seq<char>, Val>|
            #[trigger] consistent(b@, s) && rest_matched(*store, rule.body@, k as int, delta, s) && plain_terms(rule.head.terms@)
                ==> fact_set(final(out)@).contains(head_fact(rule.head.terms@, s)),
        head_safe(*rule) && plain_terms(rule.head.terms@) ==> r is Ok,
    decreases rule.body@.len() - k,
{
    if k == rule.body.len() {
        proof {
            if head_safe(*rule) {
                assert forall|i: int| 0 <= i < rule.head.terms@.len() implies match #[trigger] rule.head.terms@[i] {
                    Term::Variable(x) => bound(b@, x@) is Some,
                    _ => true,
                } by {
                    match rule.head.terms@[i] {
                        Term::Variable(x) => {
                            assert(body_has_var(rule.body@, x@));
                            let (q, j) = choose|q: int, j: int|
                                0 <= q < rule.body@.len() && 0 <= j < rule.body@[q].terms@.len() && (#[trigger] rule.body@[q].terms@[j] matches Term::Variable(y) && y@ == x@);
                            assert(atom_matched(*store, rule.body@[q], q, delta, b@));
                            let f = choose|f: Seq<Val>| #[trigger] source(*store, rule.body@[q], q, delta).contains(f) && atom_agrees(rule.body@[q].terms@, f, b@);
                            assert(term_agrees(rule.body@[q].terms@[j], f[j], b@));
                        },
                        _ => {},
                    }
                }
                assert(all_bound(rule.head.terms@, b@));
            }
        }
        match build_head(&rule.head.terms, b, funcs) {
            Ok(f) => {
                proof {
                    assert(derives(*store, *rule, delta, fact_view(f@)));
                }
                out.push(f);
                proof {
                    assert(fact_set(out@).contains(fact_view(out@[out@.len() - 1]@)));
                }
                Ok(())
            },
            Err(e) => Err(e),
        }
    } else {
        let atom = &rule.body[k];
        match store.find(atom.symbol.as_str()) {
            None => {
                proof {
                    store.lemma_absent(atom.symbol@);
                    assert forall|s: Map<Seq<char>, Val>| !rest_matched(*store, rule.body@, k as int, delta, s) by {
                        assert(!atom_holds(*store, rule.body@[k as int], k as int, delta, s));
                    }
                }
                Ok(())
            },
            Some(i) => {
                proof {
                    store.lemma_at(i as int);
                }
                let use_delta = match delta {
                    Some(d) => d == k,
                    None => false,
                };
                let facts = if use_delta {
                    &store.relations[i].delta
                } else {
                    &store.relations[i].facts
                };
                assert(fact_set(facts@) == source(*store, *atom, k as int, delta));
                let next: usize = k + 1;
                let mut j: usize = 0;
                while j < facts.len()
                    invariant
                        store.wf(),
                        next == k + 1,
                        k < rule.body@.len(),
                        *atom == rule.body@[k as int],
                        fact_set(facts@) == source(*store, *atom, k as int, delta),
                        body_matched(*store, rule.body@, k as int, delta, b@),
                        forall|i: int| 0 <= i < out@.len() ==> derives(*store, *rule, delta, fact_view(#[trigger] out@[i]@)),
                        j <= facts@.len(),
                        out@.len() >= old(out)@.len(),
                        forall|i: int| 0 <= i < old(out)@.len() ==> #[trigger] out@[i] == old(out)@[i],
                        forall|s: Map<Seq<char>, Val>|
                            #[trigger] consistent(b@, s) && rest_matched(*store, rule.body@, k as int, delta, s) && plain_terms(rule.head.terms@)
                                && seen_match(facts@, j as int, atom.terms@, s) ==> fact_set(out@).contains(head_fact(rule.head.terms@, s)),
                    decreases facts.len() - j,
                {
                    let ghost out_before = out@;
                    let mut b2 = copy_bindings(b);
                    let ghost c = b2@;
                    if unify(&atom.terms, &facts[j], &mut b2) {
                        proof {
                            assert(fact_set(facts@).contains(fact_view(facts@[j as int]@)));
                            assert(extends(c, b@));
                            lemma_extends_trans(b2@, c, b@);
                            lemma_body_matched_extends(*store, rule.body@, k as int, delta, b2@, b@);
                            assert(atom_matched(*store, rule.body@[k as int], k as int, delta, b2@));
                            assert forall|q: int| 0 <= q < k + 1 implies #[trigger] atom_matched(*store, rule.body@[q], q, delta, b2@) by {
                                if q < k {
                                    assert(atom_matched(*store, rule.body@[q], q, delta, b2@));
                                }
                            }
                        }
                        let ghost b2v = b2@;
                        match join_from(store, rule, delta, next, &b2, funcs, out) {
                            Ok(()) => {},
                            Err(e) => {
                                return Err(e);
                            },
                        }
                        proof {
                            lemma_prefix_fact_set(out_before, out@);
                            assert forall|s: Map<Seq<char>, Val>|
                                #[trigger] consistent(b@, s) && rest_matched(*store, rule.body@, k as int, delta, s) && plain_terms(rule.head.terms@)
                                    && seen_match(facts@, j + 1, atom.terms@, s) implies fact_set(out@).contains(head_fact(rule.head.terms@, s)) by {
                                if seen_match(facts@, j as int, atom.terms@, s) {
                                } else {
                                    let t = choose|t: int| 0 <= t < j + 1 && atom_under(atom.terms@, fact_view(#[trigger] facts@[t]@), s);
                                    assert(t == j);
                                    assert(consistent(c, s));
                                    assert(consistent(b2v, s));
                                    assert forall|q: int| k + 1 <= q < rule.body@.len() implies #[trigger] atom_holds(*store, rule.body@[q], q, delta, s) by {
                                        assert(atom_holds(*store, rule.body@[q], q, delta, s));
                                    }
                                    assert(rest_matched(*store, rule.body@, next as int, delta, s));
                                }
                            }
                        }
                    } else {
                        proof {
                            assert forall|s: Map<Seq<char>, Val>|
                                #[trigger] consistent(b@, s) && rest_matched(*store, rule.body@, k as int, delta, s) && plain_terms(rule.head.terms@)
                                    && seen_match(facts@, j + 1, atom.terms@, s) implies fact_set(out@).contains(head_fact(rule.head.terms@, s)) by {
                                if !seen_match(facts@, j as int, atom.terms@, s) {
                                    let t = choose|t: int| 0 <= t < j + 1 && atom_under(atom.terms@, fact_view(#[trigger] facts@[t]@), s);
                                    assert(t == j);
                                    assert(consistent(c, s));
                                }
                            }
                        }
                    }
                    j = j + 1;
                }
                proof {
                    assert forall|s: Map<Seq<char>, Val>|
                        #[trigger] consistent(b@, s) && rest_matched(*store, rule.body@, k as int, delta, s) && plain_terms(rule.head.terms@)
                            implies fact_set(out@).contains(head_fact(rule.head.terms@, s)) by {
                        assert(atom_holds(*store, rule.body@[k as int], k as int, delta, s));
                        let f = choose|f: Seq<Val>| #[trigger] source(*store, rule.body@[k as int], k as int, delta).contains(f) && atom_under(rule.body@[k as int].terms@, f, s);
                        assert(fact_set(facts@).contains(f));
                        let t = choose|t: int| 0 <= t < facts@.len() && fact_view(#[trigger] facts@[t]@) == f;
                        assert(seen_match(facts@, j as int, atom.terms@, s));
                    }
                }
                Ok(())
            },
        }
    }
}

} // verus!
