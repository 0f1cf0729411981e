use vstd::prelude::*;
use crate::syntax::{TypedValue, Val, Atom, Program, SkolemFunctions, fact_view, head_safe};
use crate::engine::storage::RelationStorage;
use crate::engine::join::{Bindings, derives, join_from, consistent, rest_matched, plain_terms, head_fact, bound, atom_holds, atom_under, source, body_matched, atom_matched, atom_agrees, term_agrees, term_under};
use crate::engine::storage::fact_set;
use crate::engine::delta::DeltaRule;
use crate::engine::stratify::{within, head_of, reads, ordered};

verus! {

/// Why an evaluation stopped before its fixpoint.
#[derive(Debug)]
pub enum EvalError {
    /// A rule could not be applied: a head variable was unbound, or a
    /// value-inventing term could not be computed.
    Rule(String),
    /// The recursive rounds reached `usize::MAX` without a fixpoint.
    RoundLimit,
}

/// Every fact of `s1` is a fact of `s2`.
pub open spec fn grows(s1: RelationStorage, s2: RelationStorage) -> bool {
    forall|n: Seq<char>| #[trigger] s1.facts(n).subset_of(s2.facts(n))
}

pub proof fn lemma_grows_trans(s1: RelationStorage, s2: RelationStorage, s3: RelationStorage)
    requires
        grows(s1, s2),
        grows(s2, s3),
    ensures
        grows(s1, s3),
{
    assert forall|n: Seq<char>| #[trigger] s1.facts(n).subset_of(s3.facts(n)) by {
        assert(s1.facts(n).subset_of(s2.facts(n)));
        assert(s2.facts(n).subset_of(s3.facts(n)));
    }
}

pub proof fn lemma_still_differs(o: Set<Seq<Val>>, b: Set<Seq<Val>>, s: Set<Seq<Val>>)
    requires
        o.subset_of(b),
        b.subset_of(s),
        b != o,
    ensures
        s != o,
{
    if s == o {
        assert(b =~= o);
    }
}

/// The deltas of `s2` hold those of `s1` and every fact added since.
pub open spec fn deltas_follow(s1: RelationStorage, s2: RelationStorage) -> bool {
    forall|n: Seq<char>| #[trigger] s2.delta(n) == s1.delta(n).union(s2.facts(n).difference(s1.facts(n)))
}

pub proof fn lemma_deltas_follow_refl(s: RelationStorage)
    requires
        s.wf(),
    ensures
        deltas_follow(s, s),
{
    assert forall|n: Seq<char>| #[trigger] s.delta(n) == s.delta(n).union(s.facts(n).difference(s.facts(n))) by {
        assert(s.delta(n) =~= s.delta(n).union(s.facts(n).difference(s.facts(n))));
    }
}

/// An insertion that also enters the delta keeps the deltas tracking what was added.
pub proof fn lemma_deltas_follow_step(
    o: RelationStorage,
    b: RelationStorage,
    a: RelationStorage,
    name: Seq<char>,
    f: Seq<Val>,
    added: bool,
)
    requires
        deltas_follow(o, b),
        grows(o, b),
        added == !b.facts(name).contains(f),
        forall|n: Seq<char>| #[trigger] a.facts(n) == if n == name {
            b.facts(n).insert(f)
        } else {
            b.facts(n)
        },
        forall|n: Seq<char>| #[trigger] a.delta(n) == if n == name && added {
            b.delta(n).insert(f)
        } else {
            b.delta(n)
        },
    ensures
        deltas_follow(o, a),
        grows(o, a),
{
    assert forall|n: Seq<char>| #[trigger] a.delta(n) == o.delta(n).union(a.facts(n).difference(o.facts(n))) by {
        assert(b.delta(n) == o.delta(n).union(b.facts(n).difference(o.facts(n))));
        assert(o.facts(n).subset_of(b.facts(n)));
        assert(a.delta(n) =~= o.delta(n).union(a.facts(n).difference(o.facts(n))));
    }
    assert forall|n: Seq<char>| #[trigger] o.facts(n).subset_of(a.facts(n)) by {
        assert(o.facts(n).subset_of(b.facts(n)));
    }
}

/// Every fact of `s2` is a fact of `s1` or follows from one rewritten rule of
/// `prog` applied to `s1`.
pub open spec fn derived_from(s1: RelationStorage, s2: RelationStorage, p: Program, prog: Seq<DeltaRule>) -> bool {
    forall|n: Seq<char>, f: Seq<Val>| #[trigger] s2.facts(n).contains(f) ==> s1.facts(n).contains(f) || exists|j: int|
        0 <= j < prog.len() && head_of(p, #[trigger] prog[j]) == n && derives(s1, p.inner@[prog[j].rule as int], prog[j].delta, f)
}

/// Under the assignment, every body atom of the rewritten rule agrees with a
/// fact of its source, and the rule's head holds no value-inventing term.
pub open spec fn fires(store: RelationStorage, p: Program, d: DeltaRule, s: Map<Seq<char>, Val>) -> bool {
    &&& rest_matched(store, p.inner@[d.rule as int].body@, 0, d.delta, s)
    &&& plain_terms(p.inner@[d.rule as int].head.terms@)
}

/// The head fact of the rewritten rule under the assignment.
pub open spec fn fired_fact(p: Program, d: DeltaRule, s: Map<Seq<char>, Val>) -> Seq<Val> {
    head_fact(p.inner@[d.rule as int].head.terms@, s)
}

/// Every rule that the rewritten rules stem from binds each head variable in
/// its body and has no value-inventing term in its head.
pub open spec fn plain_safe_rules(p: Program, prog: Seq<DeltaRule>) -> bool {
    forall|j: int| 0 <= j < prog.len() ==> {
        &&& head_safe(p.inner@[(#[trigger] prog[j]).rule as int])
        &&& plain_terms(p.inner@[prog[j].rule as int].head.terms@)
    }
}

/// The rewritten rule that reads no delta.
pub open spec fn whole(i: usize) -> DeltaRule {
    DeltaRule { rule: i, delta: None }
}

/// The rewritten rule that reads the delta at body position `k`.
pub open spec fn at(i: usize, k: usize) -> DeltaRule {
    DeltaRule { rule: i, delta: Some(k) }
}

/// Rule `i` has a body, and `prog` holds its rewrite for each body position.
pub open spec fn covered(p: Program, prog: Seq<DeltaRule>, i: usize) -> bool {
    &&& i < p.inner@.len()
    &&& p.inner@[i as int].body@.len() > 0
    &&& forall|k: usize| k < p.inner@[i as int].body@.len() ==> #[trigger] prog.contains(at(i, k))
}

/// Each covered rule whose body holds in the storage under an assignment
/// has its head fact stored.
pub open spec fn closed_under(store: RelationStorage, p: Program, prog: Seq<DeltaRule>) -> bool {
    forall|i: usize, s: Map<Seq<char>, Val>|
        covered(p, prog, i) && #[trigger] fires(store, p, whole(i), s) ==> store.facts(p.inner@[i as int].head.symbol@).contains(
            head_fact(p.inner@[i as int].head.terms@, s),
        )
}

/// The invariant of semi-naive evaluation: each covered rule whose body
/// holds has its head fact stored, or one of its rewrites still fires on a
/// delta.
pub open spec fn closed_but_delta(store: RelationStorage, p: Program, prog: Seq<DeltaRule>) -> bool {
    forall|i: usize, s: Map<Seq<char>, Val>|
        covered(p, prog, i) && #[trigger] fires(store, p, whole(i), s) ==> store.facts(p.inner@[i as int].head.symbol@).contains(
            head_fact(p.inner@[i as int].head.terms@, s),
        ) || exists|k: usize| k < p.inner@[i as int].body@.len() && #[trigger] fires(store, p, at(i, k), s)
}

/// Where no body atom of rule `i` matches a delta, a body that holds in
/// `a` holds in `b`, provided every fact of `a` outside its delta is in `b`.
pub proof fn lemma_body_outside_delta(a: RelationStorage, b: RelationStorage, p: Program, i: usize, s: Map<Seq<char>, Val>)
    requires
        i < p.inner@.len(),
        fires(a, p, whole(i), s),
        forall|k: usize| k < p.inner@[i as int].body@.len() ==> !#[trigger] fires(a, p, at(i, k), s),
        forall|n: Seq<char>, f: Seq<Val>| #[trigger] a.facts(n).contains(f) && !a.delta(n).contains(f) ==> b.facts(n).contains(f),
    ensures
        fires(b, p, whole(i), s),
{
    let body = p.inner@[i as int].body@;
    assert(p.inner@[i as int].body.len() == body.len());
    assert forall|q: int| 0 <= q < body.len() implies #[trigger] atom_holds(b, body[q], q, None, s) by {
        assert(atom_holds(a, body[q], q, None, s));
        let f = choose|f: Seq<Val>| #[trigger] source(a, body[q], q, None).contains(f) && atom_under(body[q].terms@, f, s);
        if a.delta(body[q].symbol@).contains(f) {
            assert((q as usize) as int == q);
            assert(source(a, body[q], q, Some(q as usize)).contains(f));
            assert(atom_holds(a, body[q], q, Some(q as usize), s));
            assert forall|r: int| 0 <= r < body.len() implies #[trigger] atom_holds(a, body[r], r, Some(q as usize), s) by {
                if r != q {
                    assert(atom_holds(a, body[r], r, None, s));
                    let g = choose|g: Seq<Val>| #[trigger] source(a, body[r], r, None).contains(g) && atom_under(body[r].terms@, g, s);
                    assert(source(a, body[r], r, Some(q as usize)).contains(g));
                }
            }
            assert(fires(a, p, at(i, q as usize), s));
        }
        assert(source(b, body[q], q, None).contains(f));
    }
}

/// A growth whose deltas follow it keeps the invariant.
pub proof fn lemma_growth_keeps(a: RelationStorage, b: RelationStorage, p: Program, prog: Seq<DeltaRule>)
    requires
        closed_but_delta(a, p, prog),
        grows(a, b),
        deltas_follow(a, b),
    ensures
        closed_but_delta(b, p, prog),
{
    assert forall|i: usize, s: Map<Seq<char>, Val>|
        covered(p, prog, i) && #[trigger] fires(b, p, whole(i), s) implies b.facts(p.inner@[i as int].head.symbol@).contains(
            head_fact(p.inner@[i as int].head.terms@, s),
        ) || exists|k: usize| k < p.inner@[i as int].body@.len() && #[trigger] fires(b, p, at(i, k), s) by {
        if !(exists|k: usize| k < p.inner@[i as int].body@.len() && #[trigger] fires(b, p, at(i, k), s)) {
            assert forall|n: Seq<char>, f: Seq<Val>| #[trigger] b.facts(n).contains(f) && !b.delta(n).contains(f) implies a.facts(n).contains(f) by {
                assert(b.delta(n) == a.delta(n).union(b.facts(n).difference(a.facts(n))));
            }
            lemma_body_outside_delta(b, a, p, i, s);
            let head = p.inner@[i as int].head.symbol@;
            assert(a.facts(head).subset_of(b.facts(head)));
            if !a.facts(head).contains(head_fact(p.inner@[i as int].head.terms@, s)) {
                let k = choose|k: usize| k < p.inner@[i as int].body@.len() && #[trigger] fires(a, p, at(i, k), s);
                let body = p.inner@[i as int].body@;
                assert forall|r: int| 0 <= r < body.len() implies #[trigger] atom_holds(b, body[r], r, Some(k), s) by {
                    assert(atom_holds(a, body[r], r, Some(k), s));
                    let g = choose|g: Seq<Val>| #[trigger] source(a, body[r], r, Some(k)).contains(g) && atom_under(body[r].terms@, g, s);
                    assert(b.delta(body[r].symbol@) == a.delta(body[r].symbol@).union(b.facts(body[r].symbol@).difference(a.facts(body[r].symbol@))));
                    assert(a.facts(body[r].symbol@).subset_of(b.facts(body[r].symbol@)));
                    assert(source(b, body[r], r, Some(k)).contains(g));
                }
                assert(fires(b, p, at(i, k), s));
            }
        }
    }
}

/// A round whose deltas are exactly what it added, and which stores the head
/// fact of every rewrite that fires, keeps the invariant.
pub proof fn lemma_round_keeps(a: RelationStorage, b: RelationStorage, p: Program, prog: Seq<DeltaRule>)
    requires
        closed_but_delta(a, p, prog),
        grows(a, b),
        forall|n: Seq<char>| #[trigger] b.delta(n) == b.facts(n).difference(a.facts(n)),
        forall|j: int, s: Map<Seq<char>, Val>|
            0 <= j < prog.len() && #[trigger] fires(a, p, prog[j], s) ==> b.facts(head_of(p, prog[j])).contains(fired_fact(p, prog[j], s)),
    ensures
        closed_but_delta(b, p, prog),
{
    assert forall|i: usize, s: Map<Seq<char>, Val>|
        covered(p, prog, i) && #[trigger] fires(b, p, whole(i), s) implies b.facts(p.inner@[i as int].head.symbol@).contains(
            head_fact(p.inner@[i as int].head.terms@, s),
        ) || exists|k: usize| k < p.inner@[i as int].body@.len() && #[trigger] fires(b, p, at(i, k), s) by {
        if !(exists|k: usize| k < p.inner@[i as int].body@.len() && #[trigger] fires(b, p, at(i, k), s)) {
            assert forall|n: Seq<char>, f: Seq<Val>| #[trigger] b.facts(n).contains(f) && !b.delta(n).contains(f) implies a.facts(n).contains(f) by {}
            lemma_body_outside_delta(b, a, p, i, s);
            let head = p.inner@[i as int].head.symbol@;
            assert(a.facts(head).subset_of(b.facts(head)));
            if !a.facts(head).contains(head_fact(p.inner@[i as int].head.terms@, s)) {
                let k = choose|k: usize| k < p.inner@[i as int].body@.len() && #[trigger] fires(a, p, at(i, k), s);
                assert(prog.contains(at(i, k)));
                let j = choose|j: int| 0 <= j < prog.len() && prog[j] == at(i, k);
                assert(fires(a, p, prog[j], s));
            }
        }
    }
}

/// With every delta empty, the invariant is closure.
pub proof fn lemma_quiet_closes(a: RelationStorage, p: Program, prog: Seq<DeltaRule>)
    requires
        closed_but_delta(a, p, prog),
        forall|n: Seq<char>| #[trigger] a.delta(n) == Set::<Seq<Val>>::empty(),
    ensures
        closed_under(a, p, prog),
{
    assert forall|i: usize, s: Map<Seq<char>, Val>|
        covered(p, prog, i) && #[trigger] fires(a, p, whole(i), s) implies a.facts(p.inner@[i as int].head.symbol@).contains(
            head_fact(p.inner@[i as int].head.terms@, s),
        ) by {
        if exists|k: usize| k < p.inner@[i as int].body@.len() && #[trigger] fires(a, p, at(i, k), s) {
            let k = choose|k: usize| k < p.inner@[i as int].body@.len() && #[trigger] fires(a, p, at(i, k), s);
            let body = p.inner@[i as int].body@;
            assert(atom_holds(a, body[k as int], k as int, Some(k), s));
        }
    }
}

/// Closure depends on the facts alone.
pub proof fn lemma_closed_same_facts(a: RelationStorage, b: RelationStorage, p: Program, prog: Seq<DeltaRule>)
    requires
        closed_under(a, p, prog),
        forall|n: Seq<char>| #[trigger] a.facts(n) == b.facts(n),
    ensures
        closed_under(b, p, prog),
{
    assert forall|i: usize, s: Map<Seq<char>, Val>|
        covered(p, prog, i) && #[trigger] fires(b, p, whole(i), s) implies b.facts(p.inner@[i as int].head.symbol@).contains(
            head_fact(p.inner@[i as int].head.terms@, s),
        ) by {
        let body = p.inner@[i as int].body@;
        assert forall|q: int| 0 <= q < body.len() implies #[trigger] atom_holds(a, body[q], q, None, s) by {
            assert(atom_holds(b, body[q], q, None, s));
            let f = choose|f: Seq<Val>| #[trigger] source(b, body[q], q, None).contains(f) && atom_under(body[q].terms@, f, s);
            assert(source(a, body[q], q, None).contains(f));
        }
        assert(fires(a, p, whole(i), s));
    }
}

/// A rewritten rule fires alike in two storages that agree on the facts and
/// the deltas of every relation it reads.
pub proof fn lemma_fires_frame(a: RelationStorage, b: RelationStorage, p: Program, d: DeltaRule, s: Map<Seq<char>, Val>)
    requires
        d.rule < p.inner@.len(),
        forall|n: Seq<char>| reads(p, d, n) ==> #[trigger] a.facts(n) == b.facts(n) && a.delta(n) == b.delta(n),
    ensures
        fires(a, p, d, s) == fires(b, p, d, s),
{
    let body = p.inner@[d.rule as int].body@;
    assert forall|q: int| 0 <= q < body.len() implies #[trigger] atom_holds(a, body[q], q, d.delta, s) == atom_holds(b, body[q], q, d.delta, s) by {
        assert(reads(p, d, body[q].symbol@));
        assert(a.facts(body[q].symbol@) == b.facts(body[q].symbol@));
        assert(source(a, body[q], q, d.delta) == source(b, body[q], q, d.delta));
    }
    if fires(a, p, d, s) {
        assert forall|q: int| 0 <= q < body.len() implies #[trigger] atom_holds(b, body[q], q, d.delta, s) by {
            assert(atom_holds(a, body[q], q, d.delta, s));
        }
    }
    if fires(b, p, d, s) {
        assert forall|q: int| 0 <= q < body.len() implies #[trigger] atom_holds(a, body[q], q, d.delta, s) by {
            assert(atom_holds(b, body[q], q, d.delta, s));
        }
    }
}

/// No rewritten rule reads the relation it derives.
pub open spec fn reads_no_own_head(p: Program, prog: Seq<DeltaRule>) -> bool {
    forall|j: int| 0 <= j < prog.len() ==> !reads(p, #[trigger] prog[j], head_of(p, prog[j]))
}

/// Every rewritten rule of `prog` that fires has its head fact stored.
pub open spec fn closed_under_rewrites(store: RelationStorage, p: Program, prog: Seq<DeltaRule>) -> bool {
    forall|j: int, s: Map<Seq<char>, Val>|
        0 <= j < prog.len() && #[trigger] fires(store, p, prog[j], s) ==> store.facts(head_of(p, prog[j])).contains(fired_fact(p, prog[j], s))
}

/// The invariant together with closure of every rewrite gives closure.
pub proof fn lemma_rewrites_close(store: RelationStorage, p: Program, prog: Seq<DeltaRule>)
    requires
        closed_but_delta(store, p, prog),
        closed_under_rewrites(store, p, prog),
    ensures
        closed_under(store, p, prog),
{
    assert forall|i: usize, s: Map<Seq<char>, Val>|
        covered(p, prog, i) && #[trigger] fires(store, p, whole(i), s) implies store.facts(p.inner@[i as int].head.symbol@).contains(
            head_fact(p.inner@[i as int].head.terms@, s),
        ) by {
        if exists|k: usize| k < p.inner@[i as int].body@.len() && #[trigger] fires(store, p, at(i, k), s) {
            let k = choose|k: usize| k < p.inner@[i as int].body@.len() && #[trigger] fires(store, p, at(i, k), s);
            assert(prog.contains(at(i, k)));
            let j = choose|j: int| 0 <= j < prog.len() && prog[j] == at(i, k);
            assert(fires(store, p, prog[j], s));
        }
    }
}

/// The assignment that bindings make.
pub open spec fn as_map(b: Seq<(String, TypedValue)>) -> Map<Seq<char>, Val> {
    Map::new(|x: Seq<char>| bound(b, x) is Some, |x: Seq<char>| bound(b, x)->Some_0)
}

/// The atom agrees, under the assignment, with a fact of the model.
pub open spec fn atom_in_model(a: Atom, m: spec_fn(Seq<char>, Seq<Val>) -> bool, s: Map<Seq<char>, Val>) -> bool {
    exists|f: Seq<Val>| #[trigger] m(a.symbol@, f) && atom_under(a.terms@, f, s)
}

/// Every body atom agrees, under the assignment, with a fact of the model.
pub open spec fn body_in_model(body: Seq<Atom>, m: spec_fn(Seq<char>, Seq<Val>) -> bool, s: Map<Seq<char>, Val>) -> bool {
    forall|q: int| 0 <= q < body.len() ==> #[trigger] atom_in_model(body[q], m, s)
}

/// The model holds the head fact of every rule without value-inventing head
/// terms whose body it satisfies.
pub open spec fn model_closed(p: Program, m: spec_fn(Seq<char>, Seq<Val>) -> bool) -> bool {
    forall|i: int, s: Map<Seq<char>, Val>|
        0 <= i < p.inner@.len() && plain_terms(p.inner@[i].head.terms@) && #[trigger] body_in_model(p.inner@[i].body@, m, s)
            ==> m(p.inner@[i].head.symbol@, head_fact(p.inner@[i].head.terms@, s))
}

/// Every fact of the storage is in the model.
pub open spec fn within_model(store: RelationStorage, m: spec_fn(Seq<char>, Seq<Val>) -> bool) -> bool {
    forall|n: Seq<char>, f: Seq<Val>| #[trigger] store.facts(n).contains(f) ==> m(n, f)
}

/// The model of the (relation, fact) pairs of a set.
pub open spec fn pairs_model(big: Set<(Seq<char>, Seq<Val>)>) -> spec_fn(Seq<char>, Seq<Val>) -> bool {
    |n: Seq<char>, f: Seq<Val>| big.contains((n, f))
}

/// `big` has fewer than `usize::MAX` pairs, is closed under the rules of a
/// program without value-inventing head terms, and holds every stored fact.
pub open spec fn small_closed_bound(store: RelationStorage, p: Program, big: Set<(Seq<char>, Seq<Val>)>) -> bool {
    &&& plain_program(p)
    &&& big.finite()
    &&& big.len() < usize::MAX
    &&& model_closed(p, pairs_model(big))
    &&& within_model(store, pairs_model(big))
}

/// Every rule's head is free of value-inventing terms.
pub open spec fn plain_program(p: Program) -> bool {
    forall|i: int| 0 <= i < p.inner@.len() ==> plain_terms(#[trigger] p.inner@[i].head.terms@)
}

/// A fact that a rule derives from facts of a closed model is in the model.
pub proof fn lemma_derived_in_model(
    store: RelationStorage,
    p: Program,
    d: DeltaRule,
    f: Seq<Val>,
    m: spec_fn(Seq<char>, Seq<Val>) -> bool,
)
    requires
        store.wf(),
        d.rule < p.inner@.len(),
        model_closed(p, m),
        within_model(store, m),
        plain_terms(p.inner@[d.rule as int].head.terms@),
        derives(store, p.inner@[d.rule as int], d.delta, f),
    ensures
        m(head_of(p, d), f),
{
    let rule = p.inner@[d.rule as int];
    let b = choose|b: Seq<(String, TypedValue)>|
        #[trigger] body_matched(store, rule.body@, rule.body@.len() as int, d.delta, b) && atom_agrees(rule.head.terms@, f, b);
    let s = as_map(b);
    assert forall|q: int| 0 <= q < rule.body@.len() implies #[trigger] atom_in_model(rule.body@[q], m, s) by {
        assert(atom_matched(store, rule.body@[q], q, d.delta, b));
        let g = choose|g: Seq<Val>| #[trigger] source(store, rule.body@[q], q, d.delta).contains(g) && atom_agrees(rule.body@[q].terms@, g, b);
        store.lemma_delta_in_facts(rule.body@[q].symbol@);
        assert(store.facts(rule.body@[q].symbol@).contains(g));
        assert forall|j: int| 0 <= j < rule.body@[q].terms@.len() implies term_under(#[trigger] rule.body@[q].terms@[j], g[j], s) by {
            assert(term_agrees(rule.body@[q].terms@[j], g[j], b));
        }
        assert(m(rule.body@[q].symbol@, g));
    }
    assert(body_in_model(rule.body@, m, s));
    assert forall|j: int| 0 <= j < f.len() implies f[j] == #[trigger] head_fact(rule.head.terms@, s)[j] by {
        assert(term_agrees(rule.head.terms@[j], f[j], b));
        assert(!(rule.head.terms@[j] is Skolemizer));
    }
    assert(f =~= head_fact(rule.head.terms@, s));
}

/// Every fact that one rewritten rule yields against the storage.
pub fn derive<F: SkolemFunctions>(store: &RelationStorage, p: &Program, d: DeltaRule, funcs: &F) -> (r: Result<Vec<Vec<TypedValue>>, String>)
    requires
        store.wf(),
        d.rule < p.inner@.len(),
    ensures
        r matches Ok(out) ==> forall|i: int| 0 <= i < out@.len() ==> derives(*store, p.inner@[d.rule as int], d.delta, fact_view(#[trigger] out@[i]@)),
        r matches Ok(out) ==> forall|s: Map<Seq<char>, Val>| #[trigger] fires(*store, *p, d, s) ==> fact_set(out@).contains(fired_fact(*p, d, s)),
        head_safe(p.inner@[d.rule as int]) && plain_terms(p.inner@[d.rule as int].head.terms@) ==> r is Ok,
{
    let mut out: Vec<Vec<TypedValue>> = Vec::new();
    let b: Bindings = Vec::new();
    assert forall|s: Map<Seq<char>, Val>| #[trigger] consistent(b@, s) by {
        assert forall|x: Seq<char>| #[trigger] bound(b@, x) is None by {}
    }
    match join_from(store, &p.inner[d.rule], d.delta, 0, &b, funcs, &mut out) {
        Ok(()) => {
            assert forall|s: Map<Seq<char>, Val>| #[trigger] fires(*store, *p, d, s) implies fact_set(out@).contains(fired_fact(*p, d, s)) by {
                assert(consistent(b@, s));
            }
            Ok(out)
        },
        Err(e) => Err(e),
    }
}

/// Applies the rewritten rules once each, in order; each rule sees what the
/// rules before it added, to the facts and to the deltas.
pub fn materialize_nonrecursive<F: SkolemFunctions>(store: &mut RelationStorage, p: &Program, prog: &Vec<DeltaRule>, funcs: &F) -> (r: Result<(), String>)
    requires
        old(store).wf(),
        within(*p, prog@),
    ensures
        final(store).wf(),
        grows(*old(store), *final(store)),
        deltas_follow(*old(store), *final(store)),
        plain_safe_rules(*p, prog@) ==> r is Ok,
        final(store).fact_count() >= old(store).fact_count(),
        r is Ok && ordered(*p, prog@) && reads_no_own_head(*p, prog@) ==> closed_under_rewrites(*final(store), *p, prog@),
        forall|m: spec_fn(Seq<char>, Seq<Val>) -> bool|
            plain_program(*p) && #[trigger] model_closed(*p, m) && within_model(*old(store), m) ==> within_model(*final(store), m),
{
    let ghost orig = *store;
    proof {
        lemma_deltas_follow_refl(orig);
    }
    let mut i: usize = 0;
    while i < prog.len()
        invariant
            store.wf(),
            orig == *old(store),
            within(*p, prog@),
            grows(orig, *store),
            deltas_follow(orig, *store),
            i <= prog@.len(),
            store.fact_count() >= orig.fact_count(),
            ordered(*p, prog@) && reads_no_own_head(*p, prog@) ==> closed_under_rewrites(*store, *p, prog@.subrange(0, i as int)),
            forall|m: spec_fn(Seq<char>, Seq<Val>) -> bool|
                plain_program(*p) && #[trigger] model_closed(*p, m) && within_model(orig, m) ==> within_model(*store, m),
        decreases prog.len() - i,
    {
        let d = prog[i];
        assert(prog@[i as int] == d);
        let ghost start_t = *store;
        assert(start_t.wf());
        let mut facts = match derive(&*store, p, d, funcs) {
            Ok(v) => v,
            Err(e) => {
                return Err(e);
            },
        };
        let name = p.inner[d.rule].head.symbol.as_str();
        let ghost full = facts@;
        while facts.len() > 0
            invariant
                store.wf(),
                grows(orig, *store),
                deltas_follow(orig, *store),
                i < prog@.len(),
                store.fact_count() >= orig.fact_count(),
                d == prog@[i as int],
                name@ == head_of(*p, d),
                grows(start_t, *store),
                forall|n: Seq<char>| n != name@ ==> #[trigger] store.facts(n) == start_t.facts(n) && store.delta(n) == start_t.delta(n),
                facts@.len() <= full.len(),
                forall|t: int| 0 <= t < facts@.len() ==> #[trigger] facts@[t] == full[t],
                forall|t: int| facts@.len() <= t < full.len() ==> store.facts(name@).contains(fact_view(#[trigger] full[t]@)),
                forall|t: int| 0 <= t < full.len() ==> derives(start_t, p.inner@[d.rule as int], d.delta, fact_view(#[trigger] full[t]@)),
                start_t.wf(),
                d.rule < p.inner@.len(),
                forall|m: spec_fn(Seq<char>, Seq<Val>) -> bool|
                    plain_program(*p) && #[trigger] model_closed(*p, m) && within_model(orig, m) ==> within_model(start_t, m),
                forall|m: spec_fn(Seq<char>, Seq<Val>) -> bool|
                    plain_program(*p) && #[trigger] model_closed(*p, m) && within_model(orig, m) ==> within_model(*store, m),
            decreases facts.len(),
        {
            let f = facts.pop().unwrap();
            let ghost before = *store;
            let ghost fv = fact_view(f@);
            assert(fv == fact_view(full[facts@.len() as int]@));
            let added = store.insert_fact(name, f, true);
            proof {
                lemma_deltas_follow_step(orig, before, *store, name@, fv, added);
                assert forall|m: spec_fn(Seq<char>, Seq<Val>) -> bool|
                    plain_program(*p) && #[trigger] model_closed(*p, m) && within_model(orig, m) implies within_model(*store, m) by {
                    assert(plain_terms(p.inner@[d.rule as int].head.terms@));
                    lemma_derived_in_model(start_t, *p, d, fv, m);
                    assert forall|n: Seq<char>, g: Seq<Val>| #[trigger] store.facts(n).contains(g) implies m(n, g) by {
                        if !(n == name@ && g == fv) {
                            assert(before.facts(n).contains(g));
                        }
                    }
                }
                assert forall|n: Seq<char>| #[trigger] start_t.facts(n).subset_of(store.facts(n)) by {
                    assert(start_t.facts(n).subset_of(before.facts(n)));
                }
                assert forall|t: int| facts@.len() <= t < full.len() implies store.facts(name@).contains(fact_view(#[trigger] full[t]@)) by {
                    if t > facts@.len() {
                        assert(before.facts(name@).contains(fact_view(full[t]@)));
                    }
                }
            }
        }
        proof {
            if ordered(*p, prog@) && reads_no_own_head(*p, prog@) {
                let sub = prog@.subrange(0, i + 1);
                assert forall|j: int, s: Map<Seq<char>, Val>|
                    0 <= j < sub.len() && #[trigger] fires(*store, *p, sub[j], s) implies store.facts(head_of(*p, sub[j])).contains(fired_fact(*p, sub[j], s)) by {
                    assert(sub[j] == prog@[j]);
                    if j < i {
                        assert(!reads(*p, prog@[j], head_of(*p, prog@[i as int])));
                        assert forall|n: Seq<char>| reads(*p, prog@[j], n) implies #[trigger] store.facts(n) == start_t.facts(n) && store.delta(n) == start_t.delta(n) by {}
                        lemma_fires_frame(*store, start_t, *p, prog@[j], s);
                        assert(prog@.subrange(0, i as int)[j] == prog@[j]);
                        assert(start_t.facts(head_of(*p, prog@[j])).subset_of(store.facts(head_of(*p, prog@[j]))));
                    } else {
                        assert(!reads(*p, prog@[i as int], head_of(*p, prog@[i as int])));
                        assert forall|n: Seq<char>| reads(*p, d, n) implies #[trigger] store.facts(n) == start_t.facts(n) && store.delta(n) == start_t.delta(n) by {}
                        lemma_fires_frame(*store, start_t, *p, d, s);
                        assert(fact_set(full).contains(fired_fact(*p, d, s)));
                        let t = choose|t: int| 0 <= t < full.len() && fact_view(#[trigger] full[t]@) == fired_fact(*p, d, s);
                    }
                }
            }
        }
        i = i + 1;
    }
    assert(prog@.subrange(0, prog@.len() as int) =~= prog@);
    Ok(())
}

/// One recursive round: applies every rewritten rule to the storage as it
/// stands, then replaces each delta by the facts that the round added.
/// Returns whether any fact was added.
pub fn materialize_recursive<F: SkolemFunctions>(store: &mut RelationStorage, p: &Program, prog: &Vec<DeltaRule>, funcs: &F) -> (r: Result<bool, String>)
    requires
        old(store).wf(),
        within(*p, prog@),
    ensures
        final(store).wf(),
        grows(*old(store), *final(store)),
        r matches Ok(changed) ==> derived_from(*old(store), *final(store), *p, prog@),
        r matches Ok(changed) ==> (changed <==> exists|n: Seq<char>| #[trigger] final(store).facts(n) != old(store).facts(n)),
        r is Ok ==> forall|j: int, s: Map<Seq<char>, Val>|
            0 <= j < prog@.len() && #[trigger] fires(*old(store), *p, prog@[j], s) ==> final(store).facts(head_of(*p, prog@[j])).contains(
                fired_fact(*p, prog@[j], s),
            ),
        plain_safe_rules(*p, prog@) ==> r is Ok,
        final(store).fact_count() >= old(store).fact_count(),
        r == Ok::<bool, String>(true) ==> final(store).fact_count() > old(store).fact_count(),
        r is Ok ==> forall|n: Seq<char>| #[trigger] final(store).delta(n) == final(store).facts(n).difference(old(store).facts(n)),
        r is Ok ==> forall|n: Seq<char>|
            (forall|j: int| 0 <= j < prog@.len() ==> head_of(*p, #[trigger] prog@[j]) != n) ==> #[trigger] final(store).facts(n) == old(store).facts(n),
        forall|m: spec_fn(Seq<char>, Seq<Val>) -> bool|
            plain_program(*p) && #[trigger] model_closed(*p, m) && within_model(*old(store), m) ==> within_model(*final(store), m),
{
    let ghost orig = *store;
    let mut pending: Vec<(usize, Vec<Vec<TypedValue>>)> = Vec::new();
    let mut i: usize = 0;
    while i < prog.len()
        invariant
            *store == orig,
            store.wf(),
            within(*p, prog@),
            i <= prog@.len(),
            forall|q: int| 0 <= q < pending@.len() ==> {
                &&& 0 <= (#[trigger] pending@[q]).0 < prog@.len()
                &&& forall|t: int| 0 <= t < pending@[q].1@.len() ==> derives(orig, p.inner@[prog@[pending@[q].0 as int].rule as int], prog@[pending@[q].0 as int].delta, fact_view(#[trigger] pending@[q].1@[t]@))
            },
            pending@.len() == i,
            forall|q: int| 0 <= q < pending@.len() ==> (#[trigger] pending@[q]).0 == q,
            forall|q: int, s: Map<Seq<char>, Val>|
                0 <= q < pending@.len() && #[trigger] fires(orig, *p, prog@[q], s) ==> fact_set(pending@[q].1@).contains(fired_fact(*p, prog@[q], s)),
        decreases prog.len() - i,
    {
        assert(prog@[i as int] == prog[i as int]);
        match derive(&*store, p, prog[i], funcs) {
            Ok(v) => {
                pending.push((i, v));
            },
            Err(e) => {
                return Err(e);
            },
        }
        i = i + 1;
    }
    store.clear_deltas();
    let ghost cleared = *store;
    let ghost all_pending = pending@;
    proof {
        lemma_deltas_follow_refl(cleared);
        assert forall|n: Seq<char>| #[trigger] cleared.facts(n).subset_of(store.facts(n)) by {}
    }
    let mut changed = false;
    while pending.len() > 0
        invariant
            store.wf(),
            within(*p, prog@),
            grows(orig, *store),
            forall|q: int| 0 <= q < pending@.len() ==> {
                &&& 0 <= (#[trigger] pending@[q]).0 < prog@.len()
                &&& forall|t: int| 0 <= t < pending@[q].1@.len() ==> derives(orig, p.inner@[prog@[pending@[q].0 as int].rule as int], prog@[pending@[q].0 as int].delta, fact_view(#[trigger] pending@[q].1@[t]@))
            },
            derived_from(orig, *store, *p, prog@),
            changed <==> exists|n: Seq<char>| #[trigger] store.facts(n) != orig.facts(n),
            deltas_follow(cleared, *store),
            grows(cleared, *store),
            cleared.wf(),
            cleared.fact_count() == orig.fact_count(),
            store.fact_count() >= orig.fact_count() + if changed { 1nat } else { 0nat },
            forall|n: Seq<char>| #[trigger] cleared.facts(n) == orig.facts(n),
            forall|n: Seq<char>| #[trigger] cleared.delta(n) == Set::<Seq<Val>>::empty(),
            pending@.len() <= all_pending.len(),
            all_pending.len() == prog@.len(),
            forall|q: int| 0 <= q < pending@.len() ==> #[trigger] pending@[q] == all_pending[q],
            forall|q: int| 0 <= q < all_pending.len() ==> (#[trigger] all_pending[q]).0 == q,
            forall|q: int, s: Map<Seq<char>, Val>|
                0 <= q < all_pending.len() && #[trigger] fires(orig, *p, prog@[q], s) ==> fact_set(all_pending[q].1@).contains(fired_fact(*p, prog@[q], s)),
            forall|q: int, s: Map<Seq<char>, Val>|
                pending@.len() <= q < all_pending.len() && #[trigger] fires(orig, *p, prog@[q], s) ==> store.facts(head_of(*p, prog@[q])).contains(fired_fact(*p, prog@[q], s)),
        decreases pending.len(),
    {
        let (j, mut facts) = pending.pop().unwrap();
        let ghost q0 = pending@.len() as int;
        let ghost full = facts@;
        assert(all_pending[q0] == (j, facts));
        let d = prog[j];
        let name = p.inner[d.rule].head.symbol.as_str();
        while facts.len() > 0
            invariant
                store.wf(),
                j < prog@.len(),
                d == prog@[j as int],
                within(*p, prog@),
                name@ == head_of(*p, d),
                grows(orig, *store),
                forall|t: int| 0 <= t < facts@.len() ==> derives(orig, p.inner@[d.rule as int], d.delta, fact_view(#[trigger] facts@[t]@)),
                derived_from(orig, *store, *p, prog@),
                changed <==> exists|n: Seq<char>| #[trigger] store.facts(n) != orig.facts(n),
                deltas_follow(cleared, *store),
                grows(cleared, *store),
                store.fact_count() >= orig.fact_count() + if changed { 1nat } else { 0nat },
                j == q0,
                facts@.len() <= full.len(),
                forall|t: int| 0 <= t < facts@.len() ==> #[trigger] facts@[t] == full[t],
                forall|t: int| facts@.len() <= t < full.len() ==> store.facts(name@).contains(fact_view(#[trigger] full[t]@)),
                forall|q: int, s: Map<Seq<char>, Val>|
                    q0 < q < all_pending.len() && #[trigger] fires(orig, *p, prog@[q], s) ==> store.facts(head_of(*p, prog@[q])).contains(fired_fact(*p, prog@[q], s)),
            decreases facts.len(),
        {
            let f = facts.pop().unwrap();
            let ghost before = *store;
            proof {
                assert(derives(orig, p.inner@[d.rule as int], d.delta, fact_view(f@)));
            }
            let ghost fv = fact_view(f@);
            let added = store.insert_fact(name, f, true);
            proof {
                lemma_deltas_follow_step(cleared, before, *store, name@, fv, added);
                assert forall|n: Seq<char>| #[trigger] before.facts(n).subset_of(store.facts(n)) by {}
                lemma_grows_trans(orig, before, *store);
                assert forall|n: Seq<char>, g: Seq<Val>| #[trigger] store.facts(n).contains(g) implies orig.facts(n).contains(g) || exists|x: int|
                    0 <= x < prog@.len() && head_of(*p, #[trigger] prog@[x]) == n && derives(orig, p.inner@[prog@[x].rule as int], prog@[x].delta, g) by {
                    if n == name@ && g == fact_view(f@) {
                        assert(head_of(*p, prog@[j as int]) == n);
                    } else {
                        assert(before.facts(n).contains(g));
                    }
                }
                if added {
                    assert(orig.facts(name@).subset_of(before.facts(name@)));
                    assert(!orig.facts(name@).contains(fact_view(f@)));
                    assert(store.facts(name@) != orig.facts(name@));
                } else if changed {
                    let n0 = choose|n: Seq<char>| #[trigger] before.facts(n) != orig.facts(n);
                    assert(orig.facts(n0).subset_of(before.facts(n0)));
                    assert(before.facts(n0).subset_of(store.facts(n0)));
                    lemma_still_differs(orig.facts(n0), before.facts(n0), store.facts(n0));
                } else {
                    assert forall|n: Seq<char>| #[trigger] store.facts(n) == before.facts(n) by {
                        if n == name@ {
                            assert(store.facts(n) =~= before.facts(n));
                        }
                    }
                }
            }
            proof {
                assert forall|t: int| facts@.len() <= t < full.len() implies store.facts(name@).contains(fact_view(#[trigger] full[t]@)) by {
                    if t > facts@.len() {
                        assert(before.facts(name@).contains(fact_view(full[t]@)));
                    }
                }
                assert forall|q: int, s: Map<Seq<char>, Val>|
                    q0 < q < all_pending.len() && #[trigger] fires(orig, *p, prog@[q], s) implies store.facts(head_of(*p, prog@[q])).contains(fired_fact(*p, prog@[q], s)) by {
                    assert(before.facts(head_of(*p, prog@[q])).contains(fired_fact(*p, prog@[q], s)));
                }
            }
            if added {
                changed = true;
            }
        }
        proof {
            assert forall|q: int, s: Map<Seq<char>, Val>|
                pending@.len() <= q < all_pending.len() && #[trigger] fires(orig, *p, prog@[q], s) implies store.facts(head_of(*p, prog@[q])).contains(fired_fact(*p, prog@[q], s)) by {
                if q == q0 {
                    assert(fact_set(full).contains(fired_fact(*p, prog@[q], s)));
                    let t = choose|t: int| 0 <= t < full.len() && fact_view(#[trigger] full[t]@) == fired_fact(*p, prog@[q], s);
                }
            }
        }
    }
    proof {
        assert forall|n: Seq<char>| #[trigger] store.delta(n) == store.facts(n).difference(orig.facts(n)) by {
            assert(store.delta(n) == cleared.delta(n).union(store.facts(n).difference(cleared.facts(n))));
            assert(store.delta(n) =~= store.facts(n).difference(orig.facts(n)));
        }
        assert forall|n: Seq<char>|
            (forall|j: int| 0 <= j < prog@.len() ==> head_of(*p, #[trigger] prog@[j]) != n) implies #[trigger] store.facts(n) == orig.facts(n) by {
            assert forall|g: Seq<Val>| store.facts(n).contains(g) implies orig.facts(n).contains(g) by {}
            assert(orig.facts(n).subset_of(store.facts(n)));
            assert(store.facts(n) =~= orig.facts(n));
        }
        assert forall|m: spec_fn(Seq<char>, Seq<Val>) -> bool|
            plain_program(*p) && #[trigger] model_closed(*p, m) && within_model(orig, m) implies within_model(*store, m) by {
            assert forall|n: Seq<char>, g: Seq<Val>| #[trigger] store.facts(n).contains(g) implies m(n, g) by {
                if !orig.facts(n).contains(g) {
                    let j = choose|j: int|
                        0 <= j < prog@.len() && head_of(*p, #[trigger] prog@[j]) == n && derives(orig, p.inner@[prog@[j].rule as int], prog@[j].delta, g);
                    assert(plain_terms(p.inner@[prog@[j].rule as int].head.terms@));
                    lemma_derived_in_model(orig, *p, prog@[j], g, m);
                }
            }
        }
    }
    Ok(changed)
}

/// The rewritten rules of `a` followed by those of `b`.
pub fn concat_rules(a: &Vec<DeltaRule>, b: &Vec<DeltaRule>) -> (r: Vec<DeltaRule>)
    ensures
        r@ == a@ + b@,
{
    let mut r: Vec<DeltaRule> = Vec::new();
    let mut i: usize = 0;
    while i < a.len()
        invariant
            i <= a@.len(),
            r@ == a@.subrange(0, i as int),
        decreases a.len() - i,
    {
        r.push(a[i]);
        i = i + 1;
        assert(r@ =~= a@.subrange(0, i as int));
    }
    let mut j: usize = 0;
    while j < b.len()
        invariant
            i == a@.len(),
            j <= b@.len(),
            r@ == a@ + b@.subrange(0, j as int),
        decreases b.len() - j,
    {
        r.push(b[j]);
        j = j + 1;
        assert(r@ =~= a@ + b@.subrange(0, j as int));
    }
    assert(b@.subrange(0, b@.len() as int) =~= b@);
    assert(a@.subrange(0, a@.len() as int) =~= a@);
    r
}

pub proof fn lemma_plain_safe_concat(p: Program, a: Seq<DeltaRule>, b: Seq<DeltaRule>)
    requires
        plain_safe_rules(p, a),
        plain_safe_rules(p, b),
        within(p, a),
        within(p, b),
    ensures
        plain_safe_rules(p, a + b),
        within(p, a + b),
{
    assert forall|j: int| 0 <= j < (a + b).len() implies (#[trigger] (a + b)[j]).rule < p.inner@.len() by {
        if j < a.len() {
            assert((a + b)[j] == a[j]);
        } else {
            assert((a + b)[j] == b[j - a.len()]);
        }
    }
    assert forall|j: int| 0 <= j < (a + b).len() implies {
        &&& head_safe(p.inner@[(#[trigger] (a + b)[j]).rule as int])
        &&& plain_terms(p.inner@[(a + b)[j].rule as int].head.terms@)
    } by {
        if j < a.len() {
            assert((a + b)[j] == a[j]);
        } else {
            assert((a + b)[j] == b[j - a.len()]);
        }
    }
}

pub proof fn lemma_within_concat(p: Program, a: Seq<DeltaRule>, b: Seq<DeltaRule>)
    requires
        within(p, a),
        within(p, b),
    ensures
        within(p, a + b),
{
    assert forall|j: int| 0 <= j < (a + b).len() implies (#[trigger] (a + b)[j]).rule < p.inner@.len() by {
        if j < a.len() {
            assert((a + b)[j] == a[j]);
        } else {
            assert((a + b)[j] == b[j - a.len()]);
        }
    }
}

/// Runs the rewritten nonrecursive rules once, in dependency order. Where
/// there are recursive rules, then runs the rewrites of all rules round after
/// round until a round adds nothing, so that rules reading relations that
/// recursive rules derive see every fact. Returns the number of recursive
/// rounds, which is zero where there are no recursive rules.
///
/// The round limit is reached only after `usize::MAX` rounds, each of which
/// added a fact.
pub fn semi_naive_evaluation<F: SkolemFunctions>(
    store: &mut RelationStorage,
    p: &Program,
    nonrecursive: &Vec<DeltaRule>,
    recursive: &Vec<DeltaRule>,
    funcs: &F,
) -> (r: Result<usize, EvalError>)
    requires
        old(store).wf(),
        within(*p, nonrecursive@),
        within(*p, recursive@),
    ensures
        final(store).wf(),
        grows(*old(store), *final(store)),
        r matches Ok(k) ==> (k == 0 <==> recursive@.len() == 0),
        r matches Ok(k) ==> k <= final(store).fact_count() - old(store).fact_count() + 1,
        plain_safe_rules(*p, nonrecursive@) && plain_safe_rules(*p, recursive@) ==> !(r matches Err(EvalError::Rule(_))),
        plain_safe_rules(*p, nonrecursive@) && recursive@.len() == 0 ==> r == Ok::<usize, EvalError>(0),
        r matches Err(EvalError::RoundLimit) ==> final(store).fact_count() >= old(store).fact_count() + usize::MAX,
        forall|big: Set<(Seq<char>, Seq<Val>)>|
            plain_safe_rules(*p, nonrecursive@) && plain_safe_rules(*p, recursive@) && #[trigger] small_closed_bound(*old(store), *p, big) ==> r is Ok,
        closed_but_delta(*old(store), *p, nonrecursive@ + recursive@) && ordered(*p, nonrecursive@) && reads_no_own_head(
            *p,
            nonrecursive@,
        ) && r is Ok ==> closed_under(*final(store), *p, nonrecursive@ + recursive@),
        forall|m: spec_fn(Seq<char>, Seq<Val>) -> bool|
            plain_program(*p) && #[trigger] model_closed(*p, m) && within_model(*old(store), m) ==> within_model(*final(store), m),
{
    let ghost start = *store;
    let ghost all = nonrecursive@ + recursive@;
    let ghost cond = closed_but_delta(start, *p, all) && ordered(*p, nonrecursive@) && reads_no_own_head(*p, nonrecursive@);
    match materialize_nonrecursive(store, p, nonrecursive, funcs) {
        Ok(()) => {},
        Err(e) => {
            return Err(EvalError::Rule(e));
        },
    }
    proof {
        if cond {
            lemma_growth_keeps(start, *store, *p, all);
        }
    }
    if recursive.len() == 0 {
        proof {
            if cond {
                assert(all =~= nonrecursive@);
                lemma_rewrites_close(*store, *p, nonrecursive@);
            }
        }
        return Ok(0);
    }
    let round_program = concat_rules(nonrecursive, recursive);
    proof {
        lemma_within_concat(*p, nonrecursive@, recursive@);
        if plain_safe_rules(*p, nonrecursive@) && plain_safe_rules(*p, recursive@) {
            lemma_plain_safe_concat(*p, nonrecursive@, recursive@);
        }
    }
    let mut rounds: usize = 0;
    loop
        invariant
            store.wf(),
            within(*p, round_program@),
            round_program@ == all,
            all == nonrecursive@ + recursive@,
            recursive@.len() > 0,
            grows(*old(store), *store),
            start == *old(store),
            store.fact_count() >= start.fact_count() + rounds,
            cond == (closed_but_delta(start, *p, all) && ordered(*p, nonrecursive@) && reads_no_own_head(*p, nonrecursive@)),
            cond ==> closed_but_delta(*store, *p, all),
            plain_safe_rules(*p, nonrecursive@) && plain_safe_rules(*p, recursive@) ==> plain_safe_rules(*p, all),
            forall|m: spec_fn(Seq<char>, Seq<Val>) -> bool|
                plain_program(*p) && #[trigger] model_closed(*p, m) && within_model(start, m) ==> within_model(*store, m),
        decreases usize::MAX - rounds,
    {
        if rounds == usize::MAX {
            proof {
                assert forall|big: Set<(Seq<char>, Seq<Val>)>| #[trigger] small_closed_bound(start, *p, big) implies false by {
                    let m = pairs_model(big);
                    assert(within_model(*store, m));
                    assert forall|n: Seq<char>, f: Seq<Val>| #[trigger] store.facts(n).contains(f) implies big.contains((n, f)) by {
                        assert(m(n, f));
                    }
                    store.lemma_count_bounded(big);
                }
            }
            return Err(EvalError::RoundLimit);
        }
        rounds = rounds + 1;
        let ghost before = *store;
        let res = materialize_recursive(store, p, &round_program, funcs);
        proof {
            lemma_grows_trans(*old(store), before, *store);
        }
        let changed = match res {
            Ok(c) => c,
            Err(e) => {
                return Err(EvalError::Rule(e));
            },
        };
        proof {
            if cond {
                lemma_round_keeps(before, *store, *p, all);
            }
        }
        if !changed {
            proof {
                if cond {
                    assert forall|n: Seq<char>| #[trigger] store.delta(n) == Set::<Seq<Val>>::empty() by {
                        assert(store.facts(n) == before.facts(n));
                        assert(store.delta(n) =~= Set::<Seq<Val>>::empty());
                    }
                    lemma_quiet_closes(*store, *p, all);
                }
            }
            return Ok(rounds);
        }
    }
}

} // verus!
