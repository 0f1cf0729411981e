use vstd::prelude::*;
use crate::syntax::{TypedValue, Val, Program, Rule, Atom, Query, NoFunctions, SkolemFunctions, fact_view, pattern_accepts, copy_fact, head_safe};
use crate::engine::storage::{RelationStorage, fact_set, distinct_facts};
use crate::engine::delta::{DeltaRule, make_delta_program, covers};
use crate::engine::stratify::{within, head_of, ordered, recursive_relation, split_program, sort_program};
use crate::engine::semi_naive::{
    grows, semi_naive_evaluation, closed_under, covered, fires, whole, at, deltas_follow, lemma_deltas_follow_refl,
    lemma_deltas_follow_step, lemma_growth_keeps, lemma_closed_same_facts, reads_no_own_head, EvalError,
    model_closed, within_model, plain_program,
};
use crate::engine::stratify::{reads, edge, reaches};
use crate::engine::join::{atom_under, atom_holds, source, plain_terms, head_fact};
use crate::engine::semi_naive::{atom_in_model, body_in_model};
use crate::engine::query::pattern_match;

verus! {

/// An incremental Datalog runtime: facts are inserted into a pending buffer,
/// and `poll` brings the derived facts up to the least fixpoint.
pub struct MicroRuntime {
    processed: RelationStorage,
    unprocessed_insertions: RelationStorage,
    program: Program,
    nonrecursive_delta_program: Vec<DeltaRule>,
    recursive_delta_program: Vec<DeltaRule>,
}

impl MicroRuntime {
    pub closed spec fn wf(&self) -> bool {
        &&& self.processed.wf()
        &&& self.unprocessed_insertions.wf()
        &&& within(self.program, self.nonrecursive_delta_program@)
        &&& within(self.program, self.recursive_delta_program@)
        &&& ordered(self.program, self.nonrecursive_delta_program@)
        &&& forall|x: DeltaRule| #[trigger] self.nonrecursive_delta_program@.contains(x) ==> !recursive_relation(self.program, head_of(self.program, x))
        &&& forall|x: DeltaRule| #[trigger] self.recursive_delta_program@.contains(x) ==> recursive_relation(self.program, head_of(self.program, x))
        &&& forall|i: usize|
            i < self.program.inner@.len() && self.program.inner@[i as int].body@.len() > 0 && recursive_relation(
                self.program,
                self.program.inner@[i as int].head.symbol@,
            ) ==> #[trigger] covered(self.program, self.recursive_delta_program@, i)
        &&& forall|i: int| 0 <= i < self.program.inner@.len() ==> head_safe(#[trigger] self.program.inner@[i])
        &&& forall|i: usize|
            i < self.program.inner@.len() && self.program.inner@[i as int].body@.len() > 0 && !recursive_relation(
                self.program,
                self.program.inner@[i as int].head.symbol@,
            ) ==> #[trigger] covered(self.program, self.nonrecursive_delta_program@, i)
    }

    /// Under the assignment, the atom agrees with a processed fact.
    pub open spec fn atom_stored(&self, a: Atom, s: Map<Seq<char>, Val>) -> bool {
        exists|f: Seq<Val>| #[trigger] self.facts(a.symbol@).contains(f) && atom_under(a.terms@, f, s)
    }

    /// Under the assignment, every atom of the rule's body agrees with a
    /// processed fact.
    pub open spec fn body_holds(&self, r: Rule, s: Map<Seq<char>, Val>) -> bool {
        forall|q: int| 0 <= q < r.body@.len() ==> #[trigger] self.atom_stored(r.body@[q], s)
    }

    /// The processed facts are closed under every rule that has a body and
    /// whose head holds no value-inventing term: where its body holds under an
    /// assignment, its head fact is stored.
    pub open spec fn closed_under_rules(&self) -> bool {
        forall|i: usize, s: Map<Seq<char>, Val>|
            i < self.rules().inner@.len() && self.rules().inner@[i as int].body@.len() > 0 && plain_terms(
                self.rules().inner@[i as int].head.terms@,
            ) && #[trigger] self.body_holds(self.rules().inner@[i as int], s) ==> self.facts(self.rules().inner@[i as int].head.symbol@).contains(
                head_fact(self.rules().inner@[i as int].head.terms@, s),
            )
    }

    /// The rewrites of every rule, nonrecursive ones first.
    pub closed spec fn all_rewrites(&self) -> Seq<DeltaRule> {
        self.nonrecursive_delta_program@ + self.recursive_delta_program@
    }

    proof fn lemma_body_holds_fires(&self, i: usize, s: Map<Seq<char>, Val>)
        requires
            i < self.program.inner@.len(),
        ensures
            fires(self.processed, self.program, whole(i), s) == (self.body_holds(self.program.inner@[i as int], s) && plain_terms(
                self.program.inner@[i as int].head.terms@,
            )),
    {
        let r = self.program.inner@[i as int];
        if self.body_holds(r, s) {
            assert forall|q: int| 0 <= q < r.body@.len() implies #[trigger] atom_holds(self.processed, r.body@[q], q, None, s) by {
                assert(self.atom_stored(r.body@[q], s));
                let f = choose|f: Seq<Val>| #[trigger] self.facts(r.body@[q].symbol@).contains(f) && atom_under(r.body@[q].terms@, f, s);
                assert(source(self.processed, r.body@[q], q, None).contains(f));
            }
        }
        if fires(self.processed, self.program, whole(i), s) {
            assert forall|q: int| 0 <= q < r.body@.len() implies #[trigger] self.atom_stored(r.body@[q], s) by {
                assert(atom_holds(self.processed, r.body@[q], q, None, s));
                let f = choose|f: Seq<Val>| #[trigger] source(self.processed, r.body@[q], q, None).contains(f) && atom_under(r.body@[q].terms@, f, s);
                assert(self.facts(r.body@[q].symbol@).contains(f));
            }
        }
    }

    proof fn lemma_closed_iff(&self)
        requires
            self.wf(),
        ensures
            closed_under(self.processed, self.program, self.all_rewrites()) == self.closed_under_rules(),
            reads_no_own_head(self.program, self.nonrecursive_delta_program@),
    {
        let p = self.program;
        let nr = self.nonrecursive_delta_program@;
        let rc = self.recursive_delta_program@;
        let all = self.all_rewrites();
        assert forall|i: usize| #[trigger] covered(p, all, i) == (i < p.inner@.len() && p.inner@[i as int].body@.len() > 0) by {
            if i < p.inner@.len() && p.inner@[i as int].body@.len() > 0 {
                if recursive_relation(p, p.inner@[i as int].head.symbol@) {
                    assert(covered(p, rc, i));
                    assert forall|k: usize| k < p.inner@[i as int].body@.len() implies #[trigger] all.contains(at(i, k)) by {
                        assert(rc.contains(at(i, k)));
                        let q = choose|q: int| 0 <= q < rc.len() && rc[q] == at(i, k);
                        assert(all[nr.len() + q] == at(i, k));
                    }
                } else {
                    assert(covered(p, nr, i));
                    assert forall|k: usize| k < p.inner@[i as int].body@.len() implies #[trigger] all.contains(at(i, k)) by {
                        assert(nr.contains(at(i, k)));
                        let q = choose|q: int| 0 <= q < nr.len() && nr[q] == at(i, k);
                        assert(all[q] == at(i, k));
                    }
                }
            }
        }
        if closed_under(self.processed, p, all) {
            assert forall|i: usize, s: Map<Seq<char>, Val>|
                i < self.rules().inner@.len() && self.rules().inner@[i as int].body@.len() > 0 && plain_terms(
                    self.rules().inner@[i as int].head.terms@,
                ) && #[trigger] self.body_holds(self.rules().inner@[i as int], s) implies self.facts(self.rules().inner@[i as int].head.symbol@).contains(
                    head_fact(self.rules().inner@[i as int].head.terms@, s),
                ) by {
                self.lemma_body_holds_fires(i, s);
                assert(covered(p, all, i));
                assert(fires(self.processed, p, whole(i), s));
            }
        }
        if self.closed_under_rules() {
            assert forall|i: usize, s: Map<Seq<char>, Val>|
                covered(p, all, i) && #[trigger] fires(self.processed, p, whole(i), s) implies self.processed.facts(p.inner@[i as int].head.symbol@).contains(
                    head_fact(p.inner@[i as int].head.terms@, s),
                ) by {
                self.lemma_body_holds_fires(i, s);
                assert(self.body_holds(self.rules().inner@[i as int], s));
            }
        }
        assert forall|j: int| 0 <= j < nr.len() implies !reads(p, #[trigger] nr[j], head_of(p, nr[j])) by {
            assert(nr.contains(nr[j]));
            if reads(p, nr[j], head_of(p, nr[j])) {
                let h = head_of(p, nr[j]);
                let k = choose|k: int| 0 <= k < p.inner@[nr[j].rule as int].body@.len() && (#[trigger] p.inner@[nr[j].rule as int].body@[k]).symbol@ == h;
                assert(edge(p, h, h));
                assert(reaches(p, h, h, 1));
                assert(recursive_relation(p, h));
            }
        }
    }

    /// The processed facts of the relation `name`.
    pub closed spec fn facts(&self, name: Seq<char>) -> Set<Seq<Val>> {
        self.processed.facts(name)
    }

    /// The inserted facts of the relation `name` that no poll has processed yet.
    pub closed spec fn pending(&self, name: Seq<char>) -> Set<Seq<Val>> {
        self.unprocessed_insertions.facts(name)
    }

    /// `big` is a finite set of (relation, fact) pairs that is closed under
    /// the rules and holds every processed and every pending fact.
    pub open spec fn closed_bound(&self, big: Set<(Seq<char>, Seq<Val>)>) -> bool {
        &&& big.finite()
        &&& model_closed(self.rules(), |n: Seq<char>, f: Seq<Val>| big.contains((n, f)))
        &&& forall|n: Seq<char>, f: Seq<Val>|
            (#[trigger] self.facts(n).contains(f) || self.pending(n).contains(f)) ==> big.contains((n, f))
    }

    /// The number of processed facts, over all relations.
    pub closed spec fn fact_count(&self) -> nat {
        self.processed.fact_count()
    }

    /// The relation `name` is registered.
    pub closed spec fn knows(&self, name: Seq<char>) -> bool {
        self.processed.has(name)
    }

    /// The program the runtime evaluates.
    pub closed spec fn rules(&self) -> Program {
        self.program
    }

    /// Some rewritten rule must be iterated to a fixpoint.
    pub closed spec fn has_recursive_rules(&self) -> bool {
        self.recursive_delta_program@.len() > 0
    }

    /// Nothing inserted is waiting for a poll.
    pub open spec fn is_safe(&self) -> bool {
        forall|n: Seq<char>| #[trigger] self.pending(n) == Set::<Seq<Val>>::empty()
    }

    /// Every relation that a rule names is registered.
    pub open spec fn knows_program(&self, p: Program) -> bool {
        &&& forall|i: int| 0 <= i < p.inner@.len() ==> self.knows(#[trigger] p.inner@[i].head.symbol@)
        &&& forall|i: int, k: int|
            0 <= i < p.inner@.len() && 0 <= k < p.inner@[i].body@.len() ==> self.knows(#[trigger] p.inner@[i].body@[k].symbol@)
    }

    /// A runtime for the program, with every relation it names registered and
    /// empty. Fails exactly where a head variable of some rule does not stand
    /// in that rule's body.
    pub fn new(program: Program) -> (r: Result<MicroRuntime, String>)
        ensures
            r is Err <==> exists|i: int| 0 <= i < program.inner@.len() && !head_safe(#[trigger] program.inner@[i]),
            r matches Ok(rt) ==> {
                &&& rt.wf()
                &&& rt.is_safe()
                &&& rt.rules() == program
                &&& rt.knows_program(program)
                &&& rt.closed_under_rules()
                &&& forall|n: Seq<char>| #[trigger] rt.facts(n) == Set::<Seq<Val>>::empty()
            },
    {
        let mut q: usize = 0;
        while q < program.inner.len()
            invariant
                q <= program.inner@.len(),
                forall|t: int| 0 <= t < q ==> head_safe(#[trigger] program.inner@[t]),
            decreases program.inner.len() - q,
        {
            if !program.inner[q].is_head_safe() {
                return Err("a head variable does not occur in the rule's body".to_owned());
            }
            q = q + 1;
        }
        let mut processed = RelationStorage::new();
        let mut unprocessed = RelationStorage::new();
        let mut i: usize = 0;
        while i < program.inner.len()
            invariant
                i <= program.inner@.len(),
                processed.wf(),
                unprocessed.wf(),
                forall|n: Seq<char>| #[trigger] processed.facts(n) == Set::<Seq<Val>>::empty(),
                forall|n: Seq<char>| #[trigger] unprocessed.facts(n) == Set::<Seq<Val>>::empty(),
                forall|q: int| 0 <= q < i ==> processed.has(#[trigger] program.inner@[q].head.symbol@),
                forall|q: int, k: int|
                    0 <= q < i && 0 <= k < program.inner@[q].body@.len() ==> processed.has(#[trigger] program.inner@[q].body@[k].symbol@),
            decreases program.inner.len() - i,
        {
            let rule = &program.inner[i];
            processed.register(rule.head.symbol.as_str());
            unprocessed.register(rule.head.symbol.as_str());
            let mut k: usize = 0;
            while k < rule.body.len()
                invariant
                    i < program.inner@.len(),
                    *rule == program.inner@[i as int],
                    k <= rule.body@.len(),
                    processed.wf(),
                    unprocessed.wf(),
                    forall|n: Seq<char>| #[trigger] processed.facts(n) == Set::<Seq<Val>>::empty(),
                    forall|n: Seq<char>| #[trigger] unprocessed.facts(n) == Set::<Seq<Val>>::empty(),
                    forall|q: int| 0 <= q <= i ==> processed.has(#[trigger] program.inner@[q].head.symbol@),
                    forall|q: int, m: int|
                        (0 <= q < i && 0 <= m < program.inner@[q].body@.len()) || (q == i && 0 <= m < k) ==> processed.has(
                            #[trigger] program.inner@[q].body@[m].symbol@,
                        ),
                decreases rule.body.len() - k,
            {
                processed.register(rule.body[k].symbol.as_str());
                unprocessed.register(rule.body[k].symbol.as_str());
                k = k + 1;
            }
            i = i + 1;
        }
        let all = make_delta_program(&program, true);
        let (nonrec, rec) = split_program(&program, all);
        let ghost nonrec_v = nonrec@;
        let sorted = match sort_program(&program, nonrec) {
            Ok(s) => s,
            Err(e) => {
                return Err(e);
            },
        };
        let ghost all_rules = all@;
        let rt = MicroRuntime {
            processed,
            unprocessed_insertions: unprocessed,
            program,
            nonrecursive_delta_program: sorted,
            recursive_delta_program: rec,
        };
        proof {
            let p = rt.program;
            assert forall|i: usize|
                i < p.inner@.len() && p.inner@[i as int].body@.len() > 0 && recursive_relation(p, p.inner@[i as int].head.symbol@)
                    implies #[trigger] covered(p, rt.recursive_delta_program@, i) by {
                assert forall|k: usize| k < p.inner@[i as int].body@.len() implies #[trigger] rt.recursive_delta_program@.contains(at(i, k)) by {
                    assert(covers(all_rules, i, k));
                    assert(head_of(p, at(i, k)) == p.inner@[i as int].head.symbol@);
                }
            }
            assert forall|i: usize|
                i < p.inner@.len() && p.inner@[i as int].body@.len() > 0 && !recursive_relation(p, p.inner@[i as int].head.symbol@)
                    implies #[trigger] covered(p, rt.nonrecursive_delta_program@, i) by {
                assert forall|k: usize| k < p.inner@[i as int].body@.len() implies #[trigger] rt.nonrecursive_delta_program@.contains(at(i, k)) by {
                    assert(covers(all_rules, i, k));
                    assert(head_of(p, at(i, k)) == p.inner@[i as int].head.symbol@);
                    assert(nonrec_v.contains(at(i, k)));
                }
            }
            assert forall|i: usize, s: Map<Seq<char>, Val>|
                i < rt.rules().inner@.len() && rt.rules().inner@[i as int].body@.len() > 0 && plain_terms(
                    rt.rules().inner@[i as int].head.terms@,
                ) && #[trigger] rt.body_holds(rt.rules().inner@[i as int], s) implies rt.facts(rt.rules().inner@[i as int].head.symbol@).contains(
                    head_fact(rt.rules().inner@[i as int].head.terms@, s),
                ) by {
                let r = rt.rules().inner@[i as int];
                assert(rt.atom_stored(r.body@[0], s));
            }
        }
        Ok(rt)
    }

    /// Buffers a fact for the relation; it becomes visible after the next
    /// poll. Returns whether it was new to the buffer.
    pub fn insert(&mut self, relation: &str, ground_atom: Vec<TypedValue>) -> (r: bool)
        requires
            old(self).wf(),
        ensures
            final(self).wf(),
            !final(self).is_safe(),
            r == !old(self).pending(relation@).contains(fact_view(ground_atom@)),
            forall|n: Seq<char>| #[trigger] final(self).pending(n) == if n == relation@ {
                old(self).pending(n).insert(fact_view(ground_atom@))
            } else {
                old(self).pending(n)
            },
            forall|n: Seq<char>| #[trigger] final(self).facts(n) == old(self).facts(n),
            forall|n: Seq<char>| #[trigger] final(self).knows(n) == old(self).knows(n),
            final(self).rules() == old(self).rules(),
            final(self).closed_under_rules() == old(self).closed_under_rules(),
    {
        let ghost v = fact_view(ground_atom@);
        let ghost before = *self;
        let r = self.unprocessed_insertions.insert_fact(relation, ground_atom, false);
        assert(self.pending(relation@).contains(v));
        proof {
            if before.closed_under_rules() {
                MicroRuntime::lemma_closure_kept(before, *self);
            }
            if self.closed_under_rules() {
                MicroRuntime::lemma_closure_kept(*self, before);
            }
        }
        r
    }

    proof fn lemma_closure_kept(a: MicroRuntime, b: MicroRuntime)
        requires
            a.processed == b.processed,
            a.program == b.program,
            a.closed_under_rules(),
        ensures
            b.closed_under_rules(),
    {
        assert forall|i: usize, s: Map<Seq<char>, Val>|
            i < b.rules().inner@.len() && b.rules().inner@[i as int].body@.len() > 0 && plain_terms(b.rules().inner@[i as int].head.terms@) && #[trigger] b.body_holds(
                b.rules().inner@[i as int],
                s,
            ) implies b.facts(b.rules().inner@[i as int].head.symbol@).contains(head_fact(b.rules().inner@[i as int].head.terms@, s)) by {
            let r = b.rules().inner@[i as int];
            assert forall|q: int| 0 <= q < r.body@.len() implies #[trigger] a.atom_stored(r.body@[q], s) by {
                assert(b.atom_stored(r.body@[q], s));
                let f = choose|f: Seq<Val>| #[trigger] b.facts(r.body@[q].symbol@).contains(f) && atom_under(r.body@[q].terms@, f, s);
                assert(a.facts(r.body@[q].symbol@).contains(f));
            }
            assert(a.rules() == b.rules());
            assert(a.body_holds(a.rules().inner@[i as int], s));
            assert(a.facts(r.head.symbol@) == b.facts(r.head.symbol@));
        }
    }

    /// Whether nothing inserted is waiting for a poll.
    pub fn safe(&self) -> (r: bool)
        requires
            self.wf(),
        ensures
            r == self.is_safe(),
    {
        let r = self.unprocessed_insertions.is_empty();
        assert(r == self.is_safe()) by {
            if !r {
                let n = choose|n: Seq<char>| !(#[trigger] self.unprocessed_insertions.facts(n) == Set::<Seq<Val>>::empty());
                assert(self.pending(n) != Set::<Seq<Val>>::empty());
            } else {
                assert forall|n: Seq<char>| #[trigger] self.pending(n) == Set::<Seq<Val>>::empty() by {
                    assert(self.unprocessed_insertions.facts(n) == Set::<Seq<Val>>::empty());
                }
            }
        }
        r
    }

    /// Whether the relation holds the fact. Fails while inserted facts wait
    /// for a poll.
    pub fn contains(&self, relation: &str, ground_atom: &Vec<TypedValue>) -> (r: Result<bool, String>)
        requires
            self.wf(),
        ensures
            r is Err <==> !self.is_safe(),
            r matches Ok(b) ==> b == self.facts(relation@).contains(fact_view(ground_atom@)),
    {
        if !self.safe() {
            return Err("poll needed to obtain correct results".to_owned());
        }
        Ok(self.processed.contains(relation, ground_atom))
    }

    /// The facts of the query's relation that its matchers accept, each once.
    /// Fails while inserted facts wait for a poll.
    pub fn query(&self, query: &Query) -> (r: Result<Vec<Vec<TypedValue>>, String>)
        requires
            self.wf(),
        ensures
            r is Err <==> !self.is_safe(),
            r matches Ok(v) ==> distinct_facts(v@),
            r matches Ok(v) ==> forall|f: Seq<Val>| #[trigger] fact_set(v@).contains(f) <==> self.facts(query.symbol@).contains(f)
                && pattern_accepts(query.matchers@, f),
    {
        if !self.safe() {
            return Err("poll needed to obtain correct results".to_owned());
        }
        let mut out: Vec<Vec<TypedValue>> = Vec::new();
        match self.processed.find(query.symbol) {
            None => {
                proof {
                    self.processed.lemma_absent(query.symbol@);
                    assert forall|f: Seq<Val>| #[trigger] fact_set(out@).contains(f) <==> self.facts(query.symbol@).contains(f)
                        && pattern_accepts(query.matchers@, f) by {}
                }
                Ok(out)
            },
            Some(i) => {
                proof {
                    self.processed.lemma_at(i as int);
                    assert(self.processed.relations@[i as int].wf());
                }
                let facts = &self.processed.relations[i].facts;
                let mut j: usize = 0;
                while j < facts.len()
                    invariant
                        j <= facts@.len(),
                        distinct_facts(facts@),
                        distinct_facts(out@),
                        forall|t: int| 0 <= t < out@.len() ==> exists|s: int| 0 <= s < j && fact_view((#[trigger] out@[t])@) == fact_view(facts@[s]@),
                        forall|f: Seq<Val>| #[trigger] fact_set(out@).contains(f) <==> fact_set(facts@.subrange(0, j as int)).contains(f)
                            && pattern_accepts(query.matchers@, f),
                    decreases facts.len() - j,
                {
                    let ghost before = out@;
                    if pattern_match(query, &facts[j]) {
                        let c = copy_fact(&facts[j]);
                        out.push(c);
                        proof {
                            assert forall|a: int, b: int| 0 <= a < out@.len() && 0 <= b < out@.len() && a != b implies fact_view(
                                #[trigger] out@[a]@) != fact_view(#[trigger] out@[b]@) by {
                                if a == before.len() as int {
                                    let s = choose|s: int| 0 <= s < j && fact_view(out@[b]@) == fact_view(facts@[s]@);
                                } else if b == before.len() as int {
                                    let s = choose|s: int| 0 <= s < j && fact_view(out@[a]@) == fact_view(facts@[s]@);
                                } else {
                                    assert(out@[a] == before[a] && out@[b] == before[b]);
                                }
                            }
                            assert forall|t: int| 0 <= t < out@.len() implies exists|s: int| 0 <= s < j + 1 && fact_view((#[trigger] out@[t])@) == fact_view(facts@[s]@) by {
                                if t < before.len() {
                                    assert(out@[t] == before[t]);
                                    let s = choose|s: int| 0 <= s < j && fact_view(before[t]@) == fact_view(facts@[s]@);
                                } else {
                                    assert(fact_view(out@[t]@) == fact_view(facts@[j as int]@));
                                }
                            }
                        }
                    } else {
                        proof {
                            assert forall|t: int| 0 <= t < out@.len() implies exists|s: int| 0 <= s < j + 1 && fact_view((#[trigger] out@[t])@) == fact_view(facts@[s]@) by {
                                let s = choose|s: int| 0 <= s < j && fact_view(out@[t]@) == fact_view(facts@[s]@);
                            }
                        }
                    }
                    proof {
                        assert(facts@.subrange(0, j + 1) =~= facts@.subrange(0, j as int).push(facts@[j as int]));
                        crate::engine::storage::lemma_fact_set_push(facts@.subrange(0, j as int), facts@[j as int]);
                        if out@.len() > before.len() {
                            assert(out@ == before.push(out@.last()));
                            crate::engine::storage::lemma_fact_set_push(before, out@.last());
                        }
                    }
                    j = j + 1;
                }
                assert(facts@.subrange(0, facts@.len() as int) =~= facts@);
                Ok(out)
            },
        }
    }

    /// Processes the buffered facts, with no functions for value-inventing
    /// terms; see `poll_with`.
    pub fn poll(&mut self) -> (r: Result<usize, EvalError>)
        requires
            old(self).wf(),
        ensures
            final(self).wf(),
            final(self).is_safe(),
            final(self).rules() == old(self).rules(),
            final(self).has_recursive_rules() == old(self).has_recursive_rules(),
            forall|n: Seq<char>| #[trigger] old(self).facts(n).subset_of(final(self).facts(n)),
            forall|n: Seq<char>| #[trigger] old(self).pending(n).subset_of(final(self).facts(n)),
            old(self).is_safe() ==> r == Ok::<usize, EvalError>(0) && forall|n: Seq<char>| #[trigger] final(self).facts(n) == old(self).facts(n),
            !old(self).is_safe() ==> (r matches Ok(k) ==> (k == 0 <==> !old(self).has_recursive_rules())),
            old(self).closed_under_rules() && r is Ok ==> final(self).closed_under_rules(),
            plain_program(old(self).rules()) ==> !(r matches Err(EvalError::Rule(_))),
            r matches Err(EvalError::RoundLimit) ==> final(self).fact_count() >= old(self).fact_count() + usize::MAX,
            r matches Ok(k) ==> k <= final(self).fact_count() - old(self).fact_count() + 1,
            plain_program(old(self).rules()) ==> r is Ok || final(self).fact_count() >= old(self).fact_count() + usize::MAX,
            plain_program(old(self).rules()) && !old(self).has_recursive_rules() ==> r == Ok::<usize, EvalError>(0),
            forall|big: Set<(Seq<char>, Seq<Val>)>|
                plain_program(old(self).rules()) && #[trigger] old(self).closed_bound(big) && big.len() < usize::MAX ==> r is Ok,
            forall|m: spec_fn(Seq<char>, Seq<Val>) -> bool|
                plain_program(old(self).rules()) && #[trigger] model_closed(old(self).rules(), m) && (forall|n: Seq<char>, f: Seq<Val>|
                    (#[trigger] old(self).facts(n).contains(f) || old(self).pending(n).contains(f)) ==> m(n, f)) ==> (forall|n: Seq<char>, f: Seq<Val>|
                    #[trigger] final(self).facts(n).contains(f) ==> m(n, f)),
    {
        self.poll_with(&NoFunctions)
    }

    /// Processes the buffered facts: adds them to their relations, runs the
    /// nonrecursive rules once in dependency order and then, where there are
    /// recursive rules, all rules round after round until nothing new
    /// appears, and clears the deltas. The value-inventing
    /// terms of the program are computed by `funcs`. Returns the number of
    /// recursive rounds.
    ///
    /// For a program without value-inventing head terms this fails only at
    /// the round limit, which needs `usize::MAX` rounds that each add a fact:
    /// it succeeds wherever some set of fewer than `usize::MAX` facts is closed
    /// under the rules and holds the facts before and the buffered ones, and
    /// without recursive rules it succeeds with no recursive round. The facts
    /// afterwards lie in every such closed set. A success keeps the facts
    /// closed under every rule that has a body.
    pub fn poll_with<F: SkolemFunctions>(&mut self, funcs: &F) -> (r: Result<usize, EvalError>)
        requires
            old(self).wf(),
        ensures
            final(self).wf(),
            final(self).is_safe(),
            final(self).rules() == old(self).rules(),
            final(self).has_recursive_rules() == old(self).has_recursive_rules(),
            forall|n: Seq<char>| #[trigger] old(self).facts(n).subset_of(final(self).facts(n)),
            forall|n: Seq<char>| #[trigger] old(self).pending(n).subset_of(final(self).facts(n)),
            old(self).is_safe() ==> r == Ok::<usize, EvalError>(0) && forall|n: Seq<char>| #[trigger] final(self).facts(n) == old(self).facts(n),
            !old(self).is_safe() ==> (r matches Ok(k) ==> (k == 0 <==> !old(self).has_recursive_rules())),
            old(self).closed_under_rules() && r is Ok ==> final(self).closed_under_rules(),
            plain_program(old(self).rules()) ==> !(r matches Err(EvalError::Rule(_))),
            r matches Err(EvalError::RoundLimit) ==> final(self).fact_count() >= old(self).fact_count() + usize::MAX,
            r matches Ok(k) ==> k <= final(self).fact_count() - old(self).fact_count() + 1,
            plain_program(old(self).rules()) ==> r is Ok || final(self).fact_count() >= old(self).fact_count() + usize::MAX,
            plain_program(old(self).rules()) && !old(self).has_recursive_rules() ==> r == Ok::<usize, EvalError>(0),
            forall|big: Set<(Seq<char>, Seq<Val>)>|
                plain_program(old(self).rules()) && #[trigger] old(self).closed_bound(big) && big.len() < usize::MAX ==> r is Ok,
            forall|m: spec_fn(Seq<char>, Seq<Val>) -> bool|
                plain_program(old(self).rules()) && #[trigger] model_closed(old(self).rules(), m) && (forall|n: Seq<char>, f: Seq<Val>|
                    (#[trigger] old(self).facts(n).contains(f) || old(self).pending(n).contains(f)) ==> m(n, f)) ==> (forall|n: Seq<char>, f: Seq<Val>|
                    #[trigger] final(self).facts(n).contains(f) ==> m(n, f)),
    {
        if self.safe() {
            return Ok(0);
        }
        let ghost orig = *self;
        proof {
            self.lemma_closed_iff();
            lemma_deltas_follow_refl(orig.processed);
            if plain_program(self.program) {
                assert forall|j: int| 0 <= j < self.nonrecursive_delta_program@.len() implies {
                    &&& head_safe(self.program.inner@[(#[trigger] self.nonrecursive_delta_program@[j]).rule as int])
                    &&& plain_terms(self.program.inner@[self.nonrecursive_delta_program@[j].rule as int].head.terms@)
                } by {
                    assert(head_safe(self.program.inner@[self.nonrecursive_delta_program@[j].rule as int]));
                }
                assert forall|j: int| 0 <= j < self.recursive_delta_program@.len() implies {
                    &&& head_safe(self.program.inner@[(#[trigger] self.recursive_delta_program@[j]).rule as int])
                    &&& plain_terms(self.program.inner@[self.recursive_delta_program@[j].rule as int].head.terms@)
                } by {
                    assert(head_safe(self.program.inner@[self.recursive_delta_program@[j].rule as int]));
                }
            }
        }
        let mut i: usize = 0;
        while i < self.unprocessed_insertions.relations.len()
            invariant
                self.wf(),
                self.unprocessed_insertions == orig.unprocessed_insertions,
                self.program == orig.program,
                self.recursive_delta_program == orig.recursive_delta_program,
                self.nonrecursive_delta_program == orig.nonrecursive_delta_program,
                i <= self.unprocessed_insertions.relations@.len(),
                grows(orig.processed, self.processed),
                deltas_follow(orig.processed, self.processed),
                self.processed.fact_count() >= orig.processed.fact_count(),
                forall|n: Seq<char>, g: Seq<Val>| #[trigger] self.processed.facts(n).contains(g) ==> orig.processed.facts(n).contains(g) || orig.pending(n).contains(g),
                forall|q: int| 0 <= q < i ==> fact_set((#[trigger] self.unprocessed_insertions.relations@[q]).facts@).subset_of(
                    self.processed.facts(self.unprocessed_insertions.relations@[q].name@)),
            decreases self.unprocessed_insertions.relations.len() - i,
        {
            let name = self.unprocessed_insertions.relations[i].name.as_str();
            let mut j: usize = 0;
            while j < self.unprocessed_insertions.relations[i].facts.len()
                invariant
                    self.wf(),
                    self.unprocessed_insertions == orig.unprocessed_insertions,
                    self.program == orig.program,
                    self.recursive_delta_program == orig.recursive_delta_program,
                    self.nonrecursive_delta_program == orig.nonrecursive_delta_program,
                    i < self.unprocessed_insertions.relations@.len(),
                    name@ == self.unprocessed_insertions.relations@[i as int].name@,
                    j <= self.unprocessed_insertions.relations@[i as int].facts@.len(),
                    grows(orig.processed, self.processed),
                    deltas_follow(orig.processed, self.processed),
                    self.processed.fact_count() >= orig.processed.fact_count(),
                    forall|n: Seq<char>, g: Seq<Val>| #[trigger] self.processed.facts(n).contains(g) ==> orig.processed.facts(n).contains(g) || orig.pending(n).contains(g),
                    forall|q: int| 0 <= q < i ==> fact_set((#[trigger] self.unprocessed_insertions.relations@[q]).facts@).subset_of(
                        self.processed.facts(self.unprocessed_insertions.relations@[q].name@)),
                    forall|t: int| 0 <= t < j ==> self.processed.facts(name@).contains(fact_view((#[trigger] self.unprocessed_insertions.relations@[i as int].facts@[t])@)),
                decreases self.unprocessed_insertions.relations@[i as int].facts@.len() - j,
            {
                let f = copy_fact(&self.unprocessed_insertions.relations[i].facts[j]);
                let ghost before = self.processed;
                let ghost fv = fact_view(f@);
                let added = self.processed.insert_fact(name, f, true);
                proof {
                    lemma_deltas_follow_step(orig.processed, before, self.processed, name@, fv, added);
                    self.unprocessed_insertions.lemma_at(i as int);
                    assert(fact_set(self.unprocessed_insertions.relations@[i as int].facts@).contains(fv));
                    assert forall|n: Seq<char>, g: Seq<Val>| #[trigger] self.processed.facts(n).contains(g) implies orig.processed.facts(n).contains(g) || orig.pending(n).contains(g) by {
                        if !(n == name@ && g == fv) {
                            assert(before.facts(n).contains(g));
                        }
                    }
                    assert forall|n: Seq<char>| #[trigger] before.facts(n).subset_of(self.processed.facts(n)) by {}
                    crate::engine::semi_naive::lemma_grows_trans(orig.processed, before, self.processed);
                    assert forall|q: int| 0 <= q < i implies fact_set((#[trigger] self.unprocessed_insertions.relations@[q]).facts@).subset_of(
                        self.processed.facts(self.unprocessed_insertions.relations@[q].name@)) by {
                        let nq = self.unprocessed_insertions.relations@[q].name@;
                        assert(before.facts(nq).subset_of(self.processed.facts(nq)));
                    }
                    assert forall|t: int| 0 <= t < j + 1 implies self.processed.facts(name@).contains(fact_view((#[trigger] self.unprocessed_insertions.relations@[i as int].facts@[t])@)) by {
                        if t < j {
                            assert(before.facts(name@).contains(fact_view(self.unprocessed_insertions.relations@[i as int].facts@[t]@)));
                        }
                    }
                }
                j = j + 1;
            }
            proof {
                let rel = self.unprocessed_insertions.relations@[i as int];
                assert forall|g: Seq<Val>| fact_set(rel.facts@).contains(g) implies self.processed.facts(rel.name@).contains(g) by {
                    let t = choose|t: int| 0 <= t < rel.facts@.len() && fact_view(#[trigger] rel.facts@[t]@) == g;
                }
            }
            i = i + 1;
        }
        let ghost moved = self.processed;
        assert(forall|n: Seq<char>, g: Seq<Val>| #[trigger] moved.facts(n).contains(g) ==> orig.processed.facts(n).contains(g) || orig.pending(n).contains(g));
        proof {
            if closed_under(orig.processed, orig.program, orig.all_rewrites()) {
                lemma_growth_keeps(orig.processed, moved, self.program, self.all_rewrites());
            }
            assert forall|n: Seq<char>| #[trigger] orig.pending(n).subset_of(moved.facts(n)) by {
                if orig.unprocessed_insertions.has(n) {
                    let q = choose|q: int| 0 <= q < orig.unprocessed_insertions.relations@.len() && (#[trigger] orig.unprocessed_insertions.relations@[q]).name@ == n;
                    orig.unprocessed_insertions.lemma_at(q);
                } else {
                    orig.unprocessed_insertions.lemma_absent(n);
                }
            }
        }
        self.unprocessed_insertions.clear_all();
        assert(self.processed == moved);
        let r = semi_naive_evaluation(
            &mut self.processed,
            &self.program,
            &self.nonrecursive_delta_program,
            &self.recursive_delta_program,
            funcs,
        );
        let ghost evaluated = self.processed;
        self.processed.clear_deltas();
        proof {
            crate::engine::semi_naive::lemma_grows_trans(orig.processed, moved, evaluated);
            assert forall|n: Seq<char>| #[trigger] orig.pending(n).subset_of(self.facts(n)) by {
                assert(orig.pending(n).subset_of(moved.facts(n)));
                assert(moved.facts(n).subset_of(evaluated.facts(n)));
            }
            assert forall|n: Seq<char>| #[trigger] orig.facts(n).subset_of(self.facts(n)) by {
                assert(orig.processed.facts(n).subset_of(evaluated.facts(n)));
            }
            assert forall|n: Seq<char>| #[trigger] self.pending(n) == Set::<Seq<Val>>::empty() by {
                assert(self.unprocessed_insertions.facts(n) == Set::<Seq<Val>>::empty());
            }
            if orig.closed_under_rules() && r is Ok {
                lemma_closed_same_facts(evaluated, self.processed, self.program, self.all_rewrites());
            }
            self.lemma_closed_iff();
            assert forall|big: Set<(Seq<char>, Seq<Val>)>|
                plain_program(orig.rules()) && #[trigger] orig.closed_bound(big) && big.len() < usize::MAX implies r is Ok by {
                let m = |n: Seq<char>, f: Seq<Val>| big.contains((n, f));
                assert forall|n: Seq<char>, g: Seq<Val>| #[trigger] moved.facts(n).contains(g) implies m(n, g) by {
                    if orig.processed.facts(n).contains(g) {
                        assert(orig.facts(n).contains(g));
                    } else {
                        assert(orig.pending(n).contains(g));
                    }
                }
                assert(within_model(moved, m));
                assert(plain_program(self.program));
                assert(model_closed(self.program, m));
                assert(within_model(evaluated, m));
                assert forall|n: Seq<char>, f: Seq<Val>| #[trigger] self.processed.facts(n).contains(f) implies big.contains((n, f)) by {
                    assert(evaluated.facts(n).contains(f));
                }
                self.processed.lemma_count_bounded(big);
            }
            assert forall|m: spec_fn(Seq<char>, Seq<Val>) -> bool|
                plain_program(orig.rules()) && #[trigger] model_closed(orig.rules(), m) && (forall|n: Seq<char>, f: Seq<Val>|
                    (#[trigger] orig.facts(n).contains(f) || orig.pending(n).contains(f)) ==> m(n, f)) implies (forall|n: Seq<char>, f: Seq<Val>|
                    #[trigger] self.facts(n).contains(f) ==> m(n, f)) by {
                assert forall|n: Seq<char>, g: Seq<Val>| #[trigger] moved.facts(n).contains(g) implies m(n, g) by {
                    if orig.processed.facts(n).contains(g) {
                        assert(orig.facts(n).contains(g));
                    } else {
                        assert(orig.pending(n).contains(g));
                    }
                }
                assert(within_model(moved, m));
                assert(plain_program(self.program));
                assert(model_closed(self.program, m));
                assert(within_model(evaluated, m));
                assert forall|n: Seq<char>, f: Seq<Val>| #[trigger] self.facts(n).contains(f) implies m(n, f) by {
                    assert(evaluated.facts(n).contains(f));
                }
            }
        }
        r
    }

    /// The runtime of a program in which no relation depends on itself has
    /// no recursive rules, so each poll ends after the seed pass with zero
    /// recursive rounds.
    pub proof fn acyclic_program_has_no_recursive_rounds(rt: MicroRuntime)
        requires
            rt.wf(),
            forall|n: Seq<char>| !recursive_relation(rt.rules(), n),
        ensures
            !rt.has_recursive_rules(),
    {
        if rt.recursive_delta_program@.len() > 0 {
            let x = rt.recursive_delta_program@[0];
            assert(rt.recursive_delta_program@.contains(x));
            assert(recursive_relation(rt.program, head_of(rt.program, x)));
            assert(!recursive_relation(rt.rules(), head_of(rt.program, x)));
        }
    }

    /// Inserting the same fact twice before a poll buffers it once: after the
    /// first insertion it is pending, and the second leaves every relation's
    /// pending facts as they were.
    pub proof fn insert_twice_buffers_once(
        r0: MicroRuntime,
        r1: MicroRuntime,
        r2: MicroRuntime,
        name: Seq<char>,
        f: Seq<Val>,
    )
        requires
            forall|n: Seq<char>| #[trigger] r1.pending(n) == if n == name {
                r0.pending(n).insert(f)
            } else {
                r0.pending(n)
            },
            forall|n: Seq<char>| #[trigger] r2.pending(n) == if n == name {
                r1.pending(n).insert(f)
            } else {
                r1.pending(n)
            },
        ensures
            r1.pending(name).contains(f),
            forall|n: Seq<char>| #[trigger] r2.pending(n) == r1.pending(n),
    {
        assert forall|n: Seq<char>| #[trigger] r2.pending(n) == r1.pending(n) by {
            if n == name {
                assert(r2.pending(n) =~= r1.pending(n));
            }
        }
    }

    /// While an inserted fact waits for a poll the runtime is not safe, so
    /// `query` and `contains` fail until the next poll makes it safe again.
    pub proof fn pending_fact_blocks_reads(rt: MicroRuntime, name: Seq<char>, f: Seq<Val>)
        requires
            rt.pending(name).contains(f),
        ensures
            !rt.is_safe(),
    {
        if rt.is_safe() {
            assert(rt.pending(name) == Set::<Seq<Val>>::empty());
        }
    }

    /// A rule with one body atom over another relation, and no
    /// value-inventing head term, derives from each matching fact of its body
    /// relation one head fact and nothing more: in facts that are closed under
    /// the rules and lie in every closed model of the facts outside the head
    /// relation, the head relation holds exactly the head facts of the stored
    /// body facts.
    pub proof fn projection_derives_exactly_its_images(rt: MicroRuntime, f: Seq<Val>)
        requires
            rt.rules().inner@.len() == 1,
            rt.rules().inner@[0].body@.len() == 1,
            rt.rules().inner@[0].body@[0].symbol@ != rt.rules().inner@[0].head.symbol@,
            plain_terms(rt.rules().inner@[0].head.terms@),
            rt.closed_under_rules(),
            forall|m: spec_fn(Seq<char>, Seq<Val>) -> bool|
                #[trigger] model_closed(rt.rules(), m) && (forall|n: Seq<char>, g: Seq<Val>|
                    n != rt.rules().inner@[0].head.symbol@ && #[trigger] rt.facts(n).contains(g) ==> m(n, g)) ==> (forall|n: Seq<char>, g: Seq<Val>|
                    #[trigger] rt.facts(n).contains(g) ==> m(n, g)),
        ensures
            rt.facts(rt.rules().inner@[0].head.symbol@).contains(f) <==> exists|s: Map<Seq<char>, Val>, g: Seq<Val>|
                rt.facts(rt.rules().inner@[0].body@[0].symbol@).contains(g) && #[trigger] atom_under(rt.rules().inner@[0].body@[0].terms@, g, s)
                    && f == head_fact(rt.rules().inner@[0].head.terms@, s),
    {
        let r = rt.rules().inner@[0];
        let h = r.head.symbol@;
        let a = r.body@[0];
        if exists|s: Map<Seq<char>, Val>, g: Seq<Val>| rt.facts(a.symbol@).contains(g) && #[trigger] atom_under(a.terms@, g, s) && f == head_fact(r.head.terms@, s) {
            let (s, g) = choose|s: Map<Seq<char>, Val>, g: Seq<Val>| rt.facts(a.symbol@).contains(g) && #[trigger] atom_under(a.terms@, g, s) && f == head_fact(r.head.terms@, s);
            assert(rt.atom_stored(a, s));
            assert(rt.body_holds(r, s));
            assert(rt.facts(h).contains(f));
        }
        if rt.facts(h).contains(f) {
            let m = |n: Seq<char>, g: Seq<Val>| (n != h && rt.facts(n).contains(g)) || (n == h && exists|s: Map<Seq<char>, Val>, g2: Seq<Val>|
                rt.facts(a.symbol@).contains(g2) && #[trigger] atom_under(a.terms@, g2, s) && g == head_fact(r.head.terms@, s));
            assert forall|i: int, s: Map<Seq<char>, Val>|
                0 <= i < rt.rules().inner@.len() && plain_terms(rt.rules().inner@[i].head.terms@) && #[trigger] body_in_model(rt.rules().inner@[i].body@, m, s)
                    implies m(rt.rules().inner@[i].head.symbol@, head_fact(rt.rules().inner@[i].head.terms@, s)) by {
                assert(i == 0);
                assert(atom_in_model(a, m, s));
                let g2 = choose|g2: Seq<Val>| #[trigger] m(a.symbol@, g2) && atom_under(a.terms@, g2, s);
                assert(rt.facts(a.symbol@).contains(g2));
            }
            assert(model_closed(rt.rules(), m));
            assert(m(h, f));
        }
    }
}

} // verus!
