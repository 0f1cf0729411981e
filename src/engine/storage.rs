use vstd::prelude::*;
use crate::syntax::{TypedValue, Val, fact_view, same_fact};

verus! {

/// The values of a list of facts, as a set.
pub open spec fn fact_set(fs: Seq<Vec<TypedValue>>) -> Set<Seq<Val>> {
    Set::new(|f: Seq<Val>| exists|j: int| 0 <= j < fs.len() && fact_view(#[trigger] fs[j]@) == f)
}

/// No fact occurs twice in the list.
pub open spec fn distinct_facts(fs: Seq<Vec<TypedValue>>) -> bool {
    forall|i: int, j: int|
        0 <= i < fs.len() && 0 <= j < fs.len() && i != j ==> fact_view(#[trigger] fs[i]@) != fact_view(
            #[trigger] fs[j]@,
        )
}

pub proof fn lemma_fact_set_push(fs: Seq<Vec<TypedValue>>, f: Vec<TypedValue>)
    ensures
        fact_set(fs.push(f)) == fact_set(fs).insert(fact_view(f@)),
{
    let a = fact_set(fs.push(f));
    let b = fact_set(fs).insert(fact_view(f@));
    assert forall|x: Seq<Val>| a.contains(x) implies b.contains(x) by {
        let j = choose|j: int| 0 <= j < fs.push(f).len() && fact_view(#[trigger] fs.push(f)[j]@) == x;
        if j < fs.len() {
            assert(fs.push(f)[j] == fs[j]);
        }
    }
    assert forall|x: Seq<Val>| b.contains(x) implies a.contains(x) by {
        if x == fact_view(f@) {
            assert(fs.push(f)[fs.len() as int] == f);
        } else {
            let j = choose|j: int| 0 <= j < fs.len() && fact_view(#[trigger] fs[j]@) == x;
            assert(fs.push(f)[j] == fs[j]);
        }
    }
    assert(a =~= b);
}

pub proof fn lemma_fact_set_empty(fs: Seq<Vec<TypedValue>>)
    requires
        fs.len() == 0,
    ensures
        fact_set(fs) == Set::<Seq<Val>>::empty(),
{
    assert(fact_set(fs) =~= Set::<Seq<Val>>::empty());
}

/// Whether a list of facts holds a fact with the values of `f`.
pub fn list_contains(fs: &Vec<Vec<TypedValue>>, f: &Vec<TypedValue>) -> (r: bool)
    ensures
        r == fact_set(fs@).contains(fact_view(f@)),
{
    let mut i: usize = 0;
    while i < fs.len()
        invariant
            i <= fs.len(),
            forall|k: int| 0 <= k < i ==> fact_view(#[trigger] fs@[k]@) != fact_view(f@),
        decreases fs.len() - i,
    {
        if same_fact(&fs[i], f) {
            return true;
        }
        i = i + 1;
    }
    false
}

/// How many facts the relations hold together.
pub open spec fn count_facts(rels: Seq<Relation>) -> nat
    decreases rels.len(),
{
    if rels.len() == 0 {
        0
    } else {
        count_facts(rels.drop_last()) + rels.last().facts@.len()
    }
}

pub proof fn lemma_count_update(rels: Seq<Relation>, i: int, r: Relation)
    requires
        0 <= i < rels.len(),
    ensures
        count_facts(rels.update(i, r)) + rels[i].facts@.len() == count_facts(rels) + r.facts@.len(),
    decreases rels.len(),
{
    let u = rels.update(i, r);
    if i == rels.len() - 1 {
        assert(u.drop_last() =~= rels.drop_last());
    } else {
        assert(u.drop_last() =~= rels.drop_last().update(i, r));
        lemma_count_update(rels.drop_last(), i, r);
    }
}

/// Some relation of the list has the pair's name and holds its fact.
pub open spec fn pair_stored(rels: Seq<Relation>, x: (Seq<char>, Seq<Val>)) -> bool {
    exists|i: int| 0 <= i < rels.len() && (#[trigger] rels[i]).name@ == x.0 && fact_set(rels[i].facts@).contains(x.1)
}

/// The stored facts of the relations, each with its relation's name.
pub open spec fn stored_pairs(rels: Seq<Relation>) -> Seq<(Seq<char>, Seq<Val>)>
    decreases rels.len(),
{
    if rels.len() == 0 {
        Seq::empty()
    } else {
        stored_pairs(rels.drop_last()) + rels.last().facts@.map_values(|f: Vec<TypedValue>| (rels.last().name@, fact_view(f@)))
    }
}

pub proof fn lemma_stored_pairs(rels: Seq<Relation>)
    requires
        forall|i: int, j: int| 0 <= i < rels.len() && 0 <= j < rels.len() && i != j ==> (#[trigger] rels[i]).name@ != (#[trigger] rels[j]).name@,
        forall|i: int| 0 <= i < rels.len() ==> (#[trigger] rels[i]).wf(),
    ensures
        stored_pairs(rels).len() == count_facts(rels),
        stored_pairs(rels).no_duplicates(),
        forall|k: int| 0 <= k < stored_pairs(rels).len() ==> pair_stored(rels, #[trigger] stored_pairs(rels)[k]),
    decreases rels.len(),
{
    if rels.len() > 0 {
        let rest = rels.drop_last();
        let last = rels.last();
        assert forall|i: int, j: int| 0 <= i < rest.len() && 0 <= j < rest.len() && i != j implies (#[trigger] rest[i]).name@ != (#[trigger] rest[j]).name@ by {
            assert(rest[i] == rels[i] && rest[j] == rels[j]);
        }
        assert forall|i: int| 0 <= i < rest.len() implies (#[trigger] rest[i]).wf() by {
            assert(rest[i] == rels[i]);
        }
        lemma_stored_pairs(rest);
        let a = stored_pairs(rest);
        let b = last.facts@.map_values(|f: Vec<TypedValue>| (last.name@, fact_view(f@)));
        assert(stored_pairs(rels) == a + b);
        assert(rels[rels.len() - 1].wf());
        assert forall|x: int, y: int| 0 <= x < (a + b).len() && 0 <= y < (a + b).len() && x != y implies (a + b)[x] != (a + b)[y] by {
            if x < a.len() && y < a.len() {
                assert(a[x] != a[y]);
            } else if x >= a.len() && y >= a.len() {
                assert(fact_view(last.facts@[x - a.len()]@) != fact_view(last.facts@[y - a.len()]@));
            } else {
                let (u, w) = if x < a.len() { (x, y) } else { (y, x) };
                assert(pair_stored(rest, a[u]));
                let i = choose|i: int| 0 <= i < rest.len() && (#[trigger] rest[i]).name@ == a[u].0 && fact_set(rest[i].facts@).contains(a[u].1);
                assert(rest[i] == rels[i]);
                assert(rels[i].name@ != rels[rels.len() - 1].name@);
            }
        }
        assert forall|k: int| 0 <= k < (a + b).len() implies pair_stored(rels, #[trigger] (a + b)[k]) by {
            if k < a.len() {
                assert(pair_stored(rest, a[k]));
                let i = choose|i: int| 0 <= i < rest.len() && (#[trigger] rest[i]).name@ == a[k].0 && fact_set(rest[i].facts@).contains(a[k].1);
                assert(rest[i] == rels[i]);
            } else {
                let t = k - a.len();
                assert(fact_set(last.facts@).contains(fact_view(last.facts@[t]@)));
                assert(rels[rels.len() - 1] == last);
            }
        }
    }
}

/// A named relation: its facts, and the part of them added in the current round.
pub struct Relation {
    pub name: String,
    pub facts: Vec<Vec<TypedValue>>,
    pub delta: Vec<Vec<TypedValue>>,
}

impl Relation {
    pub open spec fn wf(&self) -> bool {
        &&& distinct_facts(self.facts@)
        &&& distinct_facts(self.delta@)
        &&& fact_set(self.delta@).subset_of(fact_set(self.facts@))
    }
}

/// Every relation by name, with its facts and its delta.
pub struct RelationStorage {
    pub relations: Vec<Relation>,
}

impl RelationStorage {
    /// The number of stored facts, over all relations.
    pub open spec fn fact_count(&self) -> nat {
        count_facts(self.relations@)
    }

    /// Where every stored fact lies in a finite set of (relation, fact) pairs,
    /// the storage holds at most as many facts as the set has pairs.
    pub proof fn lemma_count_bounded(&self, m: Set<(Seq<char>, Seq<Val>)>)
        requires
            self.wf(),
            m.finite(),
            forall|n: Seq<char>, f: Seq<Val>| #[trigger] self.facts(n).contains(f) ==> m.contains((n, f)),
        ensures
            self.fact_count() <= m.len(),
    {
        let ps = stored_pairs(self.relations@);
        lemma_stored_pairs(self.relations@);
        ps.unique_seq_to_set();
        assert forall|x: (Seq<char>, Seq<Val>)| ps.to_set().contains(x) implies m.contains(x) by {
            let k = choose|k: int| 0 <= k < ps.len() && ps[k] == x;
            assert(pair_stored(self.relations@, ps[k]));
            let i = choose|i: int|
                0 <= i < self.relations@.len() && (#[trigger] self.relations@[i]).name@ == ps[k].0 && fact_set(self.relations@[i].facts@).contains(ps[k].1);
            self.lemma_at(i);
            assert(self.facts(x.0).contains(x.1));
        }
        vstd::set_lib::lemma_len_subset(ps.to_set(), m);
    }

    /// Relation names are unique and each relation is well formed.
    pub open spec fn wf(&self) -> bool {
        &&& forall|i: int, j: int|
            0 <= i < self.relations@.len() && 0 <= j < self.relations@.len() && i != j
                ==> (#[trigger] self.relations@[i]).name@ != (#[trigger] self.relations@[j]).name@
        &&& forall|i: int| 0 <= i < self.relations@.len() ==> (#[trigger] self.relations@[i]).wf()
    }

    /// Whether a relation of this name is registered.
    pub open spec fn has(&self, name: Seq<char>) -> bool {
        exists|i: int| 0 <= i < self.relations@.len() && (#[trigger] self.relations@[i]).name@ == name
    }

    /// The facts of the relation `name`; empty for an unknown name.
    pub open spec fn facts(&self, name: Seq<char>) -> Set<Seq<Val>> {
        Set::new(
            |f: Seq<Val>|
                exists|i: int|
                    0 <= i < self.relations@.len() && (#[trigger] self.relations@[i]).name@ == name
                        && fact_set(self.relations@[i].facts@).contains(f),
        )
    }

    /// The delta of the relation `name`; empty for an unknown name.
    pub open spec fn delta(&self, name: Seq<char>) -> Set<Seq<Val>> {
        Set::new(
            |f: Seq<Val>|
                exists|i: int|
                    0 <= i < self.relations@.len() && (#[trigger] self.relations@[i]).name@ == name
                        && fact_set(self.relations@[i].delta@).contains(f),
        )
    }

    pub proof fn lemma_at(&self, i: int)
        requires
            self.wf(),
            0 <= i < self.relations@.len(),
        ensures
            self.has(self.relations@[i].name@),
            self.facts(self.relations@[i].name@) == fact_set(self.relations@[i].facts@),
            self.delta(self.relations@[i].name@) == fact_set(self.relations@[i].delta@),
    {
        let name = self.relations@[i].name@;
        assert(self.facts(name) =~= fact_set(self.relations@[i].facts@));
        assert(self.delta(name) =~= fact_set(self.relations@[i].delta@));
    }

    /// A delta holds only facts of its relation.
    pub proof fn lemma_delta_in_facts(&self, name: Seq<char>)
        requires
            self.wf(),
        ensures
            self.delta(name).subset_of(self.facts(name)),
    {
        if self.has(name) {
            let i = choose|i: int| 0 <= i < self.relations@.len() && (#[trigger] self.relations@[i]).name@ == name;
            self.lemma_at(i);
            assert(self.relations@[i].wf());
        } else {
            self.lemma_absent(name);
        }
    }

    pub proof fn lemma_absent(&self, name: Seq<char>)
        requires
            !self.has(name),
        ensures
            self.facts(name) == Set::<Seq<Val>>::empty(),
            self.delta(name) == Set::<Seq<Val>>::empty(),
    {
        assert(self.facts(name) =~= Set::<Seq<Val>>::empty());
        assert(self.delta(name) =~= Set::<Seq<Val>>::empty());
    }

    pub fn new() -> (r: Self)
        ensures
            r.wf(),
            r.relations@.len() == 0,
            forall|n: Seq<char>| !r.has(n) && r.facts(n) == Set::<Seq<Val>>::empty(),
    {
        let r = RelationStorage { relations: Vec::new() };
        assert forall|n: Seq<char>| !r.has(n) && r.facts(n) == Set::<Seq<Val>>::empty() by {
            r.lemma_absent(n);
        }
        r
    }

    /// The position of the relation `name`, if it is registered.
    pub fn find(&self, name: &str) -> (r: Option<usize>)
        ensures
            r matches Some(i) ==> i < self.relations@.len() && self.relations@[i as int].name@ == name@,
            r is None ==> !self.has(name@),
    {
        let key: String = name.to_owned();
        let mut i: usize = 0;
        while i < self.relations.len()
            invariant
                i <= self.relations@.len(),
                key@ == name@,
                forall|k: int| 0 <= k < i ==> (#[trigger] self.relations@[k]).name@ != name@,
            decreases self.relations.len() - i,
        {
            if self.relations[i].name.eq(&key) {
                return Some(i);
            }
            i = i + 1;
        }
        None
    }

    /// Replacing one relation by another of the same name changes that name's
    /// facts and delta and nothing else.
    pub proof fn lemma_update(old: &Self, new: &Self, i: int, r: Relation)
        requires
            old.wf(),
            0 <= i < old.relations@.len(),
            r.wf(),
            r.name@ == old.relations@[i].name@,
            new.relations@ == old.relations@.update(i, r),
        ensures
            new.wf(),
            forall|n: Seq<char>| #[trigger] new.has(n) == old.has(n),
            forall|n: Seq<char>| n != r.name@ ==> #[trigger] new.facts(n) == old.facts(n),
            forall|n: Seq<char>| n != r.name@ ==> #[trigger] new.delta(n) == old.delta(n),
            new.facts(r.name@) == fact_set(r.facts@),
            new.delta(r.name@) == fact_set(r.delta@),
    {
        assert forall|a: int, b: int|
            0 <= a < new.relations@.len() && 0 <= b < new.relations@.len() && a != b
                implies (#[trigger] new.relations@[a]).name@ != (#[trigger] new.relations@[b]).name@ by {
            assert(old.relations@[a].name@ != old.relations@[b].name@);
        }
        assert forall|a: int| 0 <= a < new.relations@.len() implies (#[trigger] new.relations@[a]).wf() by {
            if a != i {
                assert(old.relations@[a].wf());
            }
        }
        assert forall|n: Seq<char>| #[trigger] new.has(n) == old.has(n) by {
            if old.has(n) {
                let k = choose|k: int| 0 <= k < old.relations@.len() && (#[trigger] old.relations@[k]).name@ == n;
                assert(new.relations@[k].name@ == n);
            }
            if new.has(n) {
                let k = choose|k: int| 0 <= k < new.relations@.len() && (#[trigger] new.relations@[k]).name@ == n;
                assert(old.relations@[k].name@ == n);
            }
        }
        assert forall|n: Seq<char>| n != r.name@ implies #[trigger] new.facts(n) == old.facts(n) by {
            assert forall|f: Seq<Val>| new.facts(n).contains(f) implies old.facts(n).contains(f) by {
                let j = choose|j: int| 0 <= j < new.relations@.len() && (#[trigger] new.relations@[j]).name@ == n
                    && fact_set(new.relations@[j].facts@).contains(f);
                assert(j != i);
                assert(old.relations@[j] == new.relations@[j]);
            }
            assert forall|f: Seq<Val>| old.facts(n).contains(f) implies new.facts(n).contains(f) by {
                let j = choose|j: int| 0 <= j < old.relations@.len() && (#[trigger] old.relations@[j]).name@ == n
                    && fact_set(old.relations@[j].facts@).contains(f);
                assert(j != i);
                assert(old.relations@[j] == new.relations@[j]);
            }
            assert(new.facts(n) =~= old.facts(n));
        }
        assert forall|n: Seq<char>| n != r.name@ implies #[trigger] new.delta(n) == old.delta(n) by {
            assert forall|f: Seq<Val>| new.delta(n).contains(f) implies old.delta(n).contains(f) by {
                let j = choose|j: int| 0 <= j < new.relations@.len() && (#[trigger] new.relations@[j]).name@ == n
                    && fact_set(new.relations@[j].delta@).contains(f);
                assert(j != i);
                assert(old.relations@[j] == new.relations@[j]);
            }
            assert forall|f: Seq<Val>| old.delta(n).contains(f) implies new.delta(n).contains(f) by {
                let j = choose|j: int| 0 <= j < old.relations@.len() && (#[trigger] old.relations@[j]).name@ == n
                    && fact_set(old.relations@[j].delta@).contains(f);
                assert(j != i);
                assert(old.relations@[j] == new.relations@[j]);
            }
            assert(new.delta(n) =~= old.delta(n));
        }
        new.lemma_at(i);
    }

    /// Registers the relation `name` with no facts, if it is not registered yet.
    pub fn register(&mut self, name: &str)
        requires
            old(self).wf(),
        ensures
            final(self).wf(),
            final(self).has(name@),
            forall|n: Seq<char>| #[trigger] final(self).has(n) == (old(self).has(n) || n == name@),
            forall|n: Seq<char>| #[trigger] final(self).facts(n) == old(self).facts(n),
            forall|n: Seq<char>| #[trigger] final(self).delta(n) == old(self).delta(n),
            final(self).fact_count() == old(self).fact_count(),
    {
        match self.find(name) {
            Some(i) => {
                proof {
                    self.lemma_at(i as int);
                }
            },
            None => {
                proof {
                    self.lemma_absent(name@);
                }
                let ghost prev = *self;
                let r = Relation { name: name.to_owned(), facts: Vec::new(), delta: Vec::new() };
                proof {
                    lemma_fact_set_empty(r.facts@);
                    lemma_fact_set_empty(r.delta@);
                }
                self.relations.push(r);
                let ghost k = prev.relations@.len() as int;
                assert(self.relations@.drop_last() =~= prev.relations@);
                assert(self.relations@[k] == r);
                assert forall|a: int, b: int|
                    0 <= a < self.relations@.len() && 0 <= b < self.relations@.len() && a != b
                        implies (#[trigger] self.relations@[a]).name@ != (
                    #[trigger] self.relations@[b]).name@ by {
                    if a != k && b != k {
                        assert(prev.relations@[a].name@ != prev.relations@[b].name@);
                    } else if a == k {
                        assert(prev.relations@[b] == self.relations@[b]);
                    } else {
                        assert(prev.relations@[a] == self.relations@[a]);
                    }
                }
                assert forall|a: int| 0 <= a < self.relations@.len() implies (
                #[trigger] self.relations@[a]).wf() by {
                    if a != k {
                        assert(prev.relations@[a] == self.relations@[a]);
                    }
                }
                assert forall|n: Seq<char>| #[trigger] self.has(n) == (prev.has(n) || n == name@) by {
                    if prev.has(n) {
                        let j = choose|j: int| 0 <= j < prev.relations@.len() && (#[trigger] prev.relations@[j]).name@ == n;
                        assert(self.relations@[j] == prev.relations@[j]);
                    }
                    if self.has(n) && n != name@ {
                        let j = choose|j: int| 0 <= j < self.relations@.len() && (#[trigger] self.relations@[j]).name@ == n;
                        assert(prev.relations@[j] == self.relations@[j]);
                    }
                }
                assert forall|n: Seq<char>| #[trigger] self.facts(n) == prev.facts(n) by {
                    assert forall|f: Seq<Val>| self.facts(n).contains(f) implies prev.facts(n).contains(f) by {
                        let j = choose|j: int| 0 <= j < self.relations@.len() && (#[trigger] self.relations@[j]).name@ == n
                            && fact_set(self.relations@[j].facts@).contains(f);
                        assert(j != k);
                        assert(prev.relations@[j] == self.relations@[j]);
                    }
                    assert forall|f: Seq<Val>| prev.facts(n).contains(f) implies self.facts(n).contains(f) by {
                        let j = choose|j: int| 0 <= j < prev.relations@.len() && (#[trigger] prev.relations@[j]).name@ == n
                            && fact_set(prev.relations@[j].facts@).contains(f);
                        assert(prev.relations@[j] == self.relations@[j]);
                    }
                    assert(self.facts(n) =~= prev.facts(n));
                }
                assert forall|n: Seq<char>| #[trigger] self.delta(n) == prev.delta(n) by {
                    assert forall|f: Seq<Val>| self.delta(n).contains(f) implies prev.delta(n).contains(f) by {
                        let j = choose|j: int| 0 <= j < self.relations@.len() && (#[trigger] self.relations@[j]).name@ == n
                            && fact_set(self.relations@[j].delta@).contains(f);
                        assert(j != k);
                        assert(prev.relations@[j] == self.relations@[j]);
                    }
                    assert forall|f: Seq<Val>| prev.delta(n).contains(f) implies self.delta(n).contains(f) by {
                        let j = choose|j: int| 0 <= j < prev.relations@.len() && (#[trigger] prev.relations@[j]).name@ == n
                            && fact_set(prev.relations@[j].delta@).contains(f);
                        assert(prev.relations@[j] == self.relations@[j]);
                    }
                    assert(self.delta(n) =~= prev.delta(n));
                }
            },
        }
    }

    /// Whether the relation `name` holds the fact.
    pub fn contains(&self, name: &str, fact: &Vec<TypedValue>) -> (r: bool)
        requires
            self.wf(),
        ensures
            r == self.facts(name@).contains(fact_view(fact@)),
    {
        match self.find(name) {
            Some(i) => {
                proof {
                    self.lemma_at(i as int);
                }
                list_contains(&self.relations[i].facts, fact)
            },
            None => {
                proof {
                    self.lemma_absent(name@);
                }
                false
            },
        }
    }

    /// Adds a fact to the relation `name`, registering it if needed; with
    /// `track`, a fact that is new also enters the delta. Returns whether it
    /// was new.
    pub fn insert_fact(&mut self, name: &str, fact: Vec<TypedValue>, track: bool) -> (r: bool)
        requires
            old(self).wf(),
        ensures
            final(self).wf(),
            r == !old(self).facts(name@).contains(fact_view(fact@)),
            forall|n: Seq<char>| #[trigger] final(self).has(n) == (old(self).has(n) || n == name@),
            forall|n: Seq<char>| #[trigger] final(self).facts(n) == if n == name@ {
                old(self).facts(n).insert(fact_view(fact@))
            } else {
                old(self).facts(n)
            },
            forall|n: Seq<char>| #[trigger] final(self).delta(n) == if n == name@ && track && r {
                old(self).delta(n).insert(fact_view(fact@))
            } else {
                old(self).delta(n)
            },
            final(self).fact_count() == old(self).fact_count() + if r { 1nat } else { 0nat },
    {
        self.register(name);
        let i = self.find(name).unwrap();
        proof {
            self.lemma_at(i as int);
        }
        let ghost mid = *self;
        if list_contains(&self.relations[i].facts, &fact) {
            assert(mid.facts(name@).insert(fact_view(fact@)) =~= mid.facts(name@));
            return false;
        }
        let mut rel = self.relations.remove(i);
        let ghost before = rel;
        let v: Vec<TypedValue> = if track { crate::syntax::copy_fact(&fact) } else { Vec::new() };
        rel.facts.push(fact);
        proof {
            lemma_fact_set_push(before.facts@, rel.facts@.last());
            assert(rel.facts@ == before.facts@.push(rel.facts@.last()));
            assert(before.wf());
        }
        if track {
            rel.delta.push(v);
            proof {
                assert(rel.delta@ == before.delta@.push(v));
                lemma_fact_set_push(before.delta@, v);
            }
        }
        proof {
            assert(rel.wf());
        }
        self.relations.insert(i, rel);
        proof {
            assert(self.relations@ =~= mid.relations@.update(i as int, rel));
            RelationStorage::lemma_update(&mid, self, i as int, rel);
            lemma_count_update(mid.relations@, i as int, rel);
        }
        true
    }

    /// Empties the delta of every relation, keeping their facts.
    pub fn clear_deltas(&mut self)
        requires
            old(self).wf(),
        ensures
            final(self).wf(),
            forall|n: Seq<char>| #[trigger] final(self).has(n) == old(self).has(n),
            forall|n: Seq<char>| #[trigger] final(self).facts(n) == old(self).facts(n),
            forall|n: Seq<char>| #[trigger] final(self).delta(n) == Set::<Seq<Val>>::empty(),
            final(self).fact_count() == old(self).fact_count(),
    {
        let ghost orig = *self;
        let mut i: usize = 0;
        while i < self.relations.len()
            invariant
                self.wf(),
                i <= self.relations@.len(),
                self.relations@.len() == orig.relations@.len(),
                forall|k: int| 0 <= k < self.relations@.len() ==> (#[trigger] self.relations@[k]).name@ == orig.relations@[k].name@,
                forall|k: int| 0 <= k < self.relations@.len() ==> (#[trigger] self.relations@[k]).facts == orig.relations@[k].facts,
                forall|k: int| 0 <= k < i ==> (#[trigger] self.relations@[k]).delta@.len() == 0,
                self.fact_count() == orig.fact_count(),
            decreases self.relations.len() - i,
        {
            let ghost mid = *self;
            let mut rel = self.relations.remove(i);
            rel.delta = Vec::new();
            proof {
                lemma_fact_set_empty(rel.delta@);
                assert(mid.relations@[i as int].wf());
            }
            self.relations.insert(i, rel);
            proof {
                assert(self.relations@ =~= mid.relations@.update(i as int, rel));
                RelationStorage::lemma_update(&mid, self, i as int, rel);
                lemma_count_update(mid.relations@, i as int, rel);
            }
            i = i + 1;
        }
        assert forall|n: Seq<char>| #[trigger] self.has(n) == orig.has(n) by {
            if orig.has(n) {
                let k = choose|k: int| 0 <= k < orig.relations@.len() && (#[trigger] orig.relations@[k]).name@ == n;
                assert(self.relations@[k].name@ == n);
            }
            if self.has(n) {
                let k = choose|k: int| 0 <= k < self.relations@.len() && (#[trigger] self.relations@[k]).name@ == n;
                assert(orig.relations@[k].name@ == n);
            }
        }
        assert forall|n: Seq<char>| #[trigger] self.facts(n) == orig.facts(n) by {
            assert forall|f: Seq<Val>| self.facts(n).contains(f) implies orig.facts(n).contains(f) by {
                let k = choose|k: int| 0 <= k < self.relations@.len() && (#[trigger] self.relations@[k]).name@ == n
                    && fact_set(self.relations@[k].facts@).contains(f);
                assert(orig.relations@[k].name@ == n);
            }
            assert forall|f: Seq<Val>| orig.facts(n).contains(f) implies self.facts(n).contains(f) by {
                let k = choose|k: int| 0 <= k < orig.relations@.len() && (#[trigger] orig.relations@[k]).name@ == n
                    && fact_set(orig.relations@[k].facts@).contains(f);
                assert(self.relations@[k].name@ == n);
            }
            assert(self.facts(n) =~= orig.facts(n));
        }
        assert forall|n: Seq<char>| #[trigger] self.delta(n) == Set::<Seq<Val>>::empty() by {
            assert forall|f: Seq<Val>| !self.delta(n).contains(f) by {
                if self.delta(n).contains(f) {
                    let k = choose|k: int| 0 <= k < self.relations@.len() && (#[trigger] self.relations@[k]).name@ == n
                        && fact_set(self.relations@[k].delta@).contains(f);
                    assert(self.relations@[k].delta@.len() == 0);
                }
            }
            assert(self.delta(n) =~= Set::<Seq<Val>>::empty());
        }
    }

    /// Empties every relation, facts and delta, keeping it registered.
    pub fn clear_all(&mut self)
        requires
            old(self).wf(),
        ensures
            final(self).wf(),
            forall|n: Seq<char>| #[trigger] final(self).has(n) == old(self).has(n),
            forall|n: Seq<char>| #[trigger] final(self).facts(n) == Set::<Seq<Val>>::empty(),
            forall|n: Seq<char>| #[trigger] final(self).delta(n) == Set::<Seq<Val>>::empty(),
    {
        let ghost orig = *self;
        let mut i: usize = 0;
        while i < self.relations.len()
            invariant
                self.wf(),
                i <= self.relations@.len(),
                self.relations@.len() == orig.relations@.len(),
                forall|k: int| 0 <= k < self.relations@.len() ==> (#[trigger] self.relations@[k]).name@ == orig.relations@[k].name@,
                forall|k: int| 0 <= k < i ==> (#[trigger] self.relations@[k]).delta@.len() == 0,
                forall|k: int| 0 <= k < i ==> (#[trigger] self.relations@[k]).facts@.len() == 0,
            decreases self.relations.len() - i,
        {
            let ghost mid = *self;
            let mut rel = self.relations.remove(i);
            rel.delta = Vec::new();
            rel.facts = Vec::new();
            proof {
                lemma_fact_set_empty(rel.delta@);
                lemma_fact_set_empty(rel.facts@);
                assert(mid.relations@[i as int].wf());
            }
            self.relations.insert(i, rel);
            proof {
                assert(self.relations@ =~= mid.relations@.update(i as int, rel));
                RelationStorage::lemma_update(&mid, self, i as int, rel);
            }
            i = i + 1;
        }
        assert forall|n: Seq<char>| #[trigger] self.has(n) == orig.has(n) by {
            if orig.has(n) {
                let k = choose|k: int| 0 <= k < orig.relations@.len() && (#[trigger] orig.relations@[k]).name@ == n;
                assert(self.relations@[k].name@ == n);
            }
            if self.has(n) {
                let k = choose|k: int| 0 <= k < self.relations@.len() && (#[trigger] self.relations@[k]).name@ == n;
                assert(orig.relations@[k].name@ == n);
            }
        }
        assert forall|n: Seq<char>| #[trigger] self.facts(n) == Set::<Seq<Val>>::empty() by {
            assert forall|f: Seq<Val>| !self.facts(n).contains(f) by {
                if self.facts(n).contains(f) {
                    let k = choose|k: int| 0 <= k < self.relations@.len() && (#[trigger] self.relations@[k]).name@ == n
                        && fact_set(self.relations@[k].facts@).contains(f);
                    assert(self.relations@[k].facts@.len() == 0);
                }
            }
            assert(self.facts(n) =~= Set::<Seq<Val>>::empty());
        }
        assert forall|n: Seq<char>| #[trigger] self.delta(n) == Set::<Seq<Val>>::empty() by {
            assert forall|f: Seq<Val>| !self.delta(n).contains(f) by {
                if self.delta(n).contains(f) {
                    let k = choose|k: int| 0 <= k < self.relations@.len() && (#[trigger] self.relations@[k]).name@ == n
                        && fact_set(self.relations@[k].delta@).contains(f);
                    assert(self.relations@[k].delta@.len() == 0);
                }
            }
            assert(self.delta(n) =~= Set::<Seq<Val>>::empty());
        }
    }

    /// Whether no relation holds a fact.
    pub fn is_empty(&self) -> (r: bool)
        requires
            self.wf(),
        ensures
            r == forall|n: Seq<char>| #[trigger] self.facts(n) == Set::<Seq<Val>>::empty(),
    {
        let mut i: usize = 0;
        while i < self.relations.len()
            invariant
                i <= self.relations@.len(),
                forall|k: int| 0 <= k < i ==> (#[trigger] self.relations@[k]).facts@.len() == 0,
            decreases self.relations.len() - i,
        {
            if self.relations[i].facts.len() > 0 {
                proof {
                    let n = self.relations@[i as int].name@;
                    assert(fact_set(self.relations@[i as int].facts@).contains(fact_view(self.relations@[i as int].facts@[0]@)));
                    assert(self.facts(n).contains(fact_view(self.relations@[i as int].facts@[0]@)));
                }
                return false;
            }
            i = i + 1;
        }
        assert forall|n: Seq<char>| #[trigger] self.facts(n) == Set::<Seq<Val>>::empty() by {
            assert forall|f: Seq<Val>| !self.facts(n).contains(f) by {
                if self.facts(n).contains(f) {
                    let k = choose|k: int| 0 <= k < self.relations@.len() && (#[trigger] self.relations@[k]).name@ == n
                        && fact_set(self.relations@[k].facts@).contains(f);
                    assert(self.relations@[k].facts@.len() == 0);
                }
            }
            assert(self.facts(n) =~= Set::<Seq<Val>>::empty());
        }
        true
    }
}

} // verus!
