use vstd::prelude::*;
use crate::syntax::{Program, Rule};
use crate::engine::delta::DeltaRule;

verus! {

/// Some rule of the program has `a` in its body and `b` as its head.
pub open spec fn edge(p: Program, a: Seq<char>, b: Seq<char>) -> bool {
    exists|i: int, k: int|
        0 <= i < p.inner@.len() && 0 <= k < p.inner@[i].body@.len() && (#[trigger] p.inner@[i].body@[k]).symbol@ == a
            && p.inner@[i].head.symbol@ == b
}

/// A path of `n` edges, `n >= 1`, leads from `a` to `b`.
pub open spec fn reaches(p: Program, a: Seq<char>, b: Seq<char>, n: nat) -> bool
    decreases n,
{
    if n <= 1 {
        n == 1 && edge(p, a, b)
    } else {
        exists|c: Seq<char>| #[trigger] edge(p, c, b) && reaches(p, a, c, (n - 1) as nat)
    }
}

/// Some path of one or more edges leads from `a` to `b`.
pub open spec fn reachable(p: Program, a: Seq<char>, b: Seq<char>) -> bool {
    exists|n: nat| n >= 1 && #[trigger] reaches(p, a, b, n)
}

/// The relation depends on itself through one or more rules.
pub open spec fn recursive_relation(p: Program, r: Seq<char>) -> bool {
    reachable(p, r, r)
}

/// Some name in the list equals `x`.
pub open spec fn named(v: Seq<String>, x: Seq<char>) -> bool {
    exists|i: int| 0 <= i < v.len() && (#[trigger] v[i])@ == x
}

/// Whether some name in the list equals `x`.
pub fn in_names(v: &Vec<String>, x: &String) -> (r: bool)
    ensures
        r == named(v@, x@),
{
    let mut i: usize = 0;
    while i < v.len()
        invariant
            i <= v@.len(),
            forall|k: int| 0 <= k < i ==> (#[trigger] v@[k])@ != x@,
        decreases v.len() - i,
    {
        if v[i].eq(x) {
            return true;
        }
        i = i + 1;
    }
    false
}

/// How many rules have a head that the list does not name.
pub open spec fn heads_missing(rules: Seq<Rule>, v: Seq<String>) -> nat
    decreases rules.len(),
{
    if rules.len() == 0 {
        0
    } else {
        heads_missing(rules.drop_last(), v) + if named(v, rules.last().head.symbol@) {
            0nat
        } else {
            1nat
        }
    }
}

pub proof fn lemma_missing_shrinks(rules: Seq<Rule>, v1: Seq<String>, v2: Seq<String>, i: int)
    requires
        forall|x: Seq<char>| named(v1, x) ==> named(v2, x),
        0 <= i < rules.len(),
        named(v2, rules[i].head.symbol@),
        !named(v1, rules[i].head.symbol@),
    ensures
        heads_missing(rules, v2) < heads_missing(rules, v1),
    decreases rules.len(),
{
    if i == rules.len() - 1 {
        lemma_missing_mono(rules.drop_last(), v1, v2);
    } else {
        lemma_missing_shrinks(rules.drop_last(), v1, v2, i);
    }
}

pub proof fn lemma_missing_mono(rules: Seq<Rule>, v1: Seq<String>, v2: Seq<String>)
    requires
        forall|x: Seq<char>| named(v1, x) ==> named(v2, x),
    ensures
        heads_missing(rules, v2) <= heads_missing(rules, v1),
    decreases rules.len(),
{
    if rules.len() > 0 {
        lemma_missing_mono(rules.drop_last(), v1, v2);
    }
}

pub proof fn lemma_named_push(v: Seq<String>, s: String, x: Seq<char>)
    ensures
        named(v.push(s), x) == (named(v, x) || s@ == x),
{
    if named(v, x) {
        let i = choose|i: int| 0 <= i < v.len() && (#[trigger] v[i])@ == x;
        assert(v.push(s)[i] == v[i]);
    }
    if s@ == x {
        assert(v.push(s)[v.len() as int] == s);
    }
    if named(v.push(s), x) && s@ != x {
        let i = choose|i: int| 0 <= i < v.push(s).len() && (#[trigger] v.push(s)[i])@ == x;
        assert(i < v.len());
        assert(v[i] == v.push(s)[i]);
    }
}

/// Once every edge out of `r` or out of a named relation ends at a named
/// relation, every relation that `r` reaches is named.
pub proof fn lemma_closed_reaches(p: Program, r: Seq<char>, v: Seq<String>, x: Seq<char>, n: nat)
    requires
        forall|a: Seq<char>, b: Seq<char>| #[trigger] edge(p, a, b) && (a == r || named(v, a)) ==> named(v, b),
        reaches(p, r, x, n),
    ensures
        named(v, x),
    decreases n,
{
    if n > 1 {
        let c = choose|c: Seq<char>| #[trigger] edge(p, c, x) && reaches(p, r, c, (n - 1) as nat);
        lemma_closed_reaches(p, r, v, c, (n - 1) as nat);
    }
}

/// The relations that `r` reaches through one or more rules.
pub fn reachable_from(p: &Program, r: &String) -> (out: Vec<String>)
    ensures
        forall|x: Seq<char>| named(out@, x) <==> reachable(*p, r@, x),
{
    let mut seen: Vec<String> = Vec::new();
    loop
        invariant
            forall|j: int| 0 <= j < seen@.len() ==> reachable(*p, r@, (#[trigger] seen@[j])@),
        decreases heads_missing(p.inner@, seen@),
    {
        let ghost start = seen@;
        let mut changed = false;
        let mut i: usize = 0;
        while i < p.inner.len()
            invariant
                i <= p.inner@.len(),
                forall|x: Seq<char>| named(start, x) ==> named(seen@, x),
                changed ==> heads_missing(p.inner@, seen@) < heads_missing(p.inner@, start),
                !changed ==> seen@ == start,
                forall|j: int| 0 <= j < seen@.len() ==> reachable(*p, r@, (#[trigger] seen@[j])@),
                !changed ==> forall|q: int, k: int|
                    0 <= q < i && 0 <= k < p.inner@[q].body@.len() && ((#[trigger] p.inner@[q].body@[k]).symbol@ == r@
                        || named(seen@, p.inner@[q].body@[k].symbol@)) ==> named(seen@, p.inner@[q].head.symbol@),
            decreases p.inner.len() - i,
        {
            let rule = &p.inner[i];
            let mut k: usize = 0;
            while k < rule.body.len()
                invariant
                    i < p.inner@.len(),
                    *rule == p.inner@[i as int],
                    k <= rule.body@.len(),
                    forall|x: Seq<char>| named(start, x) ==> named(seen@, x),
                    changed ==> heads_missing(p.inner@, seen@) < heads_missing(p.inner@, start),
                    !changed ==> seen@ == start,
                    forall|j: int| 0 <= j < seen@.len() ==> reachable(*p, r@, (#[trigger] seen@[j])@),
                    !changed ==> forall|q: int, m: int|
                        ((0 <= q < i && 0 <= m < p.inner@[q].body@.len()) || (q == i && 0 <= m < k)) && ((#[trigger] p.inner@[q].body@[m]).symbol@ == r@
                            || named(seen@, p.inner@[q].body@[m].symbol@)) ==> named(seen@, p.inner@[q].head.symbol@),
                decreases rule.body.len() - k,
            {
                let a = &rule.body[k].symbol;
                if (a.eq(r) || in_names(&seen, a)) && !in_names(&seen, &rule.head.symbol) {
                    let ghost before = seen@;
                    proof {
                        assert(edge(*p, a@, rule.head.symbol@));
                        if a@ == r@ {
                            assert(reaches(*p, r@, rule.head.symbol@, 1));
                        } else {
                            let j = choose|j: int| 0 <= j < before.len() && (#[trigger] before[j])@ == a@;
                            assert(reachable(*p, r@, before[j]@));
                            let n = choose|n: nat| n >= 1 && #[trigger] reaches(*p, r@, before[j]@, n);
                            assert(reaches(*p, r@, rule.head.symbol@, n + 1));
                        }
                    }
                    seen.push(rule.head.symbol.clone());
                    proof {
                        assert forall|x: Seq<char>| named(start, x) implies named(seen@, x) by {
                            lemma_named_push(before, rule.head.symbol, x);
                        }
                        lemma_named_push(before, rule.head.symbol, rule.head.symbol@);
                        assert(named(seen@, p.inner@[i as int].head.symbol@));
                        assert forall|x: Seq<char>| named(before, x) implies named(seen@, x) by {
                            lemma_named_push(before, rule.head.symbol, x);
                        }
                        if changed {
                            lemma_missing_mono(p.inner@, before, seen@);
                        } else {
                            lemma_missing_shrinks(p.inner@, start, seen@, i as int);
                        }
                        assert forall|j: int| 0 <= j < seen@.len() implies reachable(*p, r@, (#[trigger] seen@[j])@) by {
                            if j < before.len() {
                                assert(seen@[j] == before[j]);
                            }
                        }
                    }
                    changed = true;
                }
                k = k + 1;
            }
            i = i + 1;
        }
        if !changed {
            proof {
                assert forall|x: Seq<char>| named(seen@, x) <==> reachable(*p, r@, x) by {
                    if named(seen@, x) {
                        let j = choose|j: int| 0 <= j < seen@.len() && (#[trigger] seen@[j])@ == x;
                        assert(reachable(*p, r@, seen@[j]@));
                    }
                    if reachable(*p, r@, x) {
                        let n = choose|n: nat| n >= 1 && #[trigger] reaches(*p, r@, x, n);
                        assert forall|a: Seq<char>, b: Seq<char>| #[trigger] edge(*p, a, b) && (a == r@ || named(seen@, a)) implies named(seen@, b) by {
                            let (q, m) = choose|q: int, m: int|
                                0 <= q < p.inner@.len() && 0 <= m < p.inner@[q].body@.len() && (#[trigger] p.inner@[q].body@[m]).symbol@ == a
                                    && p.inner@[q].head.symbol@ == b;
                        }
                        lemma_closed_reaches(*p, r@, seen@, x, n);
                    }
                }
            }
            return seen;
        }
    }
}

/// Whether the relation depends on itself.
pub fn is_recursive(p: &Program, r: &String) -> (b: bool)
    ensures
        b == recursive_relation(*p, r@),
{
    let reach = reachable_from(p, r);
    in_names(&reach, r)
}

/// The head relation of a rewritten rule.
pub open spec fn head_of(p: Program, d: DeltaRule) -> Seq<char> {
    p.inner@[d.rule as int].head.symbol@
}

/// The body of the rewritten rule names the relation `x`.
pub open spec fn reads(p: Program, d: DeltaRule, x: Seq<char>) -> bool {
    exists|k: int| 0 <= k < p.inner@[d.rule as int].body@.len() && (#[trigger] p.inner@[d.rule as int].body@[k]).symbol@ == x
}

/// Every rewritten rule names a rule of the program.
pub open spec fn within(p: Program, s: Seq<DeltaRule>) -> bool {
    forall|j: int| 0 <= j < s.len() ==> (#[trigger] s[j]).rule < p.inner@.len()
}

/// No rule reads a relation that a later rule derives.
pub open spec fn ordered(p: Program, s: Seq<DeltaRule>) -> bool {
    forall|a: int, b: int| 0 <= a < b < s.len() ==> !reads(p, #[trigger] s[a], head_of(p, #[trigger] s[b]))
}

pub proof fn lemma_contains_push(s: Seq<DeltaRule>, x: DeltaRule, y: DeltaRule)
    ensures
        s.push(x).contains(y) == (s.contains(y) || x == y),
{
    if s.contains(y) {
        let j = choose|j: int| 0 <= j < s.len() && s[j] == y;
        assert(s.push(x)[j] == y);
    }
    if x == y {
        assert(s.push(x)[s.len() as int] == y);
    }
    if s.push(x).contains(y) && x != y {
        let j = choose|j: int| 0 <= j < s.push(x).len() && s.push(x)[j] == y;
        assert(s[j] == y);
    }
}

pub proof fn lemma_contains_remove(s: Seq<DeltaRule>, i: int, y: DeltaRule)
    requires
        0 <= i < s.len(),
    ensures
        s.contains(y) == (s.remove(i).contains(y) || s[i] == y),
{
    let t = s.remove(i);
    assert(t.len() == s.len() - 1);
    assert forall|q: int| 0 <= q < t.len() implies #[trigger] t[q] == if q < i { s[q] } else { s[q + 1] } by {}
    if s.contains(y) && s[i] != y {
        let j = choose|j: int| 0 <= j < s.len() && s[j] == y;
        if j < i {
            assert(t[j] == y);
        } else {
            assert(t[j - 1] == y);
        }
    }
    if t.contains(y) {
        let j = choose|j: int| 0 <= j < t.len() && t[j] == y;
        if j < i {
            assert(s[j] == y);
        } else {
            assert(s[j + 1] == y);
        }
    }
}

/// Parts the rewritten rules by whether their head relation is recursive:
/// first those whose head is not, then those whose head is. Order is kept.
pub fn split_program(p: &Program, d: Vec<DeltaRule>) -> (r: (Vec<DeltaRule>, Vec<DeltaRule>))
    requires
        within(*p, d@),
    ensures
        within(*p, r.0@),
        within(*p, r.1@),
        forall|x: DeltaRule| #[trigger] r.0@.contains(x) <==> d@.contains(x) && !recursive_relation(*p, head_of(*p, x)),
        forall|x: DeltaRule| #[trigger] r.1@.contains(x) <==> d@.contains(x) && recursive_relation(*p, head_of(*p, x)),
{
    let mut nonrec: Vec<DeltaRule> = Vec::new();
    let mut rec: Vec<DeltaRule> = Vec::new();
    let mut i: usize = 0;
    while i < d.len()
        invariant
            i <= d@.len(),
            within(*p, d@),
            within(*p, nonrec@),
            within(*p, rec@),
            forall|x: DeltaRule| #[trigger] nonrec@.contains(x) <==> d@.subrange(0, i as int).contains(x) && !recursive_relation(*p, head_of(*p, x)),
            forall|x: DeltaRule| #[trigger] rec@.contains(x) <==> d@.subrange(0, i as int).contains(x) && recursive_relation(*p, head_of(*p, x)),
        decreases d.len() - i,
    {
        let x = d[i];
        let ghost (n0, r0) = (nonrec@, rec@);
        let rr = is_recursive(p, &p.inner[x.rule].head.symbol);
        if rr {
            rec.push(x);
        } else {
            nonrec.push(x);
        }
        proof {
            assert(d@.subrange(0, i + 1) =~= d@.subrange(0, i as int).push(x));
            assert forall|y: DeltaRule| #[trigger] nonrec@.contains(y) <==> d@.subrange(0, i + 1).contains(y) && !recursive_relation(*p, head_of(*p, y)) by {
                lemma_contains_push(d@.subrange(0, i as int), x, y);
                lemma_contains_push(n0, x, y);
            }
            assert forall|y: DeltaRule| #[trigger] rec@.contains(y) <==> d@.subrange(0, i + 1).contains(y) && recursive_relation(*p, head_of(*p, y)) by {
                lemma_contains_push(d@.subrange(0, i as int), x, y);
                lemma_contains_push(r0, x, y);
            }
        }
        i = i + 1;
    }
    assert(d@.subrange(0, d@.len() as int) =~= d@);
    (nonrec, rec)
}

/// Whether no rule of `s` derives a relation that `x` reads.
pub fn ready(p: &Program, s: &Vec<DeltaRule>, x: DeltaRule) -> (r: bool)
    requires
        within(*p, s@),
        x.rule < p.inner@.len(),
    ensures
        r == forall|q: int| 0 <= q < s@.len() ==> !reads(*p, x, head_of(*p, #[trigger] s@[q])),
{
    let body = &p.inner[x.rule].body;
    let mut q: usize = 0;
    while q < s.len()
        invariant
            within(*p, s@),
            *body == p.inner@[x.rule as int].body,
            q <= s@.len(),
            forall|t: int| 0 <= t < q ==> !reads(*p, x, head_of(*p, #[trigger] s@[t])),
        decreases s.len() - q,
    {
        let h = &p.inner[s[q].rule].head.symbol;
        let mut k: usize = 0;
        while k < body.len()
            invariant
                *body == p.inner@[x.rule as int].body,
                q < s@.len(),
                *h == p.inner@[s@[q as int].rule as int].head.symbol,
                k <= body@.len(),
                forall|m: int| 0 <= m < k ==> (#[trigger] body@[m]).symbol@ != h@,
            decreases body.len() - k,
        {
            if body[k].symbol.eq(h) {
                assert(reads(*p, x, head_of(*p, s@[q as int])));
                return false;
            }
            k = k + 1;
        }
        q = q + 1;
    }
    true
}

/// Orders rewritten rules so that each rule comes after every rule deriving a
/// relation it reads. Fails where no such order exists.
pub fn sort_program(p: &Program, rules: Vec<DeltaRule>) -> (r: Result<Vec<DeltaRule>, String>)
    requires
        within(*p, rules@),
    ensures
        r matches Ok(out) ==> {
            &&& within(*p, out@)
            &&& ordered(*p, out@)
            &&& forall|x: DeltaRule| #[trigger] out@.contains(x) <==> rules@.contains(x)
        },
        (forall|x: DeltaRule| #[trigger] rules@.contains(x) ==> !recursive_relation(*p, head_of(*p, x))) ==> r is Ok,
{
    let mut remaining = rules;
    let mut out: Vec<DeltaRule> = Vec::new();
    loop
        invariant
            within(*p, remaining@),
            within(*p, out@),
            ordered(*p, out@),
            forall|a: int, q: int| 0 <= a < out@.len() && 0 <= q < remaining@.len() ==> !reads(*p, #[trigger] out@[a], head_of(*p, #[trigger] remaining@[q])),
            forall|x: DeltaRule| #[trigger] rules@.contains(x) <==> out@.contains(x) || remaining@.contains(x),
        decreases remaining@.len(),
    {
        if remaining.len() == 0 {
            assert forall|x: DeltaRule| #[trigger] out@.contains(x) <==> rules@.contains(x) by {
                if remaining@.contains(x) {
                    let j = choose|j: int| 0 <= j < remaining@.len() && remaining@[j] == x;
                }
            }
            return Ok(out);
        }
        let mut j: usize = 0;
        let mut found = false;
        while j < remaining.len() && !found
            invariant
                within(*p, remaining@),
                j <= remaining@.len(),
                found ==> j < remaining@.len() && forall|q: int| 0 <= q < remaining@.len() ==> !reads(*p, remaining@[j as int], head_of(*p, #[trigger] remaining@[q])),
                !found ==> forall|t: int| 0 <= t < j ==> #[trigger] blocked(*p, remaining@, t),
            decreases remaining.len() - j, if found { 0int } else { 1int },
        {
            if ready(p, &remaining, remaining[j]) {
                found = true;
            } else {
                proof {
                    let q = choose|q: int| 0 <= q < remaining@.len() && reads(*p, remaining@[j as int], head_of(*p, #[trigger] remaining@[q]));
                    assert(blocked(*p, remaining@, j as int));
                }
                j = j + 1;
            }
        }
        if !found {
            proof {
                if forall|x: DeltaRule| #[trigger] rules@.contains(x) ==> !recursive_relation(*p, head_of(*p, x)) {
                    lemma_none_ready_is_recursive(*p, remaining@);
                    let q = choose|q: int| 0 <= q < remaining@.len() && recursive_relation(*p, head_of(*p, #[trigger] remaining@[q]));
                    assert(remaining@.contains(remaining@[q]));
                    assert(rules@.contains(remaining@[q]));
                }
            }
            return Err("the rules depend on each other in a cycle".to_owned());
        }
        let ghost (o0, r0) = (out@, remaining@);
        let x = remaining.remove(j);
        out.push(x);
        proof {
            assert forall|a: int, q: int| 0 <= a < out@.len() && 0 <= q < remaining@.len() implies !reads(*p, #[trigger] out@[a], head_of(*p, #[trigger] remaining@[q])) by {
                let q0 = if q < j { q } else { q + 1 };
                assert(remaining@[q] == r0[q0]);
                if a < o0.len() {
                    assert(out@[a] == o0[a]);
                }
            }
            assert forall|a: int, b: int| 0 <= a < b < out@.len() implies !reads(*p, #[trigger] out@[a], head_of(*p, #[trigger] out@[b])) by {
                if b < o0.len() {
                    assert(out@[a] == o0[a] && out@[b] == o0[b]);
                } else {
                    assert(out@[a] == o0[a]);
                    assert(x == r0[j as int]);
                }
            }
            assert forall|y: DeltaRule| #[trigger] rules@.contains(y) <==> out@.contains(y) || remaining@.contains(y) by {
                lemma_contains_push(o0, x, y);
                lemma_contains_remove(r0, j as int, y);
            }
            assert forall|q: int| 0 <= q < remaining@.len() implies (#[trigger] remaining@[q]).rule < p.inner@.len() by {
                let q0 = if q < j { q } else { q + 1 };
                assert(remaining@[q] == r0[q0]);
            }
        }
    }
}

/// The rule at position `q` of `s` reads the head relation of some rule of `s`.
pub open spec fn blocked(p: Program, s: Seq<DeltaRule>, q: int) -> bool {
    exists|r: int| 0 <= r < s.len() && #[trigger] reads(p, s[q], head_of(p, s[r]))
}

/// Every rule of `s` reads the head relation of some rule of `s`.
pub open spec fn none_ready(p: Program, s: Seq<DeltaRule>) -> bool {
    forall|q: int| 0 <= q < s.len() ==> #[trigger] blocked(p, s, q)
}

/// From position `start`, follows `t` times to a rule whose head the
/// current rule reads.
pub open spec fn walk(p: Program, s: Seq<DeltaRule>, start: int, t: nat) -> int
    decreases t,
{
    if t == 0 {
        start
    } else {
        let prev = walk(p, s, start, (t - 1) as nat);
        choose|r: int| 0 <= r < s.len() && #[trigger] reads(p, s[prev], head_of(p, s[r]))
    }
}

pub proof fn lemma_walk_step(p: Program, s: Seq<DeltaRule>, start: int, t: nat)
    requires
        none_ready(p, s),
        0 <= start < s.len(),
    ensures
        0 <= walk(p, s, start, t) < s.len(),
        0 <= walk(p, s, start, t + 1) < s.len(),
        reads(p, s[walk(p, s, start, t)], head_of(p, s[walk(p, s, start, t + 1)])),
    decreases t,
{
    if t > 0 {
        lemma_walk_step(p, s, start, (t - 1) as nat);
    }
    let prev = walk(p, s, start, t);
    assert(blocked(p, s, prev));
}

pub proof fn lemma_walk_path(p: Program, s: Seq<DeltaRule>, start: int, a: nat, b: nat)
    requires
        none_ready(p, s),
        within(p, s),
        0 <= start < s.len(),
        a < b,
    ensures
        reaches(p, head_of(p, s[walk(p, s, start, b)]), head_of(p, s[walk(p, s, start, a)]), (b - a) as nat),
    decreases b - a,
{
    lemma_walk_step(p, s, start, a);
    let x = s[walk(p, s, start, a)];
    let y = s[walk(p, s, start, a + 1)];
    let k = choose|k: int| 0 <= k < p.inner@[x.rule as int].body@.len() && (#[trigger] p.inner@[x.rule as int].body@[k]).symbol@ == head_of(p, y);
    assert(edge(p, head_of(p, y), head_of(p, x)));
    if a + 1 < b {
        lemma_walk_path(p, s, start, a + 1, b);
    }
}

/// Among rules that all read the head of one of them, some head relation
/// depends on itself.
pub proof fn lemma_none_ready_is_recursive(p: Program, s: Seq<DeltaRule>)
    requires
        none_ready(p, s),
        within(p, s),
        s.len() > 0,
    ensures
        exists|j: int| 0 <= j < s.len() && recursive_relation(p, head_of(p, #[trigger] s[j])),
{
    let n = s.len();
    let w = Seq::new((n + 1) as nat, |t: int| walk(p, s, 0, t as nat));
    assert forall|t: int| 0 <= t < w.len() implies 0 <= #[trigger] w[t] < n by {
        lemma_walk_step(p, s, 0, t as nat);
    }
    if w.no_duplicates() {
        w.unique_seq_to_set();
        let range = Set::new(|v: int| 0 <= v < n);
        vstd::set_lib::lemma_int_range(0, n as int);
        assert(range =~= vstd::set_lib::set_int_range(0, n as int));
        assert(w.to_set().subset_of(range));
        vstd::set_lib::lemma_len_subset(w.to_set(), range);
        assert(false);
    }
    let (a, b) = choose|a: int, b: int| 0 <= a < w.len() && 0 <= b < w.len() && a != b && w[a] == w[b];
    let (lo, hi) = if a < b { (a, b) } else { (b, a) };
    lemma_walk_path(p, s, 0, lo as nat, hi as nat);
    let j = w[lo];
    assert(reaches(p, head_of(p, s[j]), head_of(p, s[j]), (hi - lo) as nat));
    assert(recursive_relation(p, head_of(p, s[j])));
}

} // verus!
