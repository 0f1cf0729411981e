use vstd::prelude::*;
use crate::syntax::Program;

verus! {

/// One rewritten rule: the program's rule at `rule`, whose body atom at
/// position `delta` reads only the facts added in the current round. With no
/// such position, every body atom reads all facts.
#[derive(Clone, Copy)]
pub struct DeltaRule {
    pub rule: usize,
    pub delta: Option<usize>,
}

impl DeltaRule {
    pub open spec fn valid_for(&self, p: Program) -> bool {
        &&& self.rule < p.inner@.len()
        &&& match self.delta {
            Some(k) => k < p.inner@[self.rule as int].body@.len(),
            None => p.inner@[self.rule as int].body@.len() == 0,
        }
    }
}

/// `out` holds the rewritten rule for rule `i` reading the delta at position `k`.
pub open spec fn covers(out: Seq<DeltaRule>, i: usize, k: usize) -> bool {
    out.contains(DeltaRule { rule: i, delta: Some(k) })
}

/// `out` holds the rewritten rule for rule `i` with no delta position.
pub open spec fn covers_whole(out: Seq<DeltaRule>, i: usize) -> bool {
    out.contains(DeltaRule { rule: i, delta: None })
}

/// The rewritten rules that the transform yields for a program: one per body
/// position of each rule, and, for a seed pass, one for each rule without a
/// body; each once.
pub open spec fn is_delta_program(p: Program, seed: bool, out: Seq<DeltaRule>) -> bool {
    &&& forall|j: int| 0 <= j < out.len() ==> (#[trigger] out[j]).valid_for(p)
    &&& forall|j: int| 0 <= j < out.len() ==> (#[trigger] out[j]).delta is None ==> seed
    &&& forall|i: usize, k: usize|
        i < p.inner@.len() && k < p.inner@[i as int].body@.len() ==> #[trigger] covers(out, i, k)
    &&& forall|i: usize|
        i < p.inner@.len() && seed && p.inner@[i as int].body@.len() == 0 ==> #[trigger] covers_whole(out, i)
    &&& forall|a: int, b: int| 0 <= a < b < out.len() ==> #[trigger] out[a] != #[trigger] out[b]
}

pub proof fn lemma_push_contains(s: Seq<DeltaRule>, x: DeltaRule, y: DeltaRule)
    requires
        s.contains(y) || x == y,
    ensures
        s.push(x).contains(y),
{
    if x == y {
        assert(s.push(x)[s.len() as int] == y);
    } else {
        let j = choose|j: int| 0 <= j < s.len() && s[j] == y;
        assert(s.push(x)[j] == y);
    }
}

/// Rewrites each rule into its delta rules, in rule order and then in body
/// order.
pub fn make_delta_program(p: &Program, seed: bool) -> (r: Vec<DeltaRule>)
    ensures
        is_delta_program(*p, seed, r@),
{
    let mut out: Vec<DeltaRule> = Vec::new();
    let mut i: usize = 0;
    while i < p.inner.len()
        invariant
            i <= p.inner@.len(),
            forall|j: int| 0 <= j < out@.len() ==> (#[trigger] out@[j]).valid_for(*p),
            forall|j: int| 0 <= j < out@.len() ==> (#[trigger] out@[j]).delta is None ==> seed,
            forall|j: int| 0 <= j < out@.len() ==> (#[trigger] out@[j]).rule < i,
            forall|a: int, b: int| 0 <= a < b < out@.len() ==> #[trigger] out@[a] != #[trigger] out@[b],
            forall|x: usize, k: usize|
                x < i && k < p.inner@[x as int].body@.len() ==> #[trigger] covers(out@, x, k),
            forall|x: usize|
                x < i && seed && p.inner@[x as int].body@.len() == 0 ==> #[trigger] covers_whole(out@, x),
        decreases p.inner.len() - i,
    {
        let n = p.inner[i].body.len();
        let ghost start = out@.len();
        let ghost before = out@;
        if n == 0 {
            if seed {
                let d = DeltaRule { rule: i, delta: None };
                out.push(d);
                proof {
                    assert forall|x: usize, k: usize|
                        x < i + 1 && k < p.inner@[x as int].body@.len() implies #[trigger] covers(out@, x, k) by {
                        assert(covers(before, x, k));
                        lemma_push_contains(before, d, DeltaRule { rule: x, delta: Some(k) });
                    }
                    assert forall|x: usize|
                        x < i + 1 && seed && p.inner@[x as int].body@.len() == 0 implies #[trigger] covers_whole(out@, x) by {
                        if x < i {
                            assert(covers_whole(before, x));
                        }
                        lemma_push_contains(before, d, DeltaRule { rule: x, delta: None });
                    }
                }
            }
        } else {
            let mut k: usize = 0;
            while k < n
                invariant
                    i < p.inner@.len(),
                    n == p.inner@[i as int].body@.len(),
                    k <= n,
                    start <= out@.len(),
                    out@.len() == start + k,
                    forall|j: int| 0 <= j < out@.len() ==> (#[trigger] out@[j]).valid_for(*p),
                    forall|j: int| 0 <= j < out@.len() ==> (#[trigger] out@[j]).delta is None ==> seed,
                    forall|j: int| 0 <= j < start ==> (#[trigger] out@[j]).rule < i,
                    forall|j: int| start <= j < out@.len() ==> #[trigger] out@[j] == (DeltaRule { rule: i, delta: Some((j - start) as usize) }),
                    forall|a: int, b: int| 0 <= a < b < out@.len() ==> #[trigger] out@[a] != #[trigger] out@[b],
                    forall|x: usize, q: usize|
                        (x < i && q < p.inner@[x as int].body@.len()) || (x == i && q < k) ==> #[trigger] covers(out@, x, q),
                    forall|x: usize|
                        x < i && seed && p.inner@[x as int].body@.len() == 0 ==> #[trigger] covers_whole(out@, x),
                decreases n - k,
            {
                let ghost prev = out@;
                let d = DeltaRule { rule: i, delta: Some(k) };
                out.push(d);
                proof {
                    assert forall|x: usize, q: usize|
                        (x < i && q < p.inner@[x as int].body@.len()) || (x == i && q < k + 1) implies #[trigger] covers(out@, x, q) by {
                        if !(x == i && q == k) {
                            assert(covers(prev, x, q));
                        }
                        lemma_push_contains(prev, d, DeltaRule { rule: x, delta: Some(q) });
                    }
                    assert forall|x: usize|
                        x < i && seed && p.inner@[x as int].body@.len() == 0 implies #[trigger] covers_whole(out@, x) by {
                        assert(covers_whole(prev, x));
                        lemma_push_contains(prev, d, DeltaRule { rule: x, delta: None });
                    }
                    assert forall|a: int, b: int| 0 <= a < b < out@.len() implies #[trigger] out@[a] != #[trigger] out@[b] by {
                        if b == out@.len() - 1 && a < start {
                            assert(out@[a].rule < i);
                        }
                    }
                }
                k = k + 1;
            }
        }
        i = i + 1;
    }
    out
}

} // verus!
