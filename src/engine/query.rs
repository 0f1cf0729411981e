use vstd::prelude::*;
use crate::syntax::{TypedValue, Matcher, Query, fact_view, pattern_accepts, matcher_accepts};

verus! {

/// Whether the query's matchers accept the fact, position by position. A
/// fact of another length is not accepted.
pub fn pattern_match(query: &Query, fact: &Vec<TypedValue>) -> (r: bool)
    ensures
        r == pattern_accepts(query.matchers@, fact_view(fact@)),
{
    if query.matchers.len() != fact.len() {
        return false;
    }
    let mut i: usize = 0;
    while i < fact.len()
        invariant
            i <= fact@.len(),
            query.matchers@.len() == fact@.len(),
            forall|k: int| 0 <= k < i ==> matcher_accepts(#[trigger] query.matchers@[k], fact@[k]@),
        decreases fact.len() - i,
    {
        let ok = match &query.matchers[i] {
            Matcher::Any => true,
            Matcher::Constant(c) => c.same(&fact[i]),
        };
        if !ok {
            assert(!matcher_accepts(query.matchers@[i as int], fact_view(fact@)[i as int]));
            return false;
        }
        i = i + 1;
    }
    assert forall|k: int| 0 <= k < query.matchers@.len() implies matcher_accepts(
        #[trigger] query.matchers@[k],
        fact_view(fact@)[k],
    ) by {
        assert(matcher_accepts(query.matchers@[k], fact@[k]@));
    }
    true
}

} // verus!
