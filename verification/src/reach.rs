//! What can be reached in a graph.

use vstd::prelude::*;

verus! {

/// A way through a graph: it starts at one of `start`, and every step goes to a
/// successor.
pub open spec fn is_chain<A>(next: spec_fn(A) -> Seq<A>, start: Seq<A>, chain: Seq<A>) -> bool {
    &&& chain.len() > 0
    &&& start.contains(chain[0])
    &&& forall|i: int|
        0 <= i < chain.len() - 1 ==> next(#[trigger] chain[i]).contains(chain[i + 1])
}

/// `a` can be reached from `start`.
pub open spec fn reachable<A>(next: spec_fn(A) -> Seq<A>, start: Seq<A>, a: A) -> bool {
    exists|chain: Seq<A>| #[trigger] is_chain(next, start, chain) && chain.last() == a
}

/// What stands at the start is reached.
pub proof fn start_is_reached<A>(next: spec_fn(A) -> Seq<A>, start: Seq<A>, a: A)
    requires
        start.contains(a),
    ensures
        reachable(next, start, a),
{
    let chain = seq![a];
    assert(is_chain(next, start, chain));
    assert(chain.last() == a);
}

/// A successor of what is reached is reached.
pub proof fn successor_is_reached<A>(next: spec_fn(A) -> Seq<A>, start: Seq<A>, a: A, b: A)
    requires
        reachable(next, start, a),
        next(a).contains(b),
    ensures
        reachable(next, start, b),
{
    let chain = choose|chain: Seq<A>| #[trigger]
        is_chain(next, start, chain) && chain.last() == a;
    let longer = chain.push(b);
    assert forall|i: int| 0 <= i < longer.len() - 1 implies next(#[trigger] longer[i]).contains(
        longer[i + 1],
    ) by {
        if i < chain.len() - 1 {
            assert(longer[i] == chain[i] && longer[i + 1] == chain[i + 1]);
        } else {
            assert(longer[i] == a);
        }
    }
    assert(is_chain(next, start, longer));
    assert(longer.last() == b);
}

/// What holds at the start and goes on to successors holds of all that is
/// reached.
pub proof fn reached_is_in_closed_set<A>(
    next: spec_fn(A) -> Seq<A>,
    start: Seq<A>,
    inside: spec_fn(A) -> bool,
    a: A,
)
    requires
        forall|x: A| start.contains(x) ==> #[trigger] inside(x),
        forall|x: A, y: A|
            #![trigger next(x).contains(y)]
            inside(x) && next(x).contains(y) ==> inside(y),
        reachable(next, start, a),
    ensures
        inside(a),
{
    let chain = choose|chain: Seq<A>| #[trigger]
        is_chain(next, start, chain) && chain.last() == a;
    lemma_chain_in_closed_set(next, start, inside, chain, chain.len() - 1);
}

proof fn lemma_chain_in_closed_set<A>(
    next: spec_fn(A) -> Seq<A>,
    start: Seq<A>,
    inside: spec_fn(A) -> bool,
    chain: Seq<A>,
    k: int,
)
    requires
        forall|x: A| start.contains(x) ==> #[trigger] inside(x),
        forall|x: A, y: A|
            #![trigger next(x).contains(y)]
            inside(x) && next(x).contains(y) ==> inside(y),
        is_chain(next, start, chain),
        0 <= k < chain.len(),
    ensures
        inside(chain[k]),
    decreases k,
{
    if k == 0 {
        assert(start.contains(chain[0]));
    } else {
        lemma_chain_in_closed_set(next, start, inside, chain, k - 1);
        assert(next(chain[k - 1]).contains(chain[k]));
    }
}

} // verus!
