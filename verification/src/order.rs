//! Orders on sequences, and the stable sort and deduplication built on them.

use vstd::prelude::*;

verus! {

/// The views of the elements of a sequence.
pub open spec fn views<T: View>(items: Seq<T>) -> Seq<T::V> {
    Seq::new(items.len(), |i: int| items[i]@)
}

/// `le` is a total order: any two values are comparable, the relation is
/// transitive, and only equal values are below each other both ways.
pub open spec fn total_order<A>(le: spec_fn(A, A) -> bool) -> bool {
    &&& forall|a: A, b: A| #[trigger] le(a, b) || le(b, a)
    &&& forall|a: A, b: A, c: A| #[trigger] le(a, b) && #[trigger] le(b, c) ==> le(a, c)
    &&& forall|a: A, b: A| #[trigger] le(a, b) && le(b, a) ==> a == b
}

/// `le` compares any two values and is transitive; unequal values may tie.
pub open spec fn total_preorder<A>(le: spec_fn(A, A) -> bool) -> bool {
    &&& forall|a: A, b: A| #[trigger] le(a, b) || le(b, a)
    &&& forall|a: A, b: A, c: A| #[trigger] le(a, b) && #[trigger] le(b, c) ==> le(a, c)
}

/// Dictionary order over sequences whose elements are ordered by `le`.
pub open spec fn lexicographic<A>(a: Seq<A>, b: Seq<A>, le: spec_fn(A, A) -> bool) -> bool
    decreases a.len(),
{
    if a.len() == 0 {
        true
    } else if b.len() == 0 {
        false
    } else if a[0] == b[0] {
        lexicographic(a.drop_first(), b.drop_first(), le)
    } else {
        le(a[0], b[0])
    }
}

proof fn lemma_lexicographic_total<A>(a: Seq<A>, b: Seq<A>, le: spec_fn(A, A) -> bool)
    requires
        total_order(le),
    ensures
        lexicographic(a, b, le) || lexicographic(b, a, le),
    decreases a.len(),
{
    if a.len() > 0 && b.len() > 0 {
        if a[0] == b[0] {
            lemma_lexicographic_total(a.drop_first(), b.drop_first(), le);
        } else {
            assert(le(a[0], b[0]) || le(b[0], a[0]));
        }
    }
}

proof fn lemma_lexicographic_transitive<A>(
    a: Seq<A>,
    b: Seq<A>,
    c: Seq<A>,
    le: spec_fn(A, A) -> bool,
)
    requires
        total_order(le),
        lexicographic(a, b, le),
        lexicographic(b, c, le),
    ensures
        lexicographic(a, c, le),
    decreases a.len(),
{
    if a.len() > 0 {
        if a[0] == b[0] && b[0] == c[0] {
            lemma_lexicographic_transitive(a.drop_first(), b.drop_first(), c.drop_first(), le);
        } else if a[0] == c[0] {
            assert(le(a[0], b[0]) && le(b[0], a[0]));
        }
    }
}

proof fn lemma_lexicographic_antisymmetric<A>(a: Seq<A>, b: Seq<A>, le: spec_fn(A, A) -> bool)
    requires
        total_order(le),
        lexicographic(a, b, le),
        lexicographic(b, a, le),
    ensures
        a == b,
    decreases a.len(),
{
    if a.len() == 0 || b.len() == 0 {
        assert(a =~= b);
    } else {
        if a[0] != b[0] {
            assert(le(a[0], b[0]) && le(b[0], a[0]));
        }
        lemma_lexicographic_antisymmetric(a.drop_first(), b.drop_first(), le);
        assert(a =~= seq![a[0]] + a.drop_first());
        assert(b =~= seq![b[0]] + b.drop_first());
    }
}

/// Dictionary order over a total order is a total order.
pub proof fn lexicographic_is_total_order<A>(le: spec_fn(A, A) -> bool)
    requires
        total_order(le),
    ensures
        total_order(|a: Seq<A>, b: Seq<A>| lexicographic(a, b, le)),
{
    let lex = |a: Seq<A>, b: Seq<A>| lexicographic(a, b, le);
    assert forall|a: Seq<A>, b: Seq<A>| #[trigger] lex(a, b) || lex(b, a) by {
        lemma_lexicographic_total(a, b, le);
    }
    assert forall|a: Seq<A>, b: Seq<A>, c: Seq<A>| #[trigger]
        lex(a, b) && #[trigger] lex(b, c) implies lex(a, c) by {
        lemma_lexicographic_transitive(a, b, c, le);
    }
    assert forall|a: Seq<A>, b: Seq<A>| #[trigger] lex(a, b) && lex(b, a) implies a == b by {
        lemma_lexicographic_antisymmetric(a, b, le);
    }
}

/// Byte strings in dictionary order.
pub open spec fn bytes_le(a: Seq<u8>, b: Seq<u8>) -> bool {
    lexicographic(a, b, |x: u8, y: u8| x <= y)
}

/// Byte strings are totally ordered.
pub proof fn bytes_le_is_total_order()
    ensures
        total_order(|a: Seq<u8>, b: Seq<u8>| bytes_le(a, b)),
{
    let le = |x: u8, y: u8| x <= y;
    lexicographic_is_total_order(le);
    let direct = |a: Seq<u8>, b: Seq<u8>| bytes_le(a, b);
    let lex = |a: Seq<u8>, b: Seq<u8>| lexicographic(a, b, le);
    assert(direct =~= lex);
}

proof fn lemma_lexicographic_skip<A>(a: Seq<A>, b: Seq<A>, k: int, le: spec_fn(A, A) -> bool)
    requires
        0 <= k <= a.len(),
        k <= b.len(),
        forall|i: int| 0 <= i < k ==> a[i] == b[i],
    ensures
        lexicographic(a, b, le) == lexicographic(a.skip(k), b.skip(k), le),
    decreases k,
{
    if k == 0 {
        assert(a.skip(0) =~= a);
        assert(b.skip(0) =~= b);
    } else {
        lemma_lexicographic_skip(a.drop_first(), b.drop_first(), k - 1, le);
        assert(a.drop_first().skip(k - 1) =~= a.skip(k));
        assert(b.drop_first().skip(k - 1) =~= b.skip(k));
    }
}

/// The result of comparing two sequences that agree up to `k`, where one ends
/// or the elements differ.
pub proof fn lexicographic_at<A>(a: Seq<A>, b: Seq<A>, k: int, le: spec_fn(A, A) -> bool)
    requires
        0 <= k <= a.len(),
        k <= b.len(),
        forall|i: int| 0 <= i < k ==> a[i] == b[i],
        k < a.len() && k < b.len() ==> a[k] != b[k],
    ensures
        k == a.len() ==> lexicographic(a, b, le),
        k < a.len() && k == b.len() ==> !lexicographic(a, b, le),
        k < a.len() && k < b.len() ==> lexicographic(a, b, le) == le(a[k], b[k]),
{
    lemma_lexicographic_skip(a, b, k, le);
}

/// Whether `a` comes no later than `b` in dictionary order.
pub fn bytes_at_most(a: &[u8], b: &[u8]) -> (r: bool)
    ensures
        r == bytes_le(a@, b@),
{
    let mut i: usize = 0;
    while i < a.len() && i < b.len() && a[i] == b[i]
        invariant
            i <= a@.len(),
            i <= b@.len(),
            forall|j: int| 0 <= j < i ==> a@[j] == b@[j],
        decreases a@.len() - i,
    {
        i = i + 1;
    }
    proof {
        lexicographic_at(a@, b@, i as int, |x: u8, y: u8| x <= y);
    }
    if i == a.len() {
        true
    } else if i == b.len() {
        false
    } else {
        a[i] <= b[i]
    }
}

/// Whether two byte strings are equal.
pub fn bytes_equal(a: &[u8], b: &[u8]) -> (r: bool)
    ensures
        r == (a@ == b@),
{
    if a.len() != b.len() {
        return false;
    }
    let mut i: usize = 0;
    while i < a.len()
        invariant
            a@.len() == b@.len(),
            i <= a@.len(),
            forall|j: int| 0 <= j < i ==> a@[j] == b@[j],
        decreases a@.len() - i,
    {
        if a[i] != b[i] {
            return false;
        }
        i = i + 1;
    }
    assert(a@ =~= b@);
    true
}

/// Puts `x` behind the last element of `s` that is not above it.
pub open spec fn insert_ranked<A>(s: Seq<A>, x: A, le: spec_fn(A, A) -> bool) -> Seq<A>
    decreases s.len(),
{
    if s.len() == 0 || le(s.last(), x) {
        s.push(x)
    } else {
        insert_ranked(s.drop_last(), x, le).push(s.last())
    }
}

/// The elements of `s` in the order `le`; those that tie keep their order.
pub open spec fn stable_sort<A>(s: Seq<A>, le: spec_fn(A, A) -> bool) -> Seq<A>
    decreases s.len(),
{
    if s.len() == 0 {
        s
    } else {
        insert_ranked(stable_sort(s.drop_last(), le), s.last(), le)
    }
}

/// `s` without each element that repeats its predecessor under `same`.
pub open spec fn dedup_adjacent<A>(s: Seq<A>, same: spec_fn(A, A) -> bool) -> Seq<A>
    decreases s.len(),
{
    if s.len() == 0 {
        s
    } else {
        let before = dedup_adjacent(s.drop_last(), same);
        if before.len() > 0 && same(before.last(), s.last()) {
            before
        } else {
            before.push(s.last())
        }
    }
}

/// Every element comes no later than those behind it.
pub open spec fn ranked<A>(s: Seq<A>, le: spec_fn(A, A) -> bool) -> bool {
    forall|i: int, j: int| 0 <= i <= j < s.len() ==> #[trigger] le(s[i], s[j])
}

proof fn lemma_insert_ranked<A>(s: Seq<A>, x: A, le: spec_fn(A, A) -> bool)
    requires
        total_preorder(le),
        ranked(s, le),
    ensures
        ranked(insert_ranked(s, x, le), le),
    decreases s.len(),
{
    let r = insert_ranked(s, x, le);
    if s.len() == 0 {
        assert(le(x, x) || le(x, x));
    } else if le(s.last(), x) {
        assert forall|i: int, j: int| 0 <= i <= j < r.len() implies #[trigger] le(r[i], r[j]) by {
            if j == s.len() && i < s.len() {
                assert(le(s[i], s[s.len() - 1]));
            } else if i == s.len() {
                assert(le(x, x) || le(x, x));
            }
        }
    } else {
        let inner = insert_ranked(s.drop_last(), x, le);
        assert forall|i: int, j: int|
            0 <= i <= j < s.drop_last().len() implies #[trigger] le(
            s.drop_last()[i],
            s.drop_last()[j],
        ) by {
            assert(le(s[i], s[j]));
        }
        lemma_insert_ranked(s.drop_last(), x, le);
        lemma_insert_ranked_members(s.drop_last(), x, le);
        assert(le(s.last(), x) || le(x, s.last()));
        assert forall|i: int, j: int| 0 <= i <= j < r.len() implies #[trigger] le(r[i], r[j]) by {
            if j == inner.len() {
                if i < inner.len() {
                    assert(inner.contains(inner[i]));
                    if inner[i] != x {
                        let k = choose|k: int|
                            0 <= k < s.drop_last().len() && s.drop_last()[k] == inner[i];
                        assert(le(s[k], s[s.len() - 1]));
                    }
                } else {
                    assert(le(s[s.len() - 1], s[s.len() - 1]));
                }
            } else {
                assert(le(inner[i], inner[j]));
            }
        }
    }
}

proof fn lemma_insert_ranked_members<A>(s: Seq<A>, x: A, le: spec_fn(A, A) -> bool)
    ensures
        insert_ranked(s, x, le).len() == s.len() + 1,
        insert_ranked(s, x, le).to_multiset() == s.to_multiset().insert(x),
        forall|y: A| #[trigger]
            insert_ranked(s, x, le).contains(y) <==> (y == x || s.contains(y)),
    decreases s.len(),
{
    broadcast use vstd::seq_lib::group_to_multiset_ensures;

    let r = insert_ranked(s, x, le);
    if s.len() > 0 && !le(s.last(), x) {
        lemma_insert_ranked_members(s.drop_last(), x, le);
        assert(s =~= s.drop_last().push(s.last()));
        assert(s.to_multiset() =~= s.drop_last().to_multiset().insert(s.last()));
        assert(r.to_multiset() =~= s.to_multiset().insert(x));
    }
    assert forall|y: A| #[trigger] r.contains(y) <==> (y == x || s.contains(y)) by {
        s.to_multiset_ensures();
        r.to_multiset_ensures();
        assert(r.contains(y) <==> r.to_multiset().count(y) > 0);
        assert(s.contains(y) <==> s.to_multiset().count(y) > 0);
    }
}

/// Sorting keeps the elements, no more and no fewer.
pub proof fn stable_sort_is_permutation<A>(s: Seq<A>, le: spec_fn(A, A) -> bool)
    ensures
        stable_sort(s, le).len() == s.len(),
        stable_sort(s, le).to_multiset() == s.to_multiset(),
        forall|y: A| #[trigger] stable_sort(s, le).contains(y) <==> s.contains(y),
    decreases s.len(),
{
    broadcast use vstd::seq_lib::group_to_multiset_ensures;

    if s.len() > 0 {
        stable_sort_is_permutation(s.drop_last(), le);
        lemma_insert_ranked_members(stable_sort(s.drop_last(), le), s.last(), le);
        assert(s =~= s.drop_last().push(s.last()));
        assert(s.to_multiset() =~= s.drop_last().to_multiset().insert(s.last()));
    }
    let r = stable_sort(s, le);
    assert forall|y: A| #[trigger] r.contains(y) <==> s.contains(y) by {
        s.to_multiset_ensures();
        r.to_multiset_ensures();
        assert(r.contains(y) <==> r.to_multiset().count(y) > 0);
        assert(s.contains(y) <==> s.to_multiset().count(y) > 0);
    }
}

/// Sorting by a relation that compares everything puts the elements in order.
pub proof fn stable_sort_is_ranked<A>(s: Seq<A>, le: spec_fn(A, A) -> bool)
    requires
        total_preorder(le),
    ensures
        ranked(stable_sort(s, le), le),
    decreases s.len(),
{
    if s.len() > 0 {
        stable_sort_is_ranked(s.drop_last(), le);
        lemma_insert_ranked(stable_sort(s.drop_last(), le), s.last(), le);
    }
}

/// Neither of two values is above the other.
pub open spec fn ties<A>(le: spec_fn(A, A) -> bool) -> spec_fn(A, A) -> bool {
    |a: A, b: A| le(a, b) && le(b, a)
}

/// The elements of `s` in order, each value once.
pub open spec fn sorted_set<A>(s: Seq<A>, le: spec_fn(A, A) -> bool) -> Seq<A> {
    dedup_adjacent(stable_sort(s, le), ties(le))
}

/// Every element comes before those behind it, and none of them comes before it.
pub open spec fn strictly_ranked<A>(s: Seq<A>, le: spec_fn(A, A) -> bool) -> bool {
    forall|i: int, j: int| 0 <= i < j < s.len() ==> #[trigger] le(s[i], s[j]) && !le(s[j], s[i])
}

proof fn lemma_dedup_adjacent<A>(s: Seq<A>, le: spec_fn(A, A) -> bool)
    requires
        total_preorder(le),
        ranked(s, le),
    ensures
        strictly_ranked(dedup_adjacent(s, ties(le)), le),
        forall|y: A| #[trigger] dedup_adjacent(s, ties(le)).contains(y) ==> s.contains(y),
        forall|y: A|
            s.contains(y) ==> exists|k: int|
                0 <= k < dedup_adjacent(s, ties(le)).len() && ties(le)(
                    #[trigger] dedup_adjacent(s, ties(le))[k],
                    y,
                ),
        s.len() > 0 ==> dedup_adjacent(s, ties(le)).len() > 0 && ties(le)(
            dedup_adjacent(s, ties(le)).last(),
            s.last(),
        ),
    decreases s.len(),
{
    if s.len() > 0 {
        let t = s.drop_last();
        let before = dedup_adjacent(t, ties(le));
        let r = dedup_adjacent(s, ties(le));
        assert forall|i: int, j: int| 0 <= i <= j < t.len() implies #[trigger] le(t[i], t[j]) by {
            assert(le(s[i], s[j]));
        }
        lemma_dedup_adjacent(t, le);
        let x = s.last();
        assert(le(s[s.len() - 1], s[s.len() - 1]));
        assert forall|y: A| #[trigger] r.contains(y) implies s.contains(y) by {
            if before.contains(y) {
                let k = choose|k: int| 0 <= k < t.len() && t[k] == y;
                assert(s[k] == y);
            } else {
                assert(s[s.len() - 1] == y);
            }
        }
        assert forall|y: A| s.contains(y) implies exists|k: int|
            0 <= k < r.len() && ties(le)(#[trigger] r[k], y) by {
            let m = choose|m: int| 0 <= m < s.len() && s[m] == y;
            if m < t.len() {
                assert(t[m] == y);
                assert(t.contains(y));
                let k = choose|k: int| 0 <= k < before.len() && ties(le)(#[trigger] before[k], y);
                assert(ties(le)(r[k], y));
            } else {
                assert(ties(le)(r[r.len() - 1], y));
            }
        }
        if r != before {
            assert(r == before.push(x));
            assert forall|i: int, j: int| 0 <= i < j < r.len() implies #[trigger] le(r[i], r[j])
                && !le(r[j], r[i]) by {
                if j == before.len() {
                    let b = before.last();
                    let tl = t.last();
                    assert(t.len() > 0) by {
                        if t.len() == 0 {
                            assert(before.len() == 0);
                        }
                    }
                    assert(ties(le)(b, tl));
                    assert(le(s[s.len() - 2], s[s.len() - 1]));
                    assert(le(b, x));
                    assert(!le(x, b));
                    if i < before.len() - 1 {
                        assert(le(before[i], before[before.len() - 1]));
                        if le(x, before[i]) {
                            assert(le(x, b));
                        }
                    }
                } else {
                    assert(le(before[i], before[j]));
                }
            }
        }
    }
}

/// A sorted set is strictly in order, and holds the elements of `s` up to ties.
pub proof fn sorted_set_is_strictly_ranked<A>(s: Seq<A>, le: spec_fn(A, A) -> bool)
    requires
        total_preorder(le),
    ensures
        strictly_ranked(sorted_set(s, le), le),
        forall|y: A| #[trigger] sorted_set(s, le).contains(y) ==> s.contains(y),
        forall|y: A|
            s.contains(y) ==> exists|k: int|
                0 <= k < sorted_set(s, le).len() && ties(le)(#[trigger] sorted_set(s, le)[k], y),
{
    stable_sort_is_ranked(s, le);
    stable_sort_is_permutation(s, le);
    lemma_dedup_adjacent(stable_sort(s, le), le);
    assert forall|y: A| #[trigger] sorted_set(s, le).contains(y) implies s.contains(y) by {
        assert(stable_sort(s, le).contains(y));
    }
    assert forall|y: A| s.contains(y) implies exists|k: int|
        0 <= k < sorted_set(s, le).len() && ties(le)(#[trigger] sorted_set(s, le)[k], y) by {
        assert(stable_sort(s, le).contains(y));
        let sorted = stable_sort(s, le);
        let k = choose|k: int|
            0 <= k < dedup_adjacent(sorted, ties(le)).len() && ties(le)(
                #[trigger] dedup_adjacent(sorted, ties(le))[k],
                y,
            );
        assert(ties(le)(sorted_set(s, le)[k], y));
    }
}

/// Under a total order a sorted set holds exactly the elements of `s`.
pub proof fn sorted_set_members<A>(s: Seq<A>, le: spec_fn(A, A) -> bool)
    requires
        total_order(le),
    ensures
        forall|y: A| #[trigger] sorted_set(s, le).contains(y) <==> s.contains(y),
{
    sorted_set_is_strictly_ranked(s, le);
    assert forall|y: A| s.contains(y) implies #[trigger] sorted_set(s, le).contains(y) by {
        let k = choose|k: int|
            0 <= k < sorted_set(s, le).len() && ties(le)(#[trigger] sorted_set(s, le)[k], y);
        assert(sorted_set(s, le)[k] == y);
    }
}

/// Two strictly ordered sequences with the same elements are the same.
pub proof fn strictly_ranked_unique<A>(a: Seq<A>, b: Seq<A>, le: spec_fn(A, A) -> bool)
    requires
        strictly_ranked(a, le),
        strictly_ranked(b, le),
        forall|y: A| #[trigger] a.contains(y) <==> b.contains(y),
    ensures
        a == b,
    decreases a.len(),
{
    if a.len() == 0 {
        if b.len() > 0 {
            assert(b.contains(b[0]));
            assert(a.contains(b[0]));
        }
        assert(a =~= b);
    } else {
        assert(a.contains(a.last()));
        assert(b.len() > 0);
        assert(b.contains(b.last()));
        assert(a.contains(b.last()));
        let i = choose|i: int| 0 <= i < b.len() && b[i] == a.last();
        let j = choose|j: int| 0 <= j < a.len() && a[j] == b.last();
        if a.last() != b.last() {
            assert(le(b[i], b[b.len() - 1]) && !le(b[b.len() - 1], b[i]));
            assert(le(a[j], a[a.len() - 1]) && !le(a[a.len() - 1], a[j]));
        }
        let x = a.drop_last();
        let y = b.drop_last();
        assert forall|i: int, j: int| 0 <= i < j < x.len() implies #[trigger] le(x[i], x[j])
            && !le(x[j], x[i]) by {
            assert(le(a[i], a[j]));
        }
        assert forall|i: int, j: int| 0 <= i < j < y.len() implies #[trigger] le(y[i], y[j])
            && !le(y[j], y[i]) by {
            assert(le(b[i], b[j]));
        }
        assert forall|v: A| #[trigger] x.contains(v) <==> y.contains(v) by {
            lemma_drop_last_members(a, v, le);
            lemma_drop_last_members(b, v, le);
        }
        strictly_ranked_unique(x, y, le);
        assert(a =~= x.push(a.last()));
        assert(b =~= y.push(b.last()));
    }
}

proof fn lemma_drop_last_members<A>(a: Seq<A>, v: A, le: spec_fn(A, A) -> bool)
    requires
        a.len() > 0,
        strictly_ranked(a, le),
    ensures
        a.drop_last().contains(v) <==> (a.contains(v) && v != a.last()),
{
    if a.contains(v) && v != a.last() {
        let k = choose|k: int| 0 <= k < a.len() && a[k] == v;
        assert(a.drop_last()[k] == v);
    }
    if a.drop_last().contains(v) {
        let k = choose|k: int| 0 <= k < a.drop_last().len() && a.drop_last()[k] == v;
        assert(a[k] == v);
        assert(le(a[k], a[a.len() - 1]) && !le(a[a.len() - 1], a[k]));
    }
}

/// A sorted set depends on which values are there, not on how they are listed.
pub proof fn sorted_set_ignores_order<A>(a: Seq<A>, b: Seq<A>, le: spec_fn(A, A) -> bool)
    requires
        total_order(le),
        forall|y: A| #[trigger] a.contains(y) <==> b.contains(y),
    ensures
        sorted_set(a, le) == sorted_set(b, le),
{
    sorted_set_is_strictly_ranked(a, le);
    sorted_set_is_strictly_ranked(b, le);
    sorted_set_members(a, le);
    sorted_set_members(b, le);
    strictly_ranked_unique(sorted_set(a, le), sorted_set(b, le), le);
}

/// A strictly ordered sequence is its own sorted set, also where unequal values
/// may tie.
pub proof fn sorted_set_keeps_strictly_ranked<A>(s: Seq<A>, le: spec_fn(A, A) -> bool)
    requires
        strictly_ranked(s, le),
    ensures
        stable_sort(s, le) == s,
        sorted_set(s, le) == s,
    decreases s.len(),
{
    if s.len() > 0 {
        let init = s.drop_last();
        assert forall|i: int, j: int| 0 <= i < j < init.len() implies #[trigger] le(
            init[i],
            init[j],
        ) && !le(init[j], init[i]) by {
            assert(le(s[i], s[j]));
        }
        sorted_set_keeps_strictly_ranked(init, le);
        if init.len() > 0 {
            assert(le(s[s.len() - 2], s[s.len() - 1]) && !le(s[s.len() - 1], s[s.len() - 2]));
            assert(init.last() == s[s.len() - 2]);
        }
        assert(init.push(s.last()) =~= s);
    }
}

/// Values that can be put in order.
pub trait Ranked: View + Sized {
    spec fn rank_le(a: Self::V, b: Self::V) -> bool;

    fn at_most(&self, other: &Self) -> (r: bool)
        ensures
            r == Self::rank_le(self@, other@),
    ;
}

/// The order of a ranked type, as a relation on its views.
pub open spec fn rank<T: Ranked>() -> spec_fn(T::V, T::V) -> bool {
    |a: T::V, b: T::V| T::rank_le(a, b)
}

impl Ranked for Vec<u8> {
    open spec fn rank_le(a: Seq<u8>, b: Seq<u8>) -> bool {
        bytes_le(a, b)
    }

    fn at_most(&self, other: &Self) -> (r: bool) {
        bytes_at_most(self.as_slice(), other.as_slice())
    }
}

proof fn lemma_insert_ranked_at<A>(s: Seq<A>, x: A, j: int, le: spec_fn(A, A) -> bool)
    requires
        0 <= j <= s.len(),
        j == 0 || le(s[j - 1], x),
        forall|k: int| j <= k < s.len() ==> !le(#[trigger] s[k], x),
    ensures
        insert_ranked(s, x, le) == s.insert(j, x),
    decreases s.len(),
{
    if s.len() == j {
        assert(s.insert(j, x) =~= s.push(x));
    } else {
        assert(!le(s[s.len() - 1], x));
        lemma_insert_ranked_at(s.drop_last(), x, j, le);
        assert(s.drop_last().insert(j, x).push(s.last()) =~= s.insert(j, x));
    }
}

/// Sorts by rank; values that tie keep their order.
pub fn sort_ranked<T: Ranked>(items: Vec<T>) -> (r: Vec<T>)
    ensures
        views(r@) == stable_sort(views(items@), rank::<T>()),
{
    let mut rest = items;
    let ghost all = items@;
    let mut sorted: Vec<T> = Vec::new();
    let ghost mut done: int = 0;
    assert(views(all).take(0) =~= Seq::<T::V>::empty());
    assert(views(sorted@) =~= Seq::<T::V>::empty());
    while rest.len() > 0
        invariant
            0 <= done <= all.len(),
            rest@ == all.skip(done),
            views(sorted@) == stable_sort(views(all).take(done), rank::<T>()),
        decreases rest@.len(),
    {
        let x = rest.remove(0);
        assert(x == all[done]);
        let mut j: usize = sorted.len();
        while j > 0 && !sorted[j - 1].at_most(&x)
            invariant
                j <= sorted@.len(),
                forall|k: int| j <= k < sorted@.len() ==> !rank::<T>()(#[trigger] sorted@[k]@, x@),
            decreases j,
        {
            j = j - 1;
        }
        let ghost before = sorted@;
        proof {
            let s = views(sorted@);
            assert forall|k: int| j <= k < s.len() implies !rank::<T>()(#[trigger] s[k], x@) by {
                assert(s[k] == sorted@[k]@);
            }
            lemma_insert_ranked_at(s, x@, j as int, rank::<T>());
        }
        sorted.insert(j, x);
        proof {
            assert(views(sorted@) =~= views(before).insert(j as int, x@));
            assert(views(all).take(done + 1).drop_last() =~= views(all).take(done));
            assert(views(all).take(done + 1).last() == x@);
            assert(rest@ =~= all.skip(done + 1));
            done = done + 1;
        }
    }
    assert(views(all).take(done) =~= views(all));
    sorted
}

/// Drops each value that ties with the one kept before it.
pub fn dedup_ranked<T: Ranked>(items: Vec<T>) -> (r: Vec<T>)
    ensures
        views(r@) == dedup_adjacent(views(items@), ties(rank::<T>())),
{
    let mut rest = items;
    let ghost all = items@;
    let mut kept: Vec<T> = Vec::new();
    let ghost mut done: int = 0;
    assert(views(all).take(0) =~= Seq::<T::V>::empty());
    assert(views(kept@) =~= Seq::<T::V>::empty());
    while rest.len() > 0
        invariant
            0 <= done <= all.len(),
            rest@ == all.skip(done),
            views(kept@) == dedup_adjacent(views(all).take(done), ties(rank::<T>())),
        decreases rest@.len(),
    {
        let x = rest.remove(0);
        assert(x == all[done]);
        let ghost before = kept@;
        let n: usize = kept.len();
        if !(n > 0 && kept[n - 1].at_most(&x) && x.at_most(&kept[n - 1])) {
            kept.push(x);
            assert(views(kept@) =~= views(before).push(x@));
        }
        proof {
            assert(views(all).take(done + 1).drop_last() =~= views(all).take(done));
            assert(views(all).take(done + 1).last() == x@);
            assert(rest@ =~= all.skip(done + 1));
            if n > 0 {
                assert(views(before).last() == before[n - 1]@);
            }
            done = done + 1;
        }
    }
    assert(views(all).take(done) =~= views(all));
    kept
}

/// Sorts by rank and keeps one of each group of tying values.
pub fn sort_unique<T: Ranked>(items: Vec<T>) -> (r: Vec<T>)
    ensures
        views(r@) == sorted_set(views(items@), rank::<T>()),
{
    dedup_ranked(sort_ranked(items))
}

proof fn lemma_insert_keeps<A>(s: Seq<A>, x: A, le: spec_fn(A, A) -> bool) -> (k: int)
    ensures
        0 <= k <= s.len(),
        insert_ranked(s, x, le) == s.insert(k, x),
        k > 0 ==> le(s[k - 1], x),
        forall|i: int| k <= i < s.len() ==> !le(#[trigger] s[i], x),
    decreases s.len(),
{
    if s.len() == 0 || le(s.last(), x) {
        assert(insert_ranked(s, x, le) =~= s.insert(s.len() as int, x));
        s.len() as int
    } else {
        let init = s.drop_last();
        let k = lemma_insert_keeps(init, x, le);
        assert(insert_ranked(s, x, le) =~= s.insert(k, x));
        assert forall|i: int| k <= i < s.len() implies !le(#[trigger] s[i], x) by {
            if i < init.len() {
                assert(init[i] == s[i]);
            }
        }
        k
    }
}

/// Sorting one element more puts it behind all that it does not have to come
/// before, and leaves the others as they are. So elements that are equal in order
/// stay in the order they had.
pub proof fn sorting_puts_the_next_behind_its_equals<A>(
    s: Seq<A>,
    x: A,
    le: spec_fn(A, A) -> bool,
)
    ensures
        stable_sort(Seq::empty(), le) == Seq::<A>::empty(),
        exists|k: int|
            {
                &&& 0 <= k <= stable_sort(s, le).len()
                &&& stable_sort(s.push(x), le) == #[trigger] stable_sort(s, le).insert(k, x)
                &&& k > 0 ==> le(stable_sort(s, le)[k - 1], x)
                &&& forall|i: int|
                    k <= i < stable_sort(s, le).len() ==> !le(#[trigger] stable_sort(s, le)[i], x)
            },
{
    assert(s.push(x).drop_last() =~= s);
    let sorted = stable_sort(s, le);
    let k = lemma_insert_keeps(sorted, x, le);
    assert(stable_sort(s.push(x), le) == sorted.insert(k, x));
}

} // verus!
