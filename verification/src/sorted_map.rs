//! Maps held as lists in the order of their keys.

use vstd::prelude::*;

use crate::order::{
    rank, strictly_ranked, strictly_ranked_unique, total_order, total_preorder, views, Ranked,
};

verus! {

/// The list with an entry put in its place. Where the key is there, it keeps
/// its spelling and gets the new value.
pub open spec fn put_entry<A, B>(s: Seq<(A, B)>, x: (A, B), le: spec_fn(A, A) -> bool) -> Seq<(A, B)>
    decreases s.len(),
{
    if s.len() == 0 {
        seq![x]
    } else if !le(s.last().0, x.0) {
        put_entry(s.drop_last(), x, le).push(s.last())
    } else if le(x.0, s.last().0) {
        s.drop_last().push((s.last().0, x.1))
    } else {
        s.push(x)
    }
}

/// The list with all the entries put in their places, one after the other.
pub open spec fn put_all<A, B>(s: Seq<(A, B)>, xs: Seq<(A, B)>, le: spec_fn(A, A) -> bool) -> Seq<(A, B)>
    decreases xs.len(),
{
    if xs.len() == 0 {
        s
    } else {
        put_entry(put_all(s, xs.drop_last(), le), xs.last(), le)
    }
}

/// Every key comes strictly before those behind it.
pub open spec fn keys_ranked<A, B>(s: Seq<(A, B)>, le: spec_fn(A, A) -> bool) -> bool {
    forall|i: int, j: int|
        0 <= i < j < s.len() ==> #[trigger] le(s[i].0, s[j].0) && !le(s[j].0, s[i].0)
}

/// The list holds the value for the key.
pub open spec fn maps_to<A, B>(s: Seq<(A, B)>, key: A, value: B, le: spec_fn(A, A) -> bool) -> bool {
    exists|k: int|
        0 <= k < s.len() && le(#[trigger] s[k].0, key) && le(key, s[k].0) && s[k].1 == value
}

/// Putting an entry keeps the keys in order, gives the key its value, and
/// leaves all other keys alone.
pub proof fn put_entry_sets_one<A, B>(s: Seq<(A, B)>, x: (A, B), le: spec_fn(A, A) -> bool)
    requires
        total_preorder(le),
        keys_ranked(s, le),
    ensures
        keys_ranked(put_entry(s, x, le), le),
        forall|key: A, value: B| #[trigger]
            maps_to(put_entry(s, x, le), key, value, le) <==> if le(key, x.0) && le(x.0, key) {
                value == x.1
            } else {
                maps_to(s, key, value, le)
            },
        forall|k: int|
            0 <= k < put_entry(s, x, le).len() ==> {
                ||| (#[trigger] put_entry(s, x, le)[k]).0 == x.0
                ||| exists|j: int| 0 <= j < s.len() && (#[trigger] s[j]).0 == put_entry(s, x, le)[k].0
            },
    decreases s.len(),
{
    let r = put_entry(s, x, le);
    assert(le(x.0, x.0));
    if s.len() == 0 {
        assert forall|key: A, value: B| #[trigger] maps_to(r, key, value, le) <==> if le(key, x.0)
            && le(x.0, key) {
            value == x.1
        } else {
            maps_to(s, key, value, le)
        } by {
            assert(r[0] == x);
        }
    } else if !le(s.last().0, x.0) {
        let init = s.drop_last();
        let last = s.last();
        assert forall|i: int, j: int| 0 <= i < j < init.len() implies #[trigger] le(
            init[i].0,
            init[j].0,
        ) && !le(init[j].0, init[i].0) by {
            assert(le(s[i].0, s[j].0));
        }
        put_entry_sets_one(init, x, le);
        let before = put_entry(init, x, le);
        assert(le(x.0, last.0));
        assert forall|k: int| 0 <= k < before.len() implies le(#[trigger] before[k].0, last.0)
            && !le(last.0, before[k].0) by {
            if before[k].0 != x.0 {
                let j = choose|j: int| 0 <= j < init.len() && (#[trigger] init[j]).0 == before[k].0;
                assert(le(s[j].0, s[s.len() - 1].0) && !le(s[s.len() - 1].0, s[j].0));
            }
        }
        assert forall|i: int, j: int| 0 <= i < j < r.len() implies #[trigger] le(r[i].0, r[j].0)
            && !le(r[j].0, r[i].0) by {
            assert(r[i] == before[i]);
            if j < before.len() {
                assert(r[j] == before[j]);
                assert(le(before[i].0, before[j].0));
            }
        }
        assert forall|key: A, value: B| #[trigger] maps_to(r, key, value, le) <==> if le(key, x.0)
            && le(x.0, key) {
            value == x.1
        } else {
            maps_to(s, key, value, le)
        } by {
            lemma_maps_push(before, last, key, value, le);
            lemma_maps_push(init, last, key, value, le);
            assert(init.push(last) =~= s);
            assert(maps_to(before, key, value, le) <==> if le(key, x.0) && le(x.0, key) {
                value == x.1
            } else {
                maps_to(init, key, value, le)
            });
            if le(key, x.0) && le(x.0, key) && le(last.0, key) {
                assert(le(last.0, x.0));
            }
        }
        assert forall|k: int| 0 <= k < r.len() implies {
            ||| (#[trigger] r[k]).0 == x.0
            ||| exists|j: int| 0 <= j < s.len() && (#[trigger] s[j]).0 == r[k].0
        } by {
            if k < before.len() {
                assert(r[k] == before[k]);
                if before[k].0 != x.0 {
                    let j = choose|j: int|
                        0 <= j < init.len() && (#[trigger] init[j]).0 == before[k].0;
                    assert(s[j].0 == r[k].0);
                }
            } else {
                assert(s[s.len() - 1].0 == r[k].0);
            }
        }
    } else if le(x.0, s.last().0) {
        let init = s.drop_last();
        let last = s.last();
        let now = (last.0, x.1);
        assert(r == init.push(now));
        assert forall|i: int, j: int| 0 <= i < j < r.len() implies #[trigger] le(r[i].0, r[j].0)
            && !le(r[j].0, r[i].0) by {
            assert(le(s[i].0, s[j].0));
        }
        assert forall|key: A, value: B| #[trigger] maps_to(r, key, value, le) <==> if le(key, x.0)
            && le(x.0, key) {
            value == x.1
        } else {
            maps_to(s, key, value, le)
        } by {
            lemma_maps_push(init, now, key, value, le);
            lemma_maps_push(init, last, key, value, le);
            assert(init.push(last) =~= s);
            if le(key, x.0) && le(x.0, key) {
                assert(le(key, last.0) && le(last.0, key));
                if maps_to(init, key, value, le) {
                    let k = choose|k: int|
                        0 <= k < init.len() && le(#[trigger] init[k].0, key) && le(key, init[k].0)
                            && init[k].1 == value;
                    assert(le(last.0, init[k].0));
                    assert(le(s[k].0, s[s.len() - 1].0) && !le(s[s.len() - 1].0, s[k].0));
                }
            } else if le(key, last.0) && le(last.0, key) {
                assert(le(key, x.0) && le(x.0, key));
            }
        }
        assert forall|k: int| 0 <= k < r.len() implies {
            ||| (#[trigger] r[k]).0 == x.0
            ||| exists|j: int| 0 <= j < s.len() && (#[trigger] s[j]).0 == r[k].0
        } by {
            assert(s[k].0 == r[k].0);
        }
    } else {
        let last = s.last();
        assert forall|i: int, j: int| 0 <= i < j < r.len() implies #[trigger] le(r[i].0, r[j].0)
            && !le(r[j].0, r[i].0) by {
            if j < s.len() {
                assert(le(s[i].0, s[j].0));
            } else {
                let n = s.len() - 1;
                assert(r[i] == s[i] && r[j] == x && s[n] == last);
                if i < n {
                    assert(le(s[i].0, s[n].0));
                    assert(!le(s[n].0, s[i].0));
                }
                if le(x.0, s[i].0) {
                    assert(le(x.0, last.0));
                }
            }
        }
        assert forall|key: A, value: B| #[trigger] maps_to(r, key, value, le) <==> if le(key, x.0)
            && le(x.0, key) {
            value == x.1
        } else {
            maps_to(s, key, value, le)
        } by {
            lemma_maps_push(s, x, key, value, le);
            if le(key, x.0) && le(x.0, key) && maps_to(s, key, value, le) {
                let k = choose|k: int|
                    0 <= k < s.len() && le(#[trigger] s[k].0, key) && le(key, s[k].0) && s[k].1
                        == value;
                assert(le(x.0, s[k].0));
                if k < s.len() - 1 {
                    assert(le(s[k].0, s[s.len() - 1].0));
                }
                assert(le(x.0, last.0));
            }
        }
        assert forall|k: int| 0 <= k < r.len() implies {
            ||| (#[trigger] r[k]).0 == x.0
            ||| exists|j: int| 0 <= j < s.len() && (#[trigger] s[j]).0 == r[k].0
        } by {
            if k < s.len() {
                assert(s[k].0 == r[k].0);
            }
        }
    }
}

proof fn lemma_maps_push<A, B>(
    s: Seq<(A, B)>,
    x: (A, B),
    key: A,
    value: B,
    le: spec_fn(A, A) -> bool,
)
    ensures
        maps_to(s.push(x), key, value, le) <==> maps_to(s, key, value, le) || (le(x.0, key) && le(
            key,
            x.0,
        ) && x.1 == value),
{
    let r = s.push(x);
    if maps_to(s, key, value, le) {
        let k = choose|k: int|
            0 <= k < s.len() && le(#[trigger] s[k].0, key) && le(key, s[k].0) && s[k].1 == value;
        assert(r[k] == s[k]);
    }
    if le(x.0, key) && le(key, x.0) && x.1 == value {
        assert(r[s.len() as int] == x);
    }
    if maps_to(r, key, value, le) {
        let k = choose|k: int|
            0 <= k < r.len() && le(#[trigger] r[k].0, key) && le(key, r[k].0) && r[k].1 == value;
        if k < s.len() {
            assert(s[k] == r[k]);
        }
    }
}

/// The value that a list of entries gives a key, the last one counting.
pub open spec fn last_value<A, B>(xs: Seq<(A, B)>, key: A, le: spec_fn(A, A) -> bool) -> Option<B>
    decreases xs.len(),
{
    if xs.len() == 0 {
        None
    } else if le(xs.last().0, key) && le(key, xs.last().0) {
        Some(xs.last().1)
    } else {
        last_value(xs.drop_last(), key, le)
    }
}

/// A map that entries are put into holds for each key the last value put, and
/// its keys are in order.
pub proof fn put_all_keeps_last<A, B>(xs: Seq<(A, B)>, le: spec_fn(A, A) -> bool)
    requires
        total_preorder(le),
    ensures
        keys_ranked(put_all(Seq::<(A, B)>::empty(), xs, le), le),
        forall|key: A, value: B| #[trigger]
            maps_to(put_all(Seq::<(A, B)>::empty(), xs, le), key, value, le) <==> last_value(
                xs,
                key,
                le,
            ) == Some(value),
    decreases xs.len(),
{
    let r = put_all(Seq::<(A, B)>::empty(), xs, le);
    if xs.len() > 0 {
        let init = xs.drop_last();
        put_all_keeps_last(init, le);
        let before = put_all(Seq::<(A, B)>::empty(), init, le);
        put_entry_sets_one(before, xs.last(), le);
        assert forall|key: A, value: B| #[trigger] maps_to(r, key, value, le) <==> last_value(
            xs,
            key,
            le,
        ) == Some(value) by {
            assert(maps_to(before, key, value, le) <==> last_value(init, key, le) == Some(value));
        }
    }
}

/// Two maps in order that hold the same under an order without ties are the
/// same list.
pub proof fn keys_ranked_unique<A, B>(a: Seq<(A, B)>, b: Seq<(A, B)>, le: spec_fn(A, A) -> bool)
    requires
        total_order(le),
        keys_ranked(a, le),
        keys_ranked(b, le),
        forall|key: A, value: B| #[trigger]
            maps_to(a, key, value, le) <==> maps_to(b, key, value, le),
    ensures
        a == b,
{
    let pairs = |x: (A, B), y: (A, B)| le(x.0, y.0);
    assert(strictly_ranked(a, pairs)) by {
        assert forall|i: int, j: int| 0 <= i < j < a.len() implies #[trigger] pairs(a[i], a[j])
            && !pairs(a[j], a[i]) by {
            assert(le(a[i].0, a[j].0));
        }
    }
    assert(strictly_ranked(b, pairs)) by {
        assert forall|i: int, j: int| 0 <= i < j < b.len() implies #[trigger] pairs(b[i], b[j])
            && !pairs(b[j], b[i]) by {
            assert(le(b[i].0, b[j].0));
        }
    }
    assert forall|y: (A, B)| #[trigger] a.contains(y) <==> b.contains(y) by {
        lemma_contains(a, y, le);
        lemma_contains(b, y, le);
        assert(maps_to(a, y.0, y.1, le) <==> maps_to(b, y.0, y.1, le));
    }
    strictly_ranked_unique(a, b, pairs);
}

proof fn lemma_contains<A, B>(s: Seq<(A, B)>, y: (A, B), le: spec_fn(A, A) -> bool)
    requires
        total_order(le),
    ensures
        s.contains(y) <==> maps_to(s, y.0, y.1, le),
{
    if s.contains(y) {
        let k = choose|k: int| 0 <= k < s.len() && s[k] == y;
        assert(le(s[k].0, y.0));
    }
    if maps_to(s, y.0, y.1, le) {
        let k = choose|k: int|
            0 <= k < s.len() && le(#[trigger] s[k].0, y.0) && le(y.0, s[k].0) && s[k].1 == y.1;
        assert(s[k] == y);
    }
}

proof fn lemma_put_at<A, B>(s: Seq<(A, B)>, x: (A, B), j: int, le: spec_fn(A, A) -> bool)
    requires
        0 <= j <= s.len(),
        j > 0 ==> le(s[j - 1].0, x.0),
        forall|k: int| j <= k < s.len() ==> !le(#[trigger] s[k].0, x.0),
    ensures
        put_entry(s, x, le) == if j > 0 && le(x.0, s[j - 1].0) {
            s.update(j - 1, (s[j - 1].0, x.1))
        } else {
            s.insert(j, x)
        },
    decreases s.len(),
{
    if s.len() == 0 {
        assert(s.insert(0, x) =~= seq![x]);
    } else if j == s.len() {
        if le(x.0, s.last().0) {
            assert(s.drop_last().push((s.last().0, x.1)) =~= s.update(
                j - 1,
                (s[j - 1].0, x.1),
            ));
        } else {
            assert(s.insert(j, x) =~= s.push(x));
        }
    } else {
        assert(!le(s[s.len() - 1].0, x.0));
        let init = s.drop_last();
        assert forall|k: int| j <= k < init.len() implies !le(#[trigger] init[k].0, x.0) by {
            assert(!le(s[k].0, x.0));
        }
        lemma_put_at(init, x, j, le);
        if j > 0 && le(x.0, s[j - 1].0) {
            assert(init.update(j - 1, (s[j - 1].0, x.1)).push(s.last()) =~= s.update(
                j - 1,
                (s[j - 1].0, x.1),
            ));
        } else {
            assert(init.insert(j, x).push(s.last()) =~= s.insert(j, x));
        }
    }
}

/// Puts an entry in its place.
pub fn put<K: Ranked, B: View>(entries: &mut Vec<(K, B)>, key: K, value: B)
    ensures
        views(final(entries)@) == put_entry(views(old(entries)@), (key@, value@), rank::<K>()),
{
    let ghost before = entries@;
    let ghost s = views(entries@);
    let ghost x = (key@, value@);
    let mut j: usize = entries.len();
    while j > 0 && !entries[j - 1].0.at_most(&key)
        invariant
            j <= entries@.len(),
            entries@ == before,
            s == views(before),
            forall|k: int| j <= k < s.len() ==> !rank::<K>()(#[trigger] s[k].0, key@),
        decreases j,
    {
        j = j - 1;
        assert(s[j as int].0 == entries@[j as int].0@);
    }
    proof {
        if j > 0 {
            assert(s[j - 1].0 == entries@[j - 1].0@);
        }
        lemma_put_at(s, x, j as int, rank::<K>());
    }
    if j > 0 && key.at_most(&entries[j - 1].0) {
        let (kept, _) = entries.remove(j - 1);
        entries.insert(j - 1, (kept, value));
        proof {
            let after = entries@;
            assert(views(after) =~= s.update(j - 1, (s[j - 1].0, x.1))) by {
                assert forall|k: int| 0 <= k < after.len() implies views(after)[k] == s.update(
                    j - 1,
                    (s[j - 1].0, x.1),
                )[k] by {
                    if k != j - 1 {
                        assert(after[k] == before[k]);
                    }
                }
            }
        }
    } else {
        entries.insert(j, (key, value));
        proof {
            assert(views(entries@) =~= s.insert(j as int, x));
        }
    }
}

} // verus!
