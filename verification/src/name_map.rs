//! Maps from names to values, held in the order of the names.

use vstd::prelude::*;

use crate::order::{rank, views};
use crate::sorted_map::{
    keys_ranked, keys_ranked_unique, last_value, maps_to, put, put_all, put_all_keeps_last,
    put_entry, put_entry_sets_one,
};
use crate::text::{text_le, text_le_is_total_order};

verus! {

/// The order of names.
pub open spec fn name_order() -> spec_fn(Seq<char>, Seq<char>) -> bool {
    |a: Seq<char>, b: Seq<char>| text_le(a, b)
}

/// Names come strictly one after the other, so that none is there twice.
pub open spec fn names_ascend<B>(map: Seq<(Seq<char>, B)>) -> bool {
    keys_ranked(map, name_order())
}

/// The entries as a map: in the order of their names, and of those that have one
/// name the last.
pub open spec fn mapped<B>(entries: Seq<(Seq<char>, B)>) -> Seq<(Seq<char>, B)> {
    put_all(Seq::empty(), entries, name_order())
}

/// Values under names, each name once, in the order of the names.
#[derive(Debug)]
pub struct NameMap<T: View> {
    entries: Vec<(String, T)>,
}

impl<T: View> View for NameMap<T> {
    type V = Seq<(Seq<char>, T::V)>;

    closed spec fn view(&self) -> Seq<(Seq<char>, T::V)> {
        views(self.entries@)
    }
}

impl<T: View> NameMap<T> {
    /// The names are in order.
    #[verifier::type_invariant]
    spec fn is_in_order(self) -> bool {
        names_ascend(views(self.entries@))
    }

    /// The map without entries.
    pub fn new() -> (r: Self)
        ensures
            r@ == Seq::<(Seq<char>, T::V)>::empty(),
    {
        let entries: Vec<(String, T)> = Vec::new();
        assert(views(entries@) =~= Seq::<(Seq<char>, T::V)>::empty());
        NameMap { entries }
    }

    /// Gives a name its value.
    pub fn insert(&mut self, name: String, value: T)
        ensures
            final(self)@ == put_entry(old(self)@, (name@, value@), name_order()),
            names_ascend(final(self)@),
    {
        proof {
            use_type_invariant(&*self);
            text_le_is_total_order();
            put_entry_sets_one(self@, (name@, value@), name_order());
            assert(rank::<String>() =~= name_order());
        }
        let mut entries: Vec<(String, T)> = Vec::new();
        assert(views(entries@) =~= Seq::<(Seq<char>, T::V)>::empty());
        std::mem::swap(&mut entries, &mut self.entries);
        put(&mut entries, name, value);
        self.entries = entries;
    }

    /// The map of these entries.
    pub fn of(entries: Vec<(String, T)>) -> (r: Self)
        ensures
            r@ == mapped(views(entries@)),
            names_ascend(r@),
    {
        let ghost given = entries@;
        let ghost all = views(entries@);
        let ghost mut done: int = 0;
        let mut rest = entries;
        let mut r = NameMap::new();
        assert(all.take(0) =~= Seq::<(Seq<char>, T::V)>::empty());
        while rest.len() > 0
            invariant
                0 <= done <= given.len(),
                all == views(given),
                rest@ == given.skip(done),
                r@ == mapped(all.take(done)),
            decreases rest@.len(),
        {
            let (name, value) = rest.remove(0);
            proof {
                assert((name, value) == given[done]);
                assert(all.take(done + 1).drop_last() =~= all.take(done));
                assert(all.take(done + 1).last() == (name@, value@));
                assert(rest@ =~= given.skip(done + 1));
                done = done + 1;
            }
            r.insert(name, value);
        }
        proof {
            assert(all.take(done) =~= all);
            use_type_invariant(&r);
        }
        r
    }

    /// How many names there are.
    pub fn len(&self) -> (r: usize)
        ensures
            r == self@.len(),
            names_ascend(self@),
    {
        proof {
            use_type_invariant(self);
        }
        self.entries.len()
    }

    /// One of the names.
    pub fn name_at(&self, i: usize) -> (r: &String)
        requires
            i < self@.len(),
        ensures
            r@ == self@[i as int].0,
    {
        &self.entries[i].0
    }

    /// The value of one of the names.
    pub fn value_at(&self, i: usize) -> (r: &T)
        requires
            i < self@.len(),
        ensures
            r@ == self@[i as int].1,
    {
        &self.entries[i].1
    }
}

impl Clone for NameMap<String> {
    fn clone(&self) -> (r: Self)
        ensures
            r@ == self@,
    {
        let mut entries: Vec<(String, String)> = Vec::new();
        let mut i: usize = 0;
        while i < self.entries.len()
            invariant
                i <= self.entries@.len(),
                entries@.len() == i,
                forall|k: int| 0 <= k < i ==> (#[trigger] entries@[k])@ == self.entries@[k]@,
            decreases self.entries@.len() - i,
        {
            entries.push((self.entries[i].0.clone(), self.entries[i].1.clone()));
            i = i + 1;
        }
        proof {
            assert(views(entries@) =~= self@);
            use_type_invariant(self);
        }
        NameMap { entries }
    }
}

/// A map depends on the last value given to each name, and not on the order in
/// which the names were given.
pub proof fn mapped_ignores_order<B>(a: Seq<(Seq<char>, B)>, b: Seq<(Seq<char>, B)>)
    requires
        forall|name: Seq<char>| #[trigger]
            last_value(a, name, name_order()) == last_value(b, name, name_order()),
    ensures
        mapped(a) == mapped(b),
        names_ascend(mapped(a)),
{
    let le = name_order();
    text_le_is_total_order();
    put_all_keeps_last(a, le);
    put_all_keeps_last(b, le);
    assert forall|name: Seq<char>, value: B| #[trigger]
        maps_to(mapped(a), name, value, le) <==> maps_to(mapped(b), name, value, le) by {
        assert(last_value(a, name, le) == last_value(b, name, le));
    }
    keys_ranked_unique(mapped(a), mapped(b), le);
}

/// A map holds for each name the last value that was given for it, and no other
/// name.
pub proof fn name_has_its_last_value<B>(entries: Seq<(Seq<char>, B)>, name: Seq<char>, value: B)
    ensures
        mapped(entries).contains((name, value)) <==> exists|k: int|
            0 <= k < entries.len() && #[trigger] entries[k] == (name, value) && forall|i: int|
                k < i < entries.len() ==> (#[trigger] entries[i]).0 != name,
        forall|i: int, j: int|
            0 <= i < j < mapped(entries).len() ==> text_le(
                (#[trigger] mapped(entries)[i]).0,
                (#[trigger] mapped(entries)[j]).0,
            ) && mapped(entries)[i].0 != mapped(entries)[j].0,
{
    let le = name_order();
    let all = mapped(entries);
    text_le_is_total_order();
    put_all_keeps_last(entries, le);
    lemma_last_of_name(entries, name);
    assert(le(name, name));
    if all.contains((name, value)) {
        let k = choose|k: int| 0 <= k < all.len() && all[k] == (name, value);
        assert(le(all[k].0, name) && le(name, all[k].0));
        assert(maps_to(all, name, value, le));
    }
    if exists|k: int|
        0 <= k < entries.len() && #[trigger] entries[k] == (name, value) && forall|i: int|
            k < i < entries.len() ==> (#[trigger] entries[i]).0 != name {
        let k = choose|k: int|
            0 <= k < entries.len() && #[trigger] entries[k] == (name, value) && forall|i: int|
                k < i < entries.len() ==> (#[trigger] entries[i]).0 != name;
        let v = last_value(entries, name, le)->0;
        let x = choose|x: int|
            0 <= x < entries.len() && #[trigger] entries[x] == (name, v) && forall|i: int|
                x < i < entries.len() ==> (#[trigger] entries[i]).0 != name;
        assert(x == k);
        assert(maps_to(all, name, value, le));
        let y = choose|y: int|
            0 <= y < all.len() && le(#[trigger] all[y].0, name) && le(name, all[y].0) && all[y].1
                == value;
        assert(all[y] == (name, value));
    }
    assert forall|i: int, j: int| 0 <= i < j < all.len() implies text_le(
        (#[trigger] all[i]).0,
        (#[trigger] all[j]).0,
    ) && all[i].0 != all[j].0 by {
        assert(le(all[i].0, all[j].0) && !le(all[j].0, all[i].0));
    }
}

proof fn lemma_last_of_name<B>(entries: Seq<(Seq<char>, B)>, name: Seq<char>)
    ensures
        last_value(entries, name, name_order()) is None ==> forall|i: int|
            0 <= i < entries.len() ==> (#[trigger] entries[i]).0 != name,
        last_value(entries, name, name_order()) matches Some(v) ==> exists|k: int|
            0 <= k < entries.len() && #[trigger] entries[k] == (name, v) && forall|i: int|
                k < i < entries.len() ==> (#[trigger] entries[i]).0 != name,
    decreases entries.len(),
{
    let le = name_order();
    text_le_is_total_order();
    if entries.len() > 0 {
        let init = entries.drop_last();
        let last = entries.last();
        lemma_last_of_name(init, name);
        assert(entries[entries.len() - 1] == last);
        assert((le(last.0, name) && le(name, last.0)) <==> last.0 == name) by {
            assert(le(name, name));
        }
        assert forall|i: int| 0 <= i < init.len() implies init[i] == #[trigger] entries[i] by {}
        if last.0 == name {
            assert(entries[entries.len() - 1] == (name, last.1));
        } else if last_value(init, name, le) is Some {
            let v = last_value(init, name, le)->0;
            let k = choose|k: int|
                0 <= k < init.len() && #[trigger] init[k] == (name, v) && forall|i: int|
                    k < i < init.len() ==> (#[trigger] init[i]).0 != name;
            assert(entries[k] == (name, v));
            assert forall|i: int| k < i < entries.len() implies (#[trigger] entries[i]).0 != name by {
                if i < init.len() {
                    assert(init[i].0 != name);
                }
            }
        } else {
            assert forall|i: int| 0 <= i < entries.len() implies (#[trigger] entries[i]).0
                != name by {
                if i < init.len() {
                    assert(init[i].0 != name);
                }
            }
        }
    }
}

} // verus!
