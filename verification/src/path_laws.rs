//! How paths are ordered and changed, told by their components.

use vstd::prelude::*;

use crate::order::{bytes_le, lexicographic_at};
use crate::path::{
    body, body_spans, component_kind, component_le, components, file_name, is_absolute,
    is_plain_name, join, lemma_join, lemma_segment_without_separator, lemma_spans, lemma_take_spans,
    path_le, span_ok, spans, stem_len, stem_of_name, with_extension,
};

verus! {

/// Byte strings are ordered by the first byte in which they differ; one that
/// begins another comes before it.
pub proof fn bytes_are_ordered_by_the_first_difference(a: Seq<u8>, b: Seq<u8>, k: int)
    requires
        0 <= k <= a.len(),
        k <= b.len(),
        forall|i: int| 0 <= i < k ==> a[i] == b[i],
        k < a.len() && k < b.len() ==> a[k] != b[k],
    ensures
        k == a.len() ==> bytes_le(a, b),
        k < a.len() && k == b.len() ==> !bytes_le(a, b),
        k < a.len() && k < b.len() ==> (bytes_le(a, b) <==> a[k] < b[k]),
{
    lexicographic_at(a, b, k, |x: u8, y: u8| x <= y);
}

/// Paths are ordered by the first component in which they differ: the root comes
/// first, then `.`, then `..`, then names, and names by their bytes. A path comes
/// before all that lies below it.
pub proof fn paths_are_ordered_by_the_first_difference(p: Seq<u8>, q: Seq<u8>, k: int)
    requires
        0 <= k <= components(p).len(),
        k <= components(q).len(),
        forall|i: int| 0 <= i < k ==> components(p)[i] == components(q)[i],
        k < components(p).len() && k < components(q).len() ==> components(p)[k]
            != components(q)[k],
    ensures
        ({
            let a = components(p);
            let b = components(q);
            let rank = |c: Seq<u8>|
                if c == seq![47u8] {
                    0int
                } else if c == seq![46u8] {
                    1
                } else if c == seq![46u8, 46u8] {
                    2
                } else {
                    3
                };
            &&& k == a.len() ==> path_le(p, q)
            &&& k < a.len() && k == b.len() ==> !path_le(p, q)
            &&& k < a.len() && k < b.len() ==> (path_le(p, q) <==> rank(a[k]) < rank(b[k]) || (rank(
                a[k],
            ) == rank(b[k]) && bytes_le(a[k], b[k])))
        }),
{
    lexicographic_at(
        components(p),
        components(q),
        k,
        |a: Seq<u8>, b: Seq<u8>| component_le(a, b),
    );
}

proof fn lemma_name_is_a_path(name: Seq<u8>)
    requires
        is_plain_name(name),
    ensures
        body(name) == seq![name],
        components(name) == seq![name],
        !is_absolute(name),
        component_kind(name) == 3,
{
    lemma_segment_without_separator(name, 0);
    let n = name.len() as int;
    assert(name.subrange(0, n) =~= name);
    assert(body_spans(name, n + 1) =~= Seq::<(int, int)>::empty());
    assert(body_spans(name, 0) =~= seq![(0int, n)]);
    assert(body(name) =~= seq![name]);
    assert(spans(name) =~= seq![(0int, n)]) by {
        if name[0] == 46 && name.len() == 1 {
            assert(name =~= seq![46u8]);
        }
    }
    assert(components(name) =~= seq![name]);
    if name == seq![47u8] {
        assert(name[0] == 47);
    }
}

/// The last component of a path and where it stands.
proof fn lemma_last_component(p: Seq<u8>)
    requires
        file_name(p) is Some,
    ensures
        ({
            let (s, e) = spans(p).last();
            &&& 0 <= s < e <= p.len()
            &&& file_name(p)->0 == p.subrange(s, e)
            &&& is_plain_name(file_name(p)->0)
            &&& s > 0 ==> p[s - 1] == 47
            &&& s == 0 ==> spans(p).len() == 1
            &&& !is_absolute(p) || spans(p).len() > 1
        }),
{
    let parts = spans(p);
    let n = parts.len() as int;
    let name = file_name(p)->0;
    lemma_spans(p);
    assert(components(p).len() == n);
    let (s, e) = parts[n - 1];
    assert(name == p.subrange(s, e));
    assert(!is_absolute(p) || n > 1) by {
        if is_absolute(p) && n == 1 {
            assert(parts[0] == (0int, 1int));
            assert(name =~= seq![47u8]);
        }
    }
    assert(span_ok(p, s, e));
    assert forall|i: int| 0 <= i < name.len() implies #[trigger] name[i] != 47 by {
        assert(name[i] == p[s + i]);
    }
    if s == 0 && n > 1 {
        assert(parts[0].1 <= parts[n - 1].0);
    }
}

/// A path whose last component is replaced.
proof fn lemma_last_replaced(p: Seq<u8>, fresh: Seq<u8>)
    requires
        file_name(p) is Some,
        is_plain_name(fresh),
    ensures
        components(p.take(spans(p).last().0) + fresh) == components(p).drop_last().push(fresh),
{
    let n = spans(p).len() as int;
    let (s, e) = spans(p).last();
    let name = file_name(p)->0;
    let d = p.take(s);
    lemma_last_component(p);
    lemma_name_is_a_path(fresh);
    assert(components(p).len() == n);
    if s == 0 {
        assert(d + fresh =~= fresh);
        assert(components(fresh) =~= components(p).drop_last().push(fresh));
    } else {
        assert(d.last() == 47);
        lemma_name_is_a_path(name);
        lemma_join(d, fresh);
        lemma_join(d, name);
        assert(d + fresh =~= join(d, fresh));
        let cut = p.take(e);
        assert(cut =~= join(d, name));
        lemma_take_spans(p, n - 1);
        lemma_spans(p);
        assert(components(cut) =~= components(p)) by {
            let parts = spans(p);
            assert(spans(cut) =~= parts);
            assert forall|k: int| 0 <= k < n implies cut.subrange(parts[k].0, parts[k].1)
                =~= p.subrange(parts[k].0, parts[k].1) by {
                if k < n - 1 {
                    assert(parts[k].1 <= parts[n - 1].0);
                }
            }
        }
        assert(components(p) == components(d) + seq![name]);
        assert(components(p).drop_last() =~= components(d));
        assert(components(d + fresh) =~= components(p).drop_last().push(fresh));
    }
}

proof fn lemma_extended_name(name: Seq<u8>, ext: Seq<u8>)
    requires
        is_plain_name(name),
        ext.len() > 0,
        forall|i: int| 0 <= i < ext.len() ==> #[trigger] ext[i] != 47 && ext[i] != 46,
    ensures
        is_plain_name(stem_of_name(name) + seq![46u8] + ext),
        stem_of_name(name) == name.take(stem_of_name(name).len() as int),
        stem_of_name(name).len() <= name.len(),
{
    lemma_stem_fits(name, name.len() - 1);
    let stem = stem_of_name(name);
    let fresh = stem + seq![46u8] + ext;
    assert forall|i: int| 0 <= i < fresh.len() implies #[trigger] fresh[i] != 47 by {
        if i < stem.len() {
            assert(fresh[i] == stem[i]);
            assert(stem[i] == name[i]);
        } else if i > stem.len() {
            assert(fresh[i] == ext[i - stem.len() - 1]);
        }
    }
    assert(fresh[fresh.len() - 1] == ext[ext.len() - 1]);
    if fresh == seq![46u8, 46u8] {
        assert(fresh[1] == 46);
    }
    assert(seq![46u8].len() == 1 && fresh.len() >= 2);
}

/// A path with another extension differs from it in its last component alone,
/// which has the new extension behind what stood before the old one.
pub proof fn extension_changes_the_last_component_alone(p: Seq<u8>, ext: Seq<u8>)
    requires
        file_name(p) is Some,
        ext.len() > 0,
        forall|i: int| 0 <= i < ext.len() ==> #[trigger] ext[i] != 47 && ext[i] != 46,
    ensures
        ({
            let name = file_name(p)->0;
            components(with_extension(p, ext)) == components(p).drop_last().push(
                stem_of_name(name) + seq![46u8] + ext,
            )
        }),
{
    let name = file_name(p)->0;
    let stem = stem_of_name(name);
    let (s, e) = spans(p).last();
    lemma_last_component(p);
    lemma_extended_name(name, ext);
    lemma_last_replaced(p, stem + seq![46u8] + ext);
    assert(p.take(s + stem.len()) =~= p.take(s) + stem) by {
        assert forall|i: int| 0 <= i < stem.len() implies p[s + i] == stem[i] by {
            assert(name[i] == p[s + i]);
        }
    }
    assert(with_extension(p, ext) =~= p.take(s) + (stem + seq![46u8] + ext));
}

proof fn lemma_stem_fits(name: Seq<u8>, i: int)
    requires
        -1 <= i < name.len(),
    ensures
        0 <= stem_len(name, i) <= name.len(),
    decreases i + 1,
{
    if i > 0 && name[i] != 46 {
        lemma_stem_fits(name, i - 1);
    }
}

} // verus!
