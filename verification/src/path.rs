//! File paths of Unix: byte strings read as sequences of components.
//!
//! Paths are Unix's on every system that the library is built for: components are
//! separated by `/`, a backslash is a byte of a name like any other, and there are
//! no drive prefixes. A path of Windows is no input of this library.
//!
//! A path is absolute when it starts with a separator. Repeated separators,
//! trailing separators and `.` components carry no meaning, except for a `.`
//! that starts a relative path. Paths are compared by their components.

use vstd::prelude::*;

use crate::order::{
    bytes_le, bytes_le_is_total_order, lexicographic, lexicographic_is_total_order, total_order,
    total_preorder,
};

verus! {

/// Separates the components of a path, as Unix does: the byte `/`.
pub const SEPARATOR: u8 = 47;

/// The byte `.`.
pub const DOT: u8 = 46;

/// The first separator of `p` at `i` or behind it, or the end of `p`.
pub open spec fn segment_end(p: Seq<u8>, i: int) -> int
    decreases p.len() - i,
{
    if i >= p.len() || p[i] == SEPARATOR {
        i
    } else {
        segment_end(p, i + 1)
    }
}

/// Text between separators that names no component.
pub open spec fn is_filler(segment: Seq<u8>) -> bool {
    segment.len() == 0 || segment == seq![DOT]
}

/// The components of `p` from `i` on, each with where it starts and ends.
pub open spec fn body_spans(p: Seq<u8>, i: int) -> Seq<(int, int)>
    decreases p.len() + 1 - i,
{
    if i < 0 || i >= p.len() {
        Seq::empty()
    } else {
        proof {
            lemma_segment_end(p, i);
        }
        let e = segment_end(p, i);
        let rest = body_spans(p, e + 1);
        if is_filler(p.subrange(i, e)) {
            rest
        } else {
            seq![(i, e)] + rest
        }
    }
}

/// A relative path whose first component is `.`.
pub open spec fn has_leading_dot(p: Seq<u8>) -> bool {
    p.len() > 0 && p[0] == DOT && (p.len() == 1 || p[1] == SEPARATOR)
}

/// The path starts at the file system's root.
pub open spec fn is_absolute(p: Seq<u8>) -> bool {
    p.len() > 0 && p[0] == SEPARATOR
}

/// Where each component of `p` starts and ends. The root counts as a
/// component, spelled as one separator.
pub open spec fn spans(p: Seq<u8>) -> Seq<(int, int)> {
    if is_absolute(p) {
        seq![(0int, 1int)] + body_spans(p, 1)
    } else if has_leading_dot(p) {
        seq![(0int, 1int)] + body_spans(p, 2)
    } else {
        body_spans(p, 0)
    }
}

/// The text of each part of `p`.
pub open spec fn slices(p: Seq<u8>, parts: Seq<(int, int)>) -> Seq<Seq<u8>> {
    Seq::new(parts.len(), |k: int| p.subrange(parts[k].0, parts[k].1))
}

/// The components of a path: the root as a separator, `.` at the start of a
/// relative path, `..`, and names.
pub open spec fn components(p: Seq<u8>) -> Seq<Seq<u8>> {
    slices(p, spans(p))
}

/// Two spellings of one path.
pub open spec fn same_path(p: Seq<u8>, q: Seq<u8>) -> bool {
    components(p) == components(q)
}

/// `p` is `base` or lies below it.
pub open spec fn starts_with(p: Seq<u8>, base: Seq<u8>) -> bool {
    components(base).is_prefix_of(components(p))
}

/// `p` lies below `base` and is not `base` itself.
pub open spec fn strictly_below(p: Seq<u8>, base: Seq<u8>) -> bool {
    starts_with(p, base) && !same_path(p, base)
}

/// The order of kinds of components: the root, `.`, `..`, names.
pub open spec fn component_kind(c: Seq<u8>) -> int {
    if c == seq![SEPARATOR] {
        0
    } else if c == seq![DOT] {
        1
    } else if c == seq![DOT, DOT] {
        2
    } else {
        3
    }
}

/// The order of components: by kind, and names by their bytes.
pub open spec fn component_le(a: Seq<u8>, b: Seq<u8>) -> bool {
    component_kind(a) < component_kind(b) || (component_kind(a) == component_kind(b) && bytes_le(
        a,
        b,
    ))
}

/// The order of paths: component by component.
pub open spec fn path_le(p: Seq<u8>, q: Seq<u8>) -> bool {
    lexicographic(components(p), components(q), |a: Seq<u8>, b: Seq<u8>| component_le(a, b))
}

/// The order of paths.
pub open spec fn path_order() -> spec_fn(Seq<u8>, Seq<u8>) -> bool {
    |p: Seq<u8>, q: Seq<u8>| path_le(p, q)
}

/// Appends `q` to `p`; an absolute `q` replaces it.
pub open spec fn join(p: Seq<u8>, q: Seq<u8>) -> Seq<u8> {
    if is_absolute(q) {
        q
    } else if p.len() == 0 || p.last() == SEPARATOR {
        p + q
    } else {
        p + seq![SEPARATOR] + q
    }
}

/// `p` up to the end of its last component but one; the root and the empty
/// path have no parent.
pub open spec fn parent(p: Seq<u8>) -> Option<Seq<u8>> {
    let parts = spans(p);
    if parts.len() == 0 || (parts.len() == 1 && is_absolute(p)) {
        None
    } else if parts.len() == 1 {
        Some(Seq::empty())
    } else {
        Some(p.take(parts[parts.len() - 2].1))
    }
}

/// The last component, where it is a name.
pub open spec fn file_name(p: Seq<u8>) -> Option<Seq<u8>> {
    let c = components(p);
    if c.len() > 0 && component_kind(c.last()) == 3 {
        Some(c.last())
    } else {
        None
    }
}

/// What is left of `p` below `base`, from the start of the first component
/// left to the end of the last.
pub open spec fn strip_prefix(p: Seq<u8>, base: Seq<u8>) -> Option<Seq<u8>> {
    let parts = spans(p);
    let k = spans(base).len() as int;
    if !starts_with(p, base) {
        None
    } else if k == parts.len() {
        Some(Seq::empty())
    } else {
        Some(p.subrange(parts[k].0, parts.last().1))
    }
}

/// The path itself, its parent, the parent's parent, and so on.
pub open spec fn ancestors(p: Seq<u8>) -> Seq<Seq<u8>>
    decreases spans(p).len(),
{
    match parent(p) {
        None => seq![p],
        Some(q) => {
            proof {
                lemma_parent_spans(p);
            }
            seq![p] + ancestors(q)
        },
    }
}

/// Where the extension's dot stands in a file name: the last dot, unless it
/// starts the name.
pub open spec fn stem_len(name: Seq<u8>, i: int) -> int
    decreases i,
{
    if i <= 0 {
        name.len() as int
    } else if name[i] == DOT {
        i
    } else {
        stem_len(name, i - 1)
    }
}

/// A file name up to its extension.
pub open spec fn stem_of_name(name: Seq<u8>) -> Seq<u8> {
    name.take(stem_len(name, name.len() - 1))
}

/// A file name's extension: what stands behind the last dot, where that dot
/// does not start the name.
pub open spec fn extension_of_name(name: Seq<u8>) -> Option<Seq<u8>> {
    let k = stem_len(name, name.len() - 1);
    if k < name.len() {
        Some(name.skip(k + 1))
    } else {
        None
    }
}

/// The extension of the path's file name.
pub open spec fn extension(p: Seq<u8>) -> Option<Seq<u8>> {
    match file_name(p) {
        None => None,
        Some(name) => extension_of_name(name),
    }
}

/// The path with the extension of its file name replaced by `ext`.
pub open spec fn with_extension(p: Seq<u8>, ext: Seq<u8>) -> Seq<u8> {
    match file_name(p) {
        None => p,
        Some(name) => {
            let kept = p.take(spans(p).last().0 + stem_of_name(name).len());
            if ext.len() == 0 {
                kept
            } else {
                kept + seq![DOT] + ext
            }
        },
    }
}

pub proof fn lemma_segment_end(p: Seq<u8>, i: int)
    requires
        0 <= i,
    ensures
        i <= segment_end(p, i),
        i <= p.len() ==> segment_end(p, i) <= p.len(),
        segment_end(p, i) < p.len() ==> p[segment_end(p, i)] == SEPARATOR,
        forall|k: int| i <= k < segment_end(p, i) ==> p[k] != SEPARATOR,
    decreases p.len() - i,
{
    if !(i >= p.len() || p[i] == SEPARATOR) {
        lemma_segment_end(p, i + 1);
    }
}

/// What holds of the span of a component.
pub open spec fn span_ok(p: Seq<u8>, s: int, e: int) -> bool {
    &&& 0 <= s < e <= p.len()
    &&& e < p.len() ==> p[e] == SEPARATOR
    &&& s > 0 ==> p[s - 1] == SEPARATOR
    &&& forall|k: int| s <= k < e ==> p[k] != SEPARATOR
}

proof fn lemma_body_spans(p: Seq<u8>, i: int)
    requires
        0 <= i <= p.len() + 1,
        i > 0 ==> p[i - 1] == SEPARATOR || i == p.len() + 1,
    ensures
        forall|k: int|
            0 <= k < body_spans(p, i).len() ==> {
                &&& span_ok(p, (#[trigger] body_spans(p, i)[k]).0, body_spans(p, i)[k].1)
                &&& i <= body_spans(p, i)[k].0
                &&& !is_filler(p.subrange(body_spans(p, i)[k].0, body_spans(p, i)[k].1))
            },
        forall|j: int, k: int|
            0 <= j < k < body_spans(p, i).len() ==> (#[trigger] body_spans(p, i)[j]).1 < (
            #[trigger] body_spans(p, i)[k]).0,
    decreases p.len() + 1 - i,
{
    if i < p.len() {
        lemma_segment_end(p, i);
        let e = segment_end(p, i);
        lemma_body_spans(p, e + 1);
        let rest = body_spans(p, e + 1);
        if !is_filler(p.subrange(i, e)) {
            let all = seq![(i, e)] + rest;
            assert(body_spans(p, i) == all);
            assert forall|j: int, k: int| 0 <= j < k < all.len() implies (#[trigger] all[j]).1 < (
            #[trigger] all[k]).0 by {
                assert(all[k] == rest[k - 1]);
                if j > 0 {
                    assert(all[j] == rest[j - 1]);
                }
            }
            assert forall|k: int| 0 <= k < all.len() implies {
                &&& span_ok(p, (#[trigger] all[k]).0, all[k].1)
                &&& i <= all[k].0
                &&& !is_filler(p.subrange(all[k].0, all[k].1))
            } by {
                if k > 0 {
                    assert(all[k] == rest[k - 1]);
                }
            }
        }
    }
}

/// The spans of a path lie in it, in order, and no two of them touch, except
/// that the root touches what follows it.
pub proof fn lemma_spans(p: Seq<u8>)
    ensures
        forall|k: int|
            0 <= k < spans(p).len() ==> {
                &&& 0 <= (#[trigger] spans(p)[k]).0 < spans(p)[k].1 <= p.len()
                &&& (k > 0 || !is_absolute(p)) ==> span_ok(p, spans(p)[k].0, spans(p)[k].1)
                &&& k > 0 ==> !is_filler(p.subrange(spans(p)[k].0, spans(p)[k].1))
            },
        forall|j: int, k: int|
            0 <= j < k < spans(p).len() ==> (#[trigger] spans(p)[j]).1 <= (
            #[trigger] spans(p)[k]).0,
        is_absolute(p) ==> spans(p).len() > 0 && spans(p)[0] == (0int, 1int),
        p.len() > 0 ==> spans(p).len() > 0 && spans(p)[0].0 == 0,
        p.len() == 0 ==> spans(p).len() == 0,
{
    if is_absolute(p) {
        lemma_body_spans(p, 1);
        let rest = body_spans(p, 1);
        let all = seq![(0int, 1int)] + rest;
        assert forall|k: int| 0 <= k < all.len() implies {
            &&& 0 <= (#[trigger] all[k]).0 < all[k].1 <= p.len()
            &&& k > 0 ==> span_ok(p, all[k].0, all[k].1)
            &&& k > 0 ==> !is_filler(p.subrange(all[k].0, all[k].1))
        } by {
            if k > 0 {
                assert(all[k] == rest[k - 1]);
            }
        }
        assert forall|j: int, k: int| 0 <= j < k < all.len() implies (#[trigger] all[j]).1 <= (
        #[trigger] all[k]).0 by {
            assert(all[k] == rest[k - 1]);
            if j > 0 {
                assert(all[j] == rest[j - 1]);
            }
        }
    } else if has_leading_dot(p) {
        lemma_body_spans(p, 2);
        let rest = body_spans(p, 2);
        let all = seq![(0int, 1int)] + rest;
        assert forall|k: int| 0 <= k < all.len() implies {
            &&& 0 <= (#[trigger] all[k]).0 < all[k].1 <= p.len()
            &&& span_ok(p, all[k].0, all[k].1)
            &&& k > 0 ==> !is_filler(p.subrange(all[k].0, all[k].1))
        } by {
            if k > 0 {
                assert(all[k] == rest[k - 1]);
            }
        }
        assert forall|j: int, k: int| 0 <= j < k < all.len() implies (#[trigger] all[j]).1 <= (
        #[trigger] all[k]).0 by {
            assert(all[k] == rest[k - 1]);
            if j > 0 {
                assert(all[j] == rest[j - 1]);
            }
        }
    } else {
        lemma_body_spans(p, 0);
        if p.len() > 0 {
            lemma_segment_end(p, 0);
            let e = segment_end(p, 0);
            let first = p.subrange(0, e);
            assert(first.len() > 0) by {
                assert(p[0] != SEPARATOR);
                assert(segment_end(p, 0) == segment_end(p, 1));
                lemma_segment_end(p, 1);
            }
            assert(first != seq![DOT]) by {
                if first == seq![DOT] {
                    assert(first.len() == 1);
                    assert(first[0] == p[0]);
                    assert(seq![DOT][0] == DOT);
                }
            }
            assert(body_spans(p, 0)[0] == (0int, e));
        }
    }
}

/// A path is absolute exactly where its first component is the root.
pub proof fn absolute_by_components(p: Seq<u8>)
    ensures
        is_absolute(p) <==> components(p).len() > 0 && components(p)[0] == seq![SEPARATOR],
{
    lemma_spans(p);
    if is_absolute(p) {
        assert(components(p)[0] =~= seq![SEPARATOR]);
    } else if spans(p).len() > 0 {
        let s = spans(p)[0];
        assert(span_ok(p, s.0, s.1));
        assert(components(p)[0][0] == p[s.0]);
        assert(seq![SEPARATOR][0] == SEPARATOR);
    }
}

/// Cutting a path at a separator splits the components at that place.
proof fn lemma_truncate(p: Seq<u8>, i: int, m: int)
    requires
        0 <= i,
        i <= m + 1,
        0 <= m <= p.len(),
        m < p.len() ==> p[m] == SEPARATOR,
    ensures
        body_spans(p, i) == body_spans(p.take(m), i) + body_spans(p, if i > m { i } else { m + 1 }),
    decreases m + 1 - i,
{
    let q = p.take(m);
    if i >= m {
        assert(body_spans(q, i) =~= Seq::<(int, int)>::empty());
        if i == m && m < p.len() {
            assert(segment_end(p, i) == i);
            assert(p.subrange(i, i).len() == 0);
            assert(body_spans(p, i) == body_spans(p, i + 1));
        }
        assert(body_spans(p, i) =~= body_spans(q, i) + body_spans(
            p,
            if i > m {
                i
            } else {
                m + 1
            },
        ));
    } else {
        lemma_segment_end(p, i);
        lemma_segment_end(q, i);
        let e = segment_end(p, i);
        lemma_segment_end_truncate(p, i, m);
        assert(e <= m);
        lemma_truncate(p, e + 1, m);
        assert(p.subrange(i, e) =~= q.subrange(i, e));
        assert(body_spans(p, i) =~= body_spans(q, i) + body_spans(p, m + 1));
    }
}

proof fn lemma_segment_end_truncate(p: Seq<u8>, i: int, m: int)
    requires
        0 <= i <= m <= p.len(),
        m < p.len() ==> p[m] == SEPARATOR,
    ensures
        segment_end(p, i) == segment_end(p.take(m), i),
        segment_end(p, i) <= m,
    decreases m - i,
{
    if i < m && p[i] != SEPARATOR {
        lemma_segment_end_truncate(p, i + 1, m);
    }
}

proof fn lemma_segment_end_suffix(p: Seq<u8>, a: int, i: int)
    requires
        0 <= a <= p.len(),
        0 <= i,
    ensures
        segment_end(p.skip(a), i) + a == segment_end(p, a + i),
    decreases p.len() - a - i,
{
    let q = p.skip(a);
    if i < q.len() && q[i] != SEPARATOR {
        lemma_segment_end_suffix(p, a, i + 1);
    }
}

/// A suffix has the components that start in it, shifted.
proof fn lemma_suffix(p: Seq<u8>, a: int, i: int)
    requires
        0 <= a <= p.len(),
        0 <= i,
    ensures
        body_spans(p.skip(a), i).len() == body_spans(p, a + i).len(),
        slices(p.skip(a), body_spans(p.skip(a), i)) == slices(p, body_spans(p, a + i)),
        forall|k: int|
            0 <= k < body_spans(p, a + i).len() ==> (#[trigger] body_spans(p.skip(a), i)[k]) == (
                body_spans(p, a + i)[k].0 - a,
                body_spans(p, a + i)[k].1 - a,
            ),
    decreases p.len() + 1 - a - i,
{
    let q = p.skip(a);
    if i < q.len() {
        lemma_segment_end(q, i);
        lemma_segment_end(p, a + i);
        lemma_segment_end_suffix(p, a, i);
        let e = segment_end(q, i);
        lemma_suffix(p, a, e + 1);
        assert(q.subrange(i, e) =~= p.subrange(a + i, a + e));
        let x = body_spans(q, i);
        let y = body_spans(p, a + i);
        let xr = body_spans(q, e + 1);
        let yr = body_spans(p, a + e + 1);
        if is_filler(q.subrange(i, e)) {
            assert(x == xr && y == yr);
        } else {
            assert(x == seq![(i, e)] + xr);
            assert(y == seq![(a + i, a + e)] + yr);
            assert forall|k: int| 0 <= k < y.len() implies (#[trigger] x[k]) == (
                y[k].0 - a,
                y[k].1 - a,
            ) by {
                if k > 0 {
                    assert(x[k] == xr[k - 1]);
                    assert(y[k] == yr[k - 1]);
                }
            }
            assert forall|k: int| 0 <= k < y.len() implies slices(q, x)[k] == slices(p, y)[k] by {
                if k > 0 {
                    assert(x[k] == xr[k - 1]);
                    assert(y[k] == yr[k - 1]);
                    assert(slices(q, xr)[k - 1] == slices(p, yr)[k - 1]);
                }
            }
            assert(slices(q, x) =~= slices(p, y));
        }
    } else {
        assert(slices(q, body_spans(q, i)) =~= slices(p, body_spans(p, a + i)));
    }
}

/// The components of what remains when a path is cut behind its `k`th one.
pub(crate) proof fn lemma_take_spans(p: Seq<u8>, k: int)
    requires
        0 <= k < spans(p).len(),
        k == 0 ==> !is_absolute(p),
    ensures
        spans(p.take(spans(p)[k].1)) == spans(p).take(k + 1),
{
    lemma_spans(p);
    let m = spans(p)[k].1;
    let q = p.take(m);
    let from: int = if is_absolute(p) {
        1
    } else if has_leading_dot(p) {
        2
    } else {
        0
    };
    assert(p.len() > 0);
    assert(is_absolute(q) == is_absolute(p));
    if m == 1 {
        assert(q.len() == 1);
        assert(k == 0);
    }
    assert(has_leading_dot(q) == has_leading_dot(p)) by {
        if has_leading_dot(p) {
        } else if has_leading_dot(q) {
            assert(q[0] == DOT);
            if q.len() == 1 {
                assert(m == 1);
                assert(p.len() == 1 || p[1] == SEPARATOR);
            } else {
                assert(q[1] == p[1]);
            }
        }
    }
    lemma_truncate(p, from, m);
    let rest = body_spans(p, m + 1);
    let mine = spans(q);
    assert(spans(p) =~= mine + rest);
    assert(mine.len() == k + 1) by {
        assert(m < p.len() ==> p[m] == SEPARATOR);
        lemma_spans(q);
        if m + 1 <= p.len() {
            lemma_body_spans(p, m + 1);
        }
        if k < mine.len() - 1 {
            let last = mine.len() - 1;
            assert(spans(p)[last] == mine[last]);
            assert(spans(p)[k].1 <= spans(p)[last].0);
            assert(mine[last].1 <= q.len());
        }
        if k >= mine.len() {
            assert(spans(p)[k] == rest[k - mine.len()]);
        }
    }
    assert(mine =~= spans(p).take(k + 1));
}

/// The parent has every component but the last.
pub proof fn lemma_parent_spans(p: Seq<u8>)
    requires
        parent(p) is Some,
    ensures
        spans(parent(p)->0).len() == spans(p).len() - 1,
        components(parent(p)->0) == components(p).drop_last(),
{
    lemma_spans(p);
    let parts = spans(p);
    let n = parts.len() as int;
    let q = parent(p)->0;
    if n == 1 {
        assert(q.len() == 0);
        assert(spans(q) =~= Seq::<(int, int)>::empty());
        assert(components(q) =~= components(p).drop_last());
    } else {
        let k = n - 2;
        if k == 0 && is_absolute(p) {
            assert(parts[0] == (0int, 1int));
            assert(q.len() == 1 && q[0] == SEPARATOR);
            assert(body_spans(q, 1) =~= Seq::<(int, int)>::empty());
            assert(spans(q) =~= parts.take(1));
        } else {
            lemma_take_spans(p, k);
        }
        assert(spans(q) =~= parts.take(k + 1));
        assert forall|j: int| 0 <= j < k + 1 implies components(q)[j] == components(
            p,
        ).drop_last()[j] by {
            assert(spans(q)[j] == parts[j]);
            assert(parts[j].1 <= parts[k].1) by {
                if j < k {
                    assert(parts[j].1 <= parts[k].0);
                }
            }
            assert(q.subrange(parts[j].0, parts[j].1) =~= p.subrange(parts[j].0, parts[j].1));
        }
        assert(components(q) =~= components(p).drop_last());
    }
}

/// A path without what follows its last component has the same components.
proof fn lemma_trim(p: Seq<u8>)
    requires
        spans(p).len() > 0,
    ensures
        spans(p.take(spans(p).last().1)) == spans(p),
        components(p.take(spans(p).last().1)) == components(p),
{
    lemma_spans(p);
    let parts = spans(p);
    let n = parts.len() as int;
    let last = n - 1;
    let m = parts[last].1;
    let q = p.take(m);
    if last == 0 && is_absolute(p) {
        assert(q.len() == 1 && q[0] == SEPARATOR);
        assert(body_spans(q, 1) =~= Seq::<(int, int)>::empty());
    } else {
        lemma_take_spans(p, last);
    }
    assert(spans(q) =~= parts);
    assert forall|j: int| 0 <= j < n implies components(q)[j] == components(p)[j] by {
        assert(parts[j].1 <= m) by {
            if j < last {
                assert(parts[j].1 <= parts[last].0);
            }
        }
        assert(q.subrange(parts[j].0, parts[j].1) =~= p.subrange(parts[j].0, parts[j].1));
    }
    assert(components(q) =~= components(p));
}

/// Where the components behind a leading root or `.` start.
spec fn body_start(q: Seq<u8>) -> int {
    if is_absolute(q) {
        1
    } else if has_leading_dot(q) {
        2
    } else {
        0
    }
}

/// A path cut before a component other than the first starts with a name.
proof fn lemma_skip_shape(q: Seq<u8>, k: int)
    requires
        0 < k < spans(q).len(),
    ensures
        body_start(q) <= spans(q)[k].0 < q.len(),
        spans(q)[k].0 > 0,
        q[spans(q)[k].0 - 1] == SEPARATOR,
        !is_absolute(q.skip(spans(q)[k].0)),
        !has_leading_dot(q.skip(spans(q)[k].0)),
{
    lemma_spans(q);
    let a = spans(q)[k].0;
    let e = spans(q)[k].1;
    let r = q.skip(a);
    assert(span_ok(q, a, e));
    assert(!is_filler(q.subrange(a, e)));
    assert(spans(q)[k - 1].1 <= a);
    assert(spans(q)[k - 1].0 < spans(q)[k - 1].1);
    assert(r[0] == q[a]);
    assert(!has_leading_dot(r)) by {
        if has_leading_dot(r) {
            if e > a + 1 {
                assert(r[1] == q[a + 1]);
            }
            assert(e == a + 1);
            assert(q.subrange(a, e) =~= seq![DOT]);
        }
    }
    if body_start(q) == 2 {
        assert(spans(q)[0] == (0int, 1int));
        assert(q.len() > 1);
        assert(q[1] == SEPARATOR);
    }
}

/// A path cut before its `k`th component has the components from there on.
proof fn lemma_skip_spans(q: Seq<u8>, k: int)
    requires
        0 < k < spans(q).len(),
    ensures
        components(q.skip(spans(q)[k].0)) == components(q).skip(k),
{
    lemma_spans(q);
    lemma_skip_shape(q, k);
    let a = spans(q)[k].0;
    let r = q.skip(a);
    let from = body_start(q);
    lemma_truncate(q, from, a - 1);
    lemma_suffix(q, a, 0);
    let head = body_spans(q.take(a - 1), from);
    let tail = body_spans(q, a);
    assert(body_spans(q, from) =~= head + tail);
    let lead = if from == 0 {
        Seq::<(int, int)>::empty()
    } else {
        seq![(0int, 1int)]
    };
    let front = lead + head;
    assert(spans(q) =~= front + tail);
    lemma_body_spans(q, a);
    lemma_body_spans_before(q, from, a - 1);
    let c = front.len() as int;
    if c > k {
        assert(spans(q)[k] == front[k]);
        if k >= lead.len() {
            assert(front[k] == head[k - lead.len()]);
        }
        assert(false);
    }
    if c < k {
        assert(spans(q)[c] == tail[0]);
        assert(spans(q)[c].1 <= spans(q)[k].0);
        assert(false);
    }
    assert(spans(r) == body_spans(r, 0));
    assert forall|j: int| 0 <= j < tail.len() implies slices(q, tail)[j] == components(q).skip(
        k,
    )[j] by {
        assert(spans(q)[k + j] == tail[j]);
    }
    assert(slices(q, tail) =~= components(q).skip(k));
}

/// What is left below a prefix has the components behind that prefix.
pub proof fn lemma_strip_prefix(p: Seq<u8>, base: Seq<u8>)
    requires
        strip_prefix(p, base) is Some,
    ensures
        components(strip_prefix(p, base)->0) == components(p).skip(
            components(base).len() as int,
        ),
        components(base).len() > 0 ==> !is_absolute(strip_prefix(p, base)->0)
            && !has_leading_dot(strip_prefix(p, base)->0),
{
    let parts = spans(p);
    let n = parts.len() as int;
    let k = spans(base).len() as int;
    let r = strip_prefix(p, base)->0;
    assert(k <= n);
    if k == n {
        assert(r.len() == 0);
        assert(components(r) =~= components(p).skip(k));
    } else {
        lemma_spans(p);
        lemma_trim(p);
        let q = p.take(parts[n - 1].1);
        if k == 0 {
            assert(parts[0].0 == 0);
            assert(r =~= q);
            assert(components(p).skip(0) =~= components(p));
        } else {
            lemma_skip_shape(q, k);
            lemma_skip_spans(q, k);
            assert(r =~= q.skip(parts[k].0));
        }
    }
}

proof fn lemma_body_spans_before(p: Seq<u8>, i: int, m: int)
    requires
        0 <= i <= m + 1,
        0 <= m <= p.len(),
    ensures
        forall|k: int|
            0 <= k < body_spans(p.take(m), i).len() ==> (#[trigger] body_spans(
                p.take(m),
                i,
            )[k]).0 < m,
    decreases m + 1 - i,
{
    let q = p.take(m);
    if i < m {
        lemma_segment_end(q, i);
        let e = segment_end(q, i);
        lemma_body_spans_before(p, e + 1, m);
        let rest = body_spans(q, e + 1);
        if !is_filler(q.subrange(i, e)) {
            let all = seq![(i, e)] + rest;
            assert forall|k: int| 0 <= k < all.len() implies (#[trigger] all[k]).0 < m by {
                if k > 0 {
                    assert(all[k] == rest[k - 1]);
                }
            }
        }
    }
}

/// The components of a relative path, without a leading `.`.
pub open spec fn body(q: Seq<u8>) -> Seq<Seq<u8>> {
    slices(q, body_spans(q, 0))
}

/// A relative path that starts with a name is all body.
pub proof fn lemma_body(q: Seq<u8>)
    requires
        !is_absolute(q),
        !has_leading_dot(q),
    ensures
        body(q) == components(q),
{
}

/// Joining a relative path to a nonempty one appends its components.
pub proof fn lemma_join(p: Seq<u8>, q: Seq<u8>)
    requires
        p.len() > 0,
        !is_absolute(q),
    ensures
        components(join(p, q)) == components(p) + body(q),
{
    let r = join(p, q);
    let m: int = if p.last() == SEPARATOR {
        p.len() - 1
    } else {
        p.len() as int
    };
    assert(r[m] == SEPARATOR);
    assert(r.skip(m + 1) =~= q);
    assert(r.take(m) =~= p.take(m));
    assert(is_absolute(r) == is_absolute(p)) by {
        assert(r[0] == p[0]);
    }
    assert(has_leading_dot(r) == has_leading_dot(p)) by {
        assert(r[0] == p[0]);
        if p.len() > 1 {
            assert(r[1] == p[1]);
        }
    }
    let from: int = if is_absolute(p) {
        1
    } else if has_leading_dot(p) {
        2
    } else {
        0
    };
    lemma_truncate(r, from, m);
    lemma_truncate(p, from, m);
    lemma_suffix(r, m + 1, 0);
    let head = body_spans(p, from);
    assert(body_spans(p, m + 1) =~= Seq::<(int, int)>::empty());
    let tail = body_spans(r, m + 1);
    if from > m {
        assert(from == m + 1);
    }
    assert(body_spans(r, from) =~= head + tail);
    assert(spans(r) =~= spans(p) + tail);
    lemma_spans(p);
    assert(components(r) =~= components(p) + body(q)) by {
        assert forall|k: int| 0 <= k < components(r).len() implies components(r)[k] == (components(
            p,
        ) + body(q))[k] by {
            if k < spans(p).len() {
                assert(spans(r)[k] == spans(p)[k]);
                let s = spans(p)[k];
                assert(r.subrange(s.0, s.1) =~= p.subrange(s.0, s.1));
            } else {
                let j = k - spans(p).len();
                assert(spans(r)[k] == tail[j]);
                assert(slices(r, tail)[j] == body(q)[j]);
            }
        }
    }
}

/// Joining what is left below a prefix to that prefix gives the path back.
pub proof fn join_undoes_strip_prefix(p: Seq<u8>, base: Seq<u8>)
    requires
        strip_prefix(p, base) is Some,
    ensures
        same_path(join(base, strip_prefix(p, base)->0), p),
{
    let r = strip_prefix(p, base)->0;
    lemma_strip_prefix(p, base);
    lemma_spans(base);
    if base.len() == 0 {
        assert(spans(base) =~= Seq::<(int, int)>::empty());
        assert(components(p).skip(0) =~= components(p));
        assert(join(base, r) =~= r);
    } else {
        assert(components(base).len() > 0);
        lemma_join(base, r);
        lemma_body(r);
        assert(components(base) + components(p).skip(components(base).len() as int) =~= components(
            p,
        ));
    }
}

/// Lying below is a partial order on paths, whatever their spelling.
pub proof fn starts_with_is_partial_order(p: Seq<u8>, q: Seq<u8>, r: Seq<u8>)
    ensures
        starts_with(p, p),
        starts_with(p, q) && starts_with(q, r) ==> starts_with(p, r),
        starts_with(p, q) && starts_with(q, p) ==> same_path(p, q),
        starts_with(p, q) ==> components(q).len() <= components(p).len(),
{
    if starts_with(p, q) && starts_with(q, p) {
        assert(components(p) =~= components(q));
    }
    if starts_with(p, q) && starts_with(q, r) {
        assert(components(r) =~= components(p).take(components(r).len() as int));
    }
}

proof fn lemma_component_le()
    ensures
        total_order(|a: Seq<u8>, b: Seq<u8>| component_le(a, b)),
{
    bytes_le_is_total_order();
    let bytes = |a: Seq<u8>, b: Seq<u8>| bytes_le(a, b);
    let le = |a: Seq<u8>, b: Seq<u8>| component_le(a, b);
    assert forall|a: Seq<u8>, b: Seq<u8>| #[trigger] le(a, b) || le(b, a) by {
        assert(bytes(a, b) || bytes(b, a));
    }
    assert forall|a: Seq<u8>, b: Seq<u8>, c: Seq<u8>| #[trigger]
        le(a, b) && #[trigger] le(b, c) implies le(a, c) by {
        if bytes_le(a, b) && bytes_le(b, c) {
            assert(bytes(a, b) && bytes(b, c));
            assert(bytes(a, c));
        }
    }
    assert forall|a: Seq<u8>, b: Seq<u8>| #[trigger] le(a, b) && le(b, a) implies a == b by {
        assert(bytes(a, b) && bytes(b, a));
    }
}

/// Paths are ordered, and exactly the spellings of one path tie.
pub proof fn path_le_is_total_preorder()
    ensures
        total_preorder(|p: Seq<u8>, q: Seq<u8>| path_le(p, q)),
        forall|p: Seq<u8>, q: Seq<u8>|
            (#[trigger] path_le(p, q) && path_le(q, p)) <==> same_path(p, q),
{
    let le = |a: Seq<u8>, b: Seq<u8>| component_le(a, b);
    lemma_component_le();
    lexicographic_is_total_order(le);
    let lex = |a: Seq<Seq<u8>>, b: Seq<Seq<u8>>| lexicographic(a, b, le);
    let paths = |p: Seq<u8>, q: Seq<u8>| path_le(p, q);
    assert forall|p: Seq<u8>, q: Seq<u8>| #[trigger] paths(p, q) || paths(q, p) by {
        assert(lex(components(p), components(q)) || lex(components(q), components(p)));
    }
    assert forall|p: Seq<u8>, q: Seq<u8>, r: Seq<u8>| #[trigger]
        paths(p, q) && #[trigger] paths(q, r) implies paths(p, r) by {
        assert(lex(components(p), components(q)) && lex(components(q), components(r)));
        assert(lex(components(p), components(r)));
    }
    assert forall|p: Seq<u8>, q: Seq<u8>|
        (#[trigger] path_le(p, q) && path_le(q, p)) <==> same_path(p, q) by {
        if path_le(p, q) && path_le(q, p) {
            assert(lex(components(p), components(q)) && lex(components(q), components(p)));
        }
        if same_path(p, q) {
            assert(lex(components(p), components(q)) || lex(components(q), components(p)));
        }
    }
}

/// A name that can stand as a component of its own.
pub open spec fn is_plain_name(name: Seq<u8>) -> bool {
    &&& name.len() > 0
    &&& forall|i: int| 0 <= i < name.len() ==> #[trigger] name[i] != SEPARATOR
    &&& name != seq![DOT]
    &&& name != seq![DOT, DOT]
}

/// A path without separators is one segment.
pub proof fn lemma_segment_without_separator(p: Seq<u8>, i: int)
    requires
        0 <= i <= p.len(),
        forall|k: int| 0 <= k < p.len() ==> #[trigger] p[k] != SEPARATOR,
    ensures
        segment_end(p, i) == p.len(),
    decreases p.len() - i,
{
    if i < p.len() {
        lemma_segment_without_separator(p, i + 1);
    }
}

/// A plain name joined to a path is its file name.
pub proof fn joined_name_is_file_name(p: Seq<u8>, name: Seq<u8>)
    requires
        is_plain_name(name),
    ensures
        file_name(join(p, name)) == Some(name),
{
    lemma_segment_without_separator(name, 0);
    let n = name.len() as int;
    assert(name.subrange(0, n) =~= name);
    assert(body_spans(name, n + 1) =~= Seq::<(int, int)>::empty());
    assert(body_spans(name, 0) =~= seq![(0int, n)]);
    assert(body(name) =~= seq![name]);
    assert(!is_absolute(name));
    assert(!has_leading_dot(name)) by {
        if has_leading_dot(name) {
            if name.len() == 1 {
                assert(name =~= seq![DOT]);
            } else {
                assert(name[1] != SEPARATOR);
            }
        }
    }
    assert(component_kind(name) == 3) by {
        if name == seq![SEPARATOR] {
            assert(name[0] != SEPARATOR);
            assert(seq![SEPARATOR][0] == SEPARATOR);
        }
    }
    if p.len() == 0 {
        assert(join(p, name) =~= name);
        lemma_body(name);
    } else {
        lemma_join(p, name);
    }
    assert(components(join(p, name)).last() == name);
}

/// The extension of a name is what stands behind its last dot.
pub proof fn extension_behind_last_dot(stem: Seq<u8>, ext: Seq<u8>)
    requires
        stem.len() > 0,
        forall|i: int| 0 <= i < ext.len() ==> #[trigger] ext[i] != DOT,
    ensures
        stem_of_name(stem + seq![DOT] + ext) == stem,
        extension_of_name(stem + seq![DOT] + ext) == Some(ext),
{
    let name = stem + seq![DOT] + ext;
    lemma_stem_len(stem, ext, name.len() - 1);
    assert(name.take(stem.len() as int) =~= stem);
    assert(name.skip(stem.len() as int + 1) =~= ext);
}

proof fn lemma_stem_len(stem: Seq<u8>, ext: Seq<u8>, i: int)
    requires
        stem.len() > 0,
        stem.len() <= i <= stem.len() + ext.len(),
        forall|i: int| 0 <= i < ext.len() ==> #[trigger] ext[i] != DOT,
    ensures
        stem_len(stem + seq![DOT] + ext, i) == stem.len(),
    decreases i,
{
    let name = stem + seq![DOT] + ext;
    if i > stem.len() {
        assert(name[i] == ext[i - stem.len() - 1]);
        lemma_stem_len(stem, ext, i - 1);
    } else {
        assert(name[i] == DOT);
    }
}

} // verus!
