//! An owned path of Unix and the operations on it.

use vstd::prelude::*;
use vstd::slice::slice_subrange;
use vstd::utf8::encode_utf8;

use crate::order::{bytes_at_most, bytes_equal, lexicographic_at, views, Ranked};
use crate::path::{
    ancestors, body_spans, component_kind, component_le, components, extension, file_name,
    has_leading_dot, is_absolute, is_filler, join, lemma_parent_spans, lemma_spans, parent, path_le,
    same_path, segment_end, spans, starts_with, stem_len, stem_of_name, strip_prefix,
    with_extension, DOT, SEPARATOR,
};

verus! {

/// Appends a byte string.
pub fn append_bytes(to: &mut Vec<u8>, from: &[u8])
    ensures
        final(to)@ == old(to)@ + from@,
{
    to.extend_from_slice(from);
    assert(to@ =~= old(to)@ + from@);
}

/// Copies a byte string.
pub fn copy_bytes(from: &[u8]) -> (r: Vec<u8>)
    ensures
        r@ == from@,
{
    let mut r: Vec<u8> = Vec::new();
    append_bytes(&mut r, from);
    assert(r@ =~= from@);
    r
}

/// A file path, held as its bytes. Two paths are equal when their components
/// are, however they are spelled.
#[derive(Debug)]
pub struct PathBuf {
    bytes: Vec<u8>,
}

impl View for PathBuf {
    type V = Seq<u8>;

    closed spec fn view(&self) -> Seq<u8> {
        self.bytes@
    }
}

impl Clone for PathBuf {
    fn clone(&self) -> (r: Self)
        ensures
            r@ == self@,
    {
        PathBuf { bytes: copy_bytes(self.bytes.as_slice()) }
    }
}

impl vstd::std_specs::cmp::PartialEqSpecImpl for PathBuf {
    open spec fn obeys_eq_spec() -> bool {
        true
    }

    open spec fn eq_spec(&self, other: &PathBuf) -> bool {
        same_path(self@, other@)
    }
}

impl PartialEq for PathBuf {
    fn eq(&self, other: &PathBuf) -> (r: bool) {
        self.is_same(other)
    }
}

impl Eq for PathBuf {

}

impl Ranked for PathBuf {
    open spec fn rank_le(a: Seq<u8>, b: Seq<u8>) -> bool {
        path_le(a, b)
    }

    fn at_most(&self, other: &Self) -> (r: bool) {
        let mine = self.parts();
        let theirs = other.parts();
        let mut i: usize = 0;
        while i < mine.len() && i < theirs.len() && self.component_is(&mine, i, other, &theirs, i)
            invariant
                parts_of(mine@, self@),
                parts_of(theirs@, other@),
                i <= mine@.len(),
                i <= theirs@.len(),
                forall|k: int| 0 <= k < i ==> components(self@)[k] == components(other@)[k],
            decreases mine@.len() - i,
        {
            i = i + 1;
        }
        proof {
            lexicographic_at(
                components(self@),
                components(other@),
                i as int,
                |a: Seq<u8>, b: Seq<u8>| component_le(a, b),
            );
        }
        if i == mine.len() {
            true
        } else if i == theirs.len() {
            false
        } else {
            proof {
                lemma_spans(self@);
                lemma_spans(other@);
            }
            component_at_most(
                slice_subrange(self.bytes.as_slice(), mine[i].0, mine[i].1),
                slice_subrange(other.bytes.as_slice(), theirs[i].0, theirs[i].1),
            )
        }
    }
}

/// `parts` are the spans of the path `p`.
pub open spec fn parts_of(parts: Seq<(usize, usize)>, p: Seq<u8>) -> bool {
    &&& parts.len() == spans(p).len()
    &&& forall|k: int|
        0 <= k < parts.len() ==> (#[trigger] parts[k]).0 == spans(p)[k].0 && parts[k].1
            == spans(p)[k].1
}

/// The kind of a component.
pub(crate) fn kind_of_component(c: &[u8]) -> (r: u8)
    ensures
        r == component_kind(c@),
{
    if c.len() == 1 && c[0] == SEPARATOR {
        assert(c@ =~= seq![SEPARATOR]);
        0
    } else if c.len() == 1 && c[0] == DOT {
        assert(c@ =~= seq![DOT]);
        1
    } else if c.len() == 2 && c[0] == DOT && c[1] == DOT {
        assert(c@ =~= seq![DOT, DOT]);
        2
    } else {
        proof {
            assert(seq![SEPARATOR].len() == 1 && seq![SEPARATOR][0] == SEPARATOR);
            assert(seq![DOT].len() == 1 && seq![DOT][0] == DOT);
            assert(seq![DOT, DOT].len() == 2 && seq![DOT, DOT][0] == DOT && seq![DOT, DOT][1]
                == DOT);
        }
        3
    }
}

fn component_at_most(a: &[u8], b: &[u8]) -> (r: bool)
    ensures
        r == component_le(a@, b@),
{
    let ka: u8 = kind_of_component(a);
    let kb: u8 = kind_of_component(b);
    ka < kb || (ka == kb && bytes_at_most(a, b))
}

/// The first separator at `i` or behind it, or the end.
fn find_segment_end(bytes: &[u8], i: usize) -> (r: usize)
    requires
        i <= bytes@.len(),
    ensures
        r == segment_end(bytes@, i as int),
        i <= r <= bytes@.len(),
{
    let mut e: usize = i;
    while e < bytes.len() && bytes[e] != SEPARATOR
        invariant
            i <= e <= bytes@.len(),
            segment_end(bytes@, i as int) == segment_end(bytes@, e as int),
        decreases bytes@.len() - e,
    {
        e = e + 1;
    }
    e
}

fn filler(segment: &[u8]) -> (r: bool)
    ensures
        r == is_filler(segment@),
{
    if segment.len() == 1 && segment[0] == DOT {
        assert(segment@ =~= seq![DOT]);
        true
    } else {
        proof {
            assert(seq![DOT].len() == 1 && seq![DOT][0] == DOT);
        }
        segment.len() == 0
    }
}

impl PathBuf {
    /// The path with these bytes.
    pub fn from_bytes(bytes: Vec<u8>) -> (r: Self)
        ensures
            r@ == bytes@,
    {
        PathBuf { bytes }
    }

    /// The path with this text.
    pub fn new(text: &str) -> (r: Self)
        ensures
            r@ == encode_utf8(text@),
    {
        PathBuf { bytes: copy_bytes(text.as_bytes()) }
    }

    /// The path's bytes as they were given.
    pub fn as_bytes(&self) -> (r: &[u8])
        ensures
            r@ == self@,
    {
        self.bytes.as_slice()
    }

    /// Whether the path starts at the root.
    pub fn is_absolute(&self) -> (r: bool)
        ensures
            r == is_absolute(self@),
    {
        self.bytes.len() > 0 && self.bytes[0] == SEPARATOR
    }

    /// Where each component starts and ends.
    fn parts(&self) -> (r: Vec<(usize, usize)>)
        ensures
            parts_of(r@, self@),
    {
        let bytes = self.bytes.as_slice();
        let n: usize = bytes.len();
        let mut r: Vec<(usize, usize)> = Vec::new();
        let mut i: usize = 0;
        if n > 0 && bytes[0] == SEPARATOR {
            r.push((0, 1));
            i = 1;
        } else if n > 0 && bytes[0] == DOT && (n == 1 || bytes[1] == SEPARATOR) {
            r.push((0, 1));
            i = if n == 1 {
                1
            } else {
                2
            };
        }
        let ghost from: int = i as int;
        let ghost lead = r@;
        proof {
            if has_leading_dot(self@) && n == 1 {
                assert(body_spans(self@, 1) =~= body_spans(self@, 2));
            }
        }
        let mut at_end: bool = i == n;
        while !at_end
            invariant
                bytes@ == self@,
                n == bytes@.len(),
                at_end <==> i == n,
                0 <= from <= i <= n,
                lead.len() <= r@.len(),
                forall|k: int| 0 <= k < lead.len() ==> r@[k] == lead[k],
                forall|k: int|
                    lead.len() <= k < r@.len() ==> body_spans(self@, from)[k - lead.len()] == (
                        (#[trigger] r@[k]).0 as int,
                        r@[k].1 as int,
                    ),
                body_spans(self@, from).len() == r@.len() - lead.len() + body_spans(
                    self@,
                    i as int,
                ).len(),
                forall|k: int|
                    0 <= k < body_spans(self@, i as int).len() ==> #[trigger] body_spans(
                        self@,
                        i as int,
                    )[k] == body_spans(self@, from)[r@.len() - lead.len() + k],
            decreases n - i,
        {
            let e: usize = find_segment_end(bytes, i);
            let ghost here = body_spans(self@, i as int);
            let ghost next = body_spans(self@, e + 1);
            let ghost count = r@.len();
            if !filler(slice_subrange(bytes, i, e)) {
                r.push((i, e));
                proof {
                    assert(here == seq![(i as int, e as int)] + next);
                    assert(here[0] == (i as int, e as int));
                    assert forall|k: int| 0 <= k < next.len() implies #[trigger] next[k]
                        == body_spans(self@, from)[r@.len() - lead.len() + k] by {
                        assert(next[k] == here[k + 1]);
                    }
                }
            } else {
                assert(here == next);
            }
            if e == n {
                i = n;
                at_end = true;
                assert(body_spans(self@, e + 1) =~= body_spans(self@, n as int));
            } else {
                i = e + 1;
                at_end = i == n;
            }
        }
        proof {
            assert(body_spans(self@, n as int).len() == 0);
            let all = spans(self@);
            if lead.len() > 0 {
                let tail = body_spans(
                    self@,
                    if is_absolute(self@) {
                        1
                    } else {
                        2
                    },
                );
                assert(all == seq![(0int, 1int)] + tail);
                assert(body_spans(self@, from) == tail);
                assert forall|k: int| 0 <= k < r@.len() implies (#[trigger] r@[k]).0 == all[k].0
                    && r@[k].1 == all[k].1 by {
                    if k > 0 {
                        assert(all[k] == tail[k - 1]);
                    } else {
                        assert(r@[0] == lead[0]);
                    }
                }
            }
        }
        r
    }

    fn component_is(
        &self,
        mine: &Vec<(usize, usize)>,
        i: usize,
        other: &PathBuf,
        theirs: &Vec<(usize, usize)>,
        j: usize,
    ) -> (r: bool)
        requires
            parts_of(mine@, self@),
            parts_of(theirs@, other@),
            i < mine@.len(),
            j < theirs@.len(),
        ensures
            r == (components(self@)[i as int] == components(other@)[j as int]),
    {
        proof {
            lemma_spans(self@);
            lemma_spans(other@);
        }
        bytes_equal(
            slice_subrange(self.bytes.as_slice(), mine[i].0, mine[i].1),
            slice_subrange(other.bytes.as_slice(), theirs[j].0, theirs[j].1),
        )
    }

    /// The components of the path.
    pub fn components(&self) -> (r: Vec<Vec<u8>>)
        ensures
            r@.len() == components(self@).len(),
            forall|k: int| 0 <= k < r@.len() ==> (#[trigger] r@[k])@ == components(self@)[k],
    {
        let parts = self.parts();
        let mut r: Vec<Vec<u8>> = Vec::new();
        let mut i: usize = 0;
        while i < parts.len()
            invariant
                parts_of(parts@, self@),
                i <= parts@.len(),
                r@.len() == i,
                forall|k: int| 0 <= k < i ==> (#[trigger] r@[k])@ == components(self@)[k],
            decreases parts@.len() - i,
        {
            proof {
                lemma_spans(self@);
            }
            r.push(copy_bytes(slice_subrange(self.bytes.as_slice(), parts[i].0, parts[i].1)));
            i = i + 1;
        }
        r
    }

    /// How many components the path has.
    pub fn component_count(&self) -> (r: usize)
        ensures
            r == components(self@).len(),
    {
        self.parts().len()
    }

    /// Whether the path is `base` or lies below it.
    pub fn starts_with(&self, base: &PathBuf) -> (r: bool)
        ensures
            r == starts_with(self@, base@),
    {
        let mine = self.parts();
        let theirs = base.parts();
        if theirs.len() > mine.len() {
            return false;
        }
        let mut i: usize = 0;
        while i < theirs.len()
            invariant
                parts_of(mine@, self@),
                parts_of(theirs@, base@),
                theirs@.len() <= mine@.len(),
                i <= theirs@.len(),
                forall|k: int| 0 <= k < i ==> components(self@)[k] == components(base@)[k],
            decreases theirs@.len() - i,
        {
            if !self.component_is(&mine, i, base, &theirs, i) {
                proof {
                    if starts_with(self@, base@) {
                        assert(components(base@)[i as int] == components(self@).subrange(
                            0,
                            components(base@).len() as int,
                        )[i as int]);
                    }
                }
                return false;
            }
            i = i + 1;
        }
        assert(components(base@) =~= components(self@).subrange(
            0,
            components(base@).len() as int,
        ));
        true
    }

    /// Whether two paths have the same components.
    pub fn is_same(&self, other: &PathBuf) -> (r: bool)
        ensures
            r == same_path(self@, other@),
    {
        let r: bool = self.component_count() == other.component_count() && self.starts_with(other);
        proof {
            if r {
                assert(components(self@) =~= components(other@));
            }
            if same_path(self@, other@) {
                assert(components(other@) =~= components(self@).subrange(
                    0,
                    components(other@).len() as int,
                ));
            }
        }
        r
    }

    /// Appends a path given as bytes; an absolute one replaces this path.
    pub fn join_bytes(&self, tail: &[u8]) -> (r: PathBuf)
        ensures
            r@ == join(self@, tail@),
    {
        if tail.len() > 0 && tail[0] == SEPARATOR {
            return PathBuf { bytes: copy_bytes(tail) };
        }
        let mut bytes = copy_bytes(self.bytes.as_slice());
        let n: usize = bytes.len();
        if n > 0 && bytes[n - 1] != SEPARATOR {
            bytes.push(SEPARATOR);
            assert(bytes@ =~= self@ + seq![SEPARATOR]);
        }
        append_bytes(&mut bytes, tail);
        assert(bytes@ =~= join(self@, tail@));
        PathBuf { bytes }
    }

    /// Appends a path; an absolute one replaces this path.
    pub fn join(&self, tail: &PathBuf) -> (r: PathBuf)
        ensures
            r@ == join(self@, tail@),
    {
        self.join_bytes(tail.bytes.as_slice())
    }

    /// Appends a path given as text.
    pub fn join_text(&self, tail: &str) -> (r: PathBuf)
        ensures
            r@ == join(self@, encode_utf8(tail@)),
    {
        self.join_bytes(tail.as_bytes())
    }

    /// The path without its last component.
    pub fn parent(&self) -> (r: Option<PathBuf>)
        ensures
            r is Some <==> parent(self@) is Some,
            r matches Some(p) ==> p@ == parent(self@)->0,
    {
        let parts = self.parts();
        let n: usize = parts.len();
        if n == 0 || (n == 1 && self.is_absolute()) {
            None
        } else if n == 1 {
            let empty: Vec<u8> = Vec::new();
            Some(PathBuf { bytes: empty })
        } else {
            proof {
                lemma_spans(self@);
            }
            let head = slice_subrange(self.bytes.as_slice(), 0, parts[n - 2].1);
            assert(head@ =~= parent(self@)->0);
            Some(PathBuf { bytes: copy_bytes(head) })
        }
    }

    /// The last component, where it is a name.
    pub fn file_name(&self) -> (r: Option<Vec<u8>>)
        ensures
            r is Some <==> file_name(self@) is Some,
            r matches Some(name) ==> name@ == file_name(self@)->0,
    {
        let parts = self.parts();
        let n: usize = parts.len();
        if n == 0 {
            return None;
        }
        proof {
            lemma_spans(self@);
        }
        let last = slice_subrange(self.bytes.as_slice(), parts[n - 1].0, parts[n - 1].1);
        assert(last@ == components(self@).last());
        if kind_of_component(last) == 3 {
            Some(copy_bytes(last))
        } else {
            None
        }
    }

    /// What is left below `base`, where the path is `base` or lies below it.
    pub fn strip_prefix(&self, base: &PathBuf) -> (r: Option<PathBuf>)
        ensures
            r is Some <==> strip_prefix(self@, base@) is Some,
            r matches Some(p) ==> p@ == strip_prefix(self@, base@)->0,
    {
        if !self.starts_with(base) {
            return None;
        }
        let parts = self.parts();
        let k: usize = base.component_count();
        let n: usize = parts.len();
        if k == n {
            let empty: Vec<u8> = Vec::new();
            return Some(PathBuf { bytes: empty });
        }
        proof {
            lemma_spans(self@);
            if k < n - 1 {
                assert(spans(self@)[k as int].1 <= spans(self@)[n - 1].0);
            }
        }
        let rest = slice_subrange(self.bytes.as_slice(), parts[k].0, parts[n - 1].1);
        Some(PathBuf { bytes: copy_bytes(rest) })
    }

    /// The path, its parent, the parent's parent, and so on.
    pub fn ancestors(&self) -> (r: Vec<PathBuf>)
        ensures
            views(r@) == ancestors(self@),
    {
        let mut r: Vec<PathBuf> = Vec::new();
        let mut current = self.clone();
        let mut more: bool = true;
        assert(views(r@) + ancestors(self@) =~= ancestors(self@));
        while more
            invariant
                more ==> ancestors(self@) == views(r@) + ancestors(current@),
                !more ==> ancestors(self@) == views(r@),
            decreases
                    if more {
                        spans(current@).len() + 1
                    } else {
                        0
                    },
        {
            let ghost before = views(r@);
            let ghost here = current@;
            let up = current.parent();
            r.push(current.clone());
            assert(views(r@) =~= before.push(here));
            match up {
                None => {
                    more = false;
                    assert(before + ancestors(here) =~= views(r@));
                },
                Some(q) => {
                    proof {
                        lemma_parent_spans(here);
                        assert(before + ancestors(here) =~= views(r@) + ancestors(q@));
                    }
                    current = q;
                },
            }
        }
        r
    }

    /// The extension of the file name.
    pub fn extension(&self) -> (r: Option<Vec<u8>>)
        ensures
            r is Some <==> extension(self@) is Some,
            r matches Some(e) ==> e@ == extension(self@)->0,
    {
        match self.file_name() {
            None => None,
            Some(name) => {
                let k: usize = stem_end(name.as_slice());
                if k < name.len() {
                    let tail = slice_subrange(name.as_slice(), k + 1, name.len());
                    assert(tail@ =~= name@.skip(k + 1));
                    Some(copy_bytes(tail))
                } else {
                    None
                }
            },
        }
    }

    /// Whether the file name has this extension.
    pub fn has_extension(&self, ext: &str) -> (r: bool)
        ensures
            r == (extension(self@) == Some(encode_utf8(ext@))),
    {
        match self.extension() {
            None => false,
            Some(e) => bytes_equal(e.as_slice(), ext.as_bytes()),
        }
    }

    /// The file name up to its extension.
    pub fn file_stem(&self) -> (r: Option<Vec<u8>>)
        ensures
            r is Some <==> file_name(self@) is Some,
            r matches Some(stem) ==> stem@ == stem_of_name(file_name(self@)->0),
    {
        match self.file_name() {
            None => None,
            Some(name) => {
                let k: usize = stem_end(name.as_slice());
                let head = slice_subrange(name.as_slice(), 0, k);
                assert(head@ =~= name@.take(k as int));
                Some(copy_bytes(head))
            },
        }
    }

    /// The path with the extension of its file name replaced.
    pub fn with_extension(&self, ext: &str) -> (r: PathBuf)
        ensures
            r@ == with_extension(self@, encode_utf8(ext@)),
    {
        match self.file_name() {
            None => self.clone(),
            Some(name) => {
                let k: usize = stem_end(name.as_slice());
                let parts = self.parts();
                proof {
                    lemma_spans(self@);
                    assert(name@ == components(self@).last());
                    assert(stem_of_name(name@).len() == k);
                }
                let kept = slice_subrange(
                    self.bytes.as_slice(),
                    0,
                    parts[parts.len() - 1].0 + k,
                );
                assert(kept@ =~= self@.take(spans(self@).last().0 + k));
                let mut bytes = copy_bytes(kept);
                let tail = ext.as_bytes();
                if tail.len() > 0 {
                    bytes.push(DOT);
                    assert(bytes@ =~= kept@ + seq![DOT]);
                    append_bytes(&mut bytes, tail);
                }
                PathBuf { bytes }
            },
        }
    }
}

/// Where the extension's dot stands, or the end of the name.
fn stem_end(name: &[u8]) -> (r: usize)
    ensures
        r == stem_len(name@, name@.len() - 1),
        r <= name@.len(),
{
    let mut i: usize = name.len();
    while i > 1 && name[i - 1] != DOT
        invariant
            i <= name@.len(),
            stem_len(name@, name@.len() - 1) == stem_len(name@, i - 1),
        decreases i,
    {
        i = i - 1;
    }
    if i > 1 {
        i - 1
    } else {
        name.len()
    }
}

} // verus!
