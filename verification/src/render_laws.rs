//! How paths are written into dep-info files, told by their components.

use vstd::prelude::*;
use vstd::utf8::{decode_utf8, encode_utf8, valid_utf8};

use crate::path::{
    body, body_spans, component_kind, components, is_absolute, is_plain_name, join, lemma_join,
    lemma_segment_without_separator, lemma_strip_prefix, strip_prefix,
};
use crate::render::{
    escape_spaces_of, normalized, normalized_has_no_detours, reduced, rendered, shown_path,
};

verus! {

/// A text is escaped piece by piece: a space becomes a backslash and a space, and
/// any other character stays.
pub proof fn spaces_are_escaped_one_by_one(a: Seq<char>, b: Seq<char>, c: char)
    ensures
        escape_spaces_of(Seq::empty()) == Seq::<char>::empty(),
        escape_spaces_of(seq![c]) == if c == ' ' {
            seq!['\\', ' ']
        } else {
            seq![c]
        },
        escape_spaces_of(a + b) == escape_spaces_of(a) + escape_spaces_of(b),
    decreases a.len(),
{
    assert(seq![c].drop_first() =~= Seq::empty());
    assert(escape_spaces_of(Seq::<char>::empty()) =~= Seq::empty());
    assert(escape_spaces_of(seq![c]) =~= if c == ' ' {
        seq!['\\', ' ']
    } else {
        seq![c]
    });
    if a.len() == 0 {
        assert(a + b =~= b);
        assert(escape_spaces_of(a + b) =~= escape_spaces_of(a) + escape_spaces_of(b));
    } else {
        spaces_are_escaped_one_by_one(a.drop_first(), b, c);
        assert((a + b).drop_first() =~= a.drop_first() + b);
        assert(escape_spaces_of(a + b) =~= escape_spaces_of(a) + escape_spaces_of(b));
    }
}

/// A path is written relative to the base directory where it lies at it or below
/// it, once both are without detours, and else as it is. It can be written where
/// what is written is text.
pub proof fn path_is_written_below_the_base(path: Seq<u8>, basedir: Option<Seq<char>>)
    ensures
        ({
            let shown = shown_path(path, basedir);
            let plain = components(normalized(path));
            &&& basedir is None ==> shown == path
            &&& basedir matches Some(base) ==> {
                let root = components(normalized(encode_utf8(base)));
                if root.is_prefix_of(plain) {
                    components(shown) == plain.skip(root.len() as int)
                } else {
                    shown == path
                }
            }
            &&& rendered(path, basedir) is Some <==> valid_utf8(shown)
            &&& rendered(path, basedir) matches Some(text) ==> text == escape_spaces_of(
                decode_utf8(shown),
            )
        }),
{
    if basedir is Some {
        let p = normalized(path);
        let base = normalized(encode_utf8(basedir->0));
        if strip_prefix(p, base) is Some {
            lemma_strip_prefix(p, base);
        }
    }
}

proof fn lemma_plain_body(name: Seq<u8>)
    requires
        name.len() > 0,
        forall|i: int| 0 <= i < name.len() ==> #[trigger] name[i] != 47,
        name != seq![46u8],
    ensures
        body(name) == seq![name],
        !is_absolute(name),
{
    lemma_segment_without_separator(name, 0);
    let n = name.len() as int;
    assert(name.subrange(0, n) =~= name);
    assert(body_spans(name, n + 1) =~= Seq::<(int, int)>::empty());
    assert(body_spans(name, 0) =~= seq![(0int, n)]);
    assert(body(name) =~= seq![name]);
}

proof fn lemma_dot_body()
    ensures
        body(seq![46u8]) == Seq::<Seq<u8>>::empty(),
        !is_absolute(seq![46u8]),
{
    let dot = seq![46u8];
    lemma_segment_without_separator(dot, 0);
    assert(dot.subrange(0, 1) =~= dot);
    assert(body_spans(dot, 2) =~= Seq::<(int, int)>::empty());
    assert(body_spans(dot, 0) =~= Seq::<(int, int)>::empty());
    assert(body(dot) =~= Seq::<Seq<u8>>::empty());
}

/// What becomes of a path without detours when one component is appended to it. A
/// name is appended. A `.` changes nothing. A `..` takes the last name away; at
/// the root it changes nothing; and where there is no name to take away, it is
/// appended.
pub proof fn detours_are_taken_out(p: Seq<u8>, name: Seq<u8>)
    requires
        p.len() > 0,
        is_plain_name(name),
    ensures
        ({
            let before = components(normalized(p));
            let up = components(normalized(join(p, seq![46u8, 46u8])));
            &&& components(normalized(join(p, name))) == before.push(name)
            &&& components(normalized(join(p, seq![46u8]))) == before
            &&& if before.len() == 0 || before.last() == seq![46u8, 46u8] {
                up == before.push(seq![46u8, 46u8])
            } else if before.last() == seq![47u8] {
                up == before
            } else {
                up == before.drop_last()
            }
        }),
{
    let dots = seq![46u8, 46u8];
    let dot = seq![46u8];
    normalized_has_no_detours(p);
    normalized_has_no_detours(join(p, name));
    normalized_has_no_detours(join(p, dot));
    normalized_has_no_detours(join(p, dots));
    assert(dots.len() == 2 && dots[0] == 46 && dots[1] == 46);
    assert(dot.len() == 1);
    assert(dots != dot);
    lemma_plain_body(name);
    lemma_plain_body(dots);
    lemma_dot_body();
    lemma_join(p, name);
    lemma_join(p, dot);
    lemma_join(p, dots);
    let parts = components(p);
    assert(components(join(p, dot)) =~= parts);
    assert(components(join(p, name)) =~= parts.push(name));
    assert(components(join(p, dots)) =~= parts.push(dots));
    assert(parts.push(name).drop_last() =~= parts);
    assert(parts.push(dots).drop_last() =~= parts);
    let before = reduced(parts);
    assert(component_kind(name) == 3) by {
        if name == seq![47u8] {
            assert(name[0] == 47);
        }
    }
    assert(component_kind(dots) == 2) by {
        assert(seq![47u8].len() == 1);
    }
    if before.len() > 0 {
        assert(component_kind(before[before.len() - 1]) != 1);
        if before.last() == seq![47u8] {
            assert(seq![47u8][0] == 47 && dots[0] == 46);
        }
    }
}

} // verus!
