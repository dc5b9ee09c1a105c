//! Paths as they are written to dep-info files.

use vstd::prelude::*;
use vstd::utf8::{
    char_u32_cast, decode_utf8, encode_scalar, encode_utf8, encode_utf8_decode_utf8,
    encode_utf8_valid_utf8, valid_utf8,
};

use crate::path::{
    absolute_by_components, body, body_spans, component_kind, components, has_leading_dot,
    is_absolute, join, lemma_body, lemma_join, lemma_parent_spans, lemma_segment_without_separator,
    lemma_spans, parent, same_path, span_ok, spans, strip_prefix, DOT, SEPARATOR,
};
use crate::path_buf::{kind_of_component, PathBuf};
use crate::text::{optional_text, utf8_text};

verus! {

/// The byte of a space.
pub const SPACE: u8 = 32;

/// The byte of a backslash.
pub const BACKSLASH: u8 = 92;

/// The text with a backslash put before every space.
pub open spec fn escape_spaces_of(text: Seq<char>) -> Seq<char>
    decreases text.len(),
{
    if text.len() == 0 {
        Seq::empty()
    } else if text[0] == ' ' {
        seq!['\\', ' '] + escape_spaces_of(text.drop_first())
    } else {
        seq![text[0]] + escape_spaces_of(text.drop_first())
    }
}

/// The bytes with a backslash put before every space.
pub open spec fn escape_bytes(bytes: Seq<u8>) -> Seq<u8>
    decreases bytes.len(),
{
    if bytes.len() == 0 {
        Seq::empty()
    } else if bytes.last() == SPACE {
        escape_bytes(bytes.drop_last()) + seq![BACKSLASH, SPACE]
    } else {
        escape_bytes(bytes.drop_last()).push(bytes.last())
    }
}

proof fn lemma_escape_concat(a: Seq<u8>, b: Seq<u8>)
    ensures
        escape_bytes(a + b) == escape_bytes(a) + escape_bytes(b),
    decreases b.len(),
{
    if b.len() == 0 {
        assert(a + b =~= a);
        assert(escape_bytes(a) + escape_bytes(b) =~= escape_bytes(a));
    } else {
        assert((a + b).drop_last() =~= a + b.drop_last());
        assert((a + b).last() == b.last());
        lemma_escape_concat(a, b.drop_last());
        assert(escape_bytes(a + b) =~= escape_bytes(a) + escape_bytes(b));
    }
}

proof fn lemma_escape_without_space(s: Seq<u8>)
    requires
        forall|i: int| 0 <= i < s.len() ==> #[trigger] s[i] != SPACE,
    ensures
        escape_bytes(s) == s,
    decreases s.len(),
{
    if s.len() > 0 {
        assert(s[s.len() - 1] != SPACE);
        lemma_escape_without_space(s.drop_last());
        assert(escape_bytes(s) =~= s);
    } else {
        assert(escape_bytes(s) =~= s);
    }
}

proof fn lemma_scalar_without_space(c: char)
    requires
        c != ' ',
    ensures
        forall|i: int|
            0 <= i < encode_scalar(c as u32).len() ==> #[trigger] encode_scalar(c as u32)[i]
                != SPACE,
{
    let v = c as u32;
    char_u32_cast(c, v);
    assert(v != 32);
    assert(v <= 0x7F && v != 32 ==> (v & 0x7F) as u8 != 32) by (bit_vector);
    assert(0xC0 | ((v >> 6) & 0x1F) as u8 != 32u8) by (bit_vector);
    assert(0xE0 | ((v >> 12) & 0x0F) as u8 != 32u8) by (bit_vector);
    assert(0xF0 | ((v >> 18) & 0x7) as u8 != 32u8) by (bit_vector);
    assert(0x80 | (v & 0x3F) as u8 != 32u8) by (bit_vector);
    assert(0x80 | ((v >> 6) & 0x3F) as u8 != 32u8) by (bit_vector);
    assert(0x80 | ((v >> 12) & 0x3F) as u8 != 32u8) by (bit_vector);
}

proof fn lemma_escape_encoded(text: Seq<char>)
    ensures
        encode_utf8(escape_spaces_of(text)) == escape_bytes(encode_utf8(text)),
    decreases text.len(),
{
    if text.len() > 0 {
        let rest = text.drop_first();
        let first = encode_scalar(text[0] as u32);
        let tail = escape_spaces_of(rest);
        lemma_escape_encoded(rest);
        lemma_escape_concat(first, encode_utf8(rest));
        if text[0] == ' ' {
            assert((32u32 & 0x7F) as u8 == 32u8) by (bit_vector);
            assert((92u32 & 0x7F) as u8 == 92u8) by (bit_vector);
            let all = seq!['\\', ' '] + tail;
            assert(all.drop_first() =~= seq![' '] + tail);
            assert(all.drop_first().drop_first() =~= tail);
            assert(encode_utf8(all.drop_first()) == encode_scalar(32) + encode_utf8(tail));
            assert(encode_utf8(all) == encode_scalar(92) + encode_utf8(all.drop_first()));
            assert(first =~= seq![SPACE]);
            assert(first.drop_last() =~= Seq::<u8>::empty());
            assert(escape_bytes(first.drop_last()) =~= Seq::<u8>::empty());
            assert(escape_bytes(first) =~= seq![BACKSLASH, SPACE]);
            assert(encode_utf8(all) =~= escape_bytes(first) + encode_utf8(tail));
        } else {
            lemma_scalar_without_space(text[0]);
            lemma_escape_without_space(first);
            let all = seq![text[0]] + tail;
            assert(all.drop_first() =~= tail);
        }
    }
}

/// Puts a backslash before every space.
pub fn escape_spaces(text: &str) -> (r: String)
    ensures
        r@ == escape_spaces_of(text@),
{
    let bytes = text.as_bytes();
    let mut escaped: Vec<u8> = Vec::new();
    let mut i: usize = 0;
    assert(bytes@.take(0) =~= Seq::<u8>::empty());
    while i < bytes.len()
        invariant
            i <= bytes@.len(),
            escaped@ == escape_bytes(bytes@.take(i as int)),
        decreases bytes@.len() - i,
    {
        assert(bytes@.take(i + 1).drop_last() =~= bytes@.take(i as int));
        let ghost before = escaped@;
        if bytes[i] == SPACE {
            escaped.push(BACKSLASH);
            escaped.push(SPACE);
            assert(escaped@ =~= before + seq![BACKSLASH, SPACE]);
        } else {
            escaped.push(bytes[i]);
        }
        i = i + 1;
    }
    proof {
        assert(bytes@.take(i as int) =~= bytes@);
        lemma_escape_encoded(text@);
        encode_utf8_valid_utf8(escape_spaces_of(text@));
        encode_utf8_decode_utf8(escape_spaces_of(text@));
    }
    match utf8_text(escaped.as_slice()) {
        Some(r) => r,
        None => String::new(),
    }
}

/// The text with one backslash taken out before every space.
pub open spec fn unescape_spaces_of(text: Seq<char>) -> Seq<char>
    decreases text.len(),
{
    if text.len() == 0 {
        Seq::empty()
    } else if text.len() > 1 && text[0] == '\\' && text[1] == ' ' {
        seq![' '] + unescape_spaces_of(text.skip(2))
    } else {
        seq![text[0]] + unescape_spaces_of(text.drop_first())
    }
}

/// An escaped text tells which text it was made from.
pub proof fn escaped_text_can_be_read_back(text: Seq<char>)
    ensures
        unescape_spaces_of(escape_spaces_of(text)) == text,
    decreases text.len(),
{
    if text.len() == 0 {
        assert(unescape_spaces_of(escape_spaces_of(text)) =~= text);
    } else {
        let rest = text.drop_first();
        let e = escape_spaces_of(text);
        let tail = escape_spaces_of(rest);
        escaped_text_can_be_read_back(rest);
        if text[0] == ' ' {
            assert(e.skip(2) =~= tail);
            assert(e[0] == '\\' && e[1] == ' ');
        } else {
            assert(e.drop_first() =~= tail);
            assert(e[0] == text[0]);
            if e.len() > 1 {
                assert(e[1] == tail[0]);
                assert(rest.len() > 0);
                assert(tail[0] != ' ');
            }
        }
        assert(unescape_spaces_of(e) =~= text);
    }
}

/// A path with one more component of another path put behind it: `.` is left
/// out, and `..` takes the last component away where that is a name.
pub open spec fn normalize_step(p: Seq<u8>, component: Seq<u8>) -> Seq<u8> {
    if component_kind(component) == 1 {
        p
    } else if component_kind(component) == 2 {
        let parts = components(p);
        if parts.len() > 0 && component_kind(parts.last()) == 2 {
            join(p, component)
        } else {
            match parent(p) {
                Some(up) => up,
                None => if is_absolute(p) {
                    p
                } else {
                    join(p, component)
                },
            }
        }
    } else {
        join(p, component)
    }
}

/// The path that these components lead to.
pub open spec fn normalize_parts(parts: Seq<Seq<u8>>) -> Seq<u8>
    decreases parts.len(),
{
    if parts.len() == 0 {
        Seq::empty()
    } else {
        normalize_step(normalize_parts(parts.drop_last()), parts.last())
    }
}

/// The path without `.` and without detours through `..`, going by its
/// spelling alone.
pub open spec fn normalized(p: Seq<u8>) -> Seq<u8> {
    normalize_parts(components(p))
}

/// Takes `.` and detours through `..` out of a path, going by its spelling
/// alone.
pub fn normalize_path(path: &PathBuf) -> (r: PathBuf)
    ensures
        r@ == normalized(path@),
{
    let parts = path.components();
    let ghost all = components(path@);
    let empty: Vec<u8> = Vec::new();
    let mut r = PathBuf::from_bytes(empty);
    let mut i: usize = 0;
    assert(r@ =~= normalize_parts(all.take(0)));
    while i < parts.len()
        invariant
            i <= parts@.len(),
            all == components(path@),
            parts@.len() == all.len(),
            forall|k: int| 0 <= k < parts@.len() ==> (#[trigger] parts@[k])@ == all[k],
            r@ == normalize_parts(all.take(i as int)),
        decreases parts@.len() - i,
    {
        assert(all.take(i + 1).drop_last() =~= all.take(i as int));
        let kind: u8 = kind_of_component(parts[i].as_slice());
        if kind == 2 {
            let mine = r.components();
            let n: usize = mine.len();
            if n > 0 && kind_of_component(mine[n - 1].as_slice()) == 2 {
                r = r.join_bytes(parts[i].as_slice());
            } else {
                match r.parent() {
                    Some(up) => {
                        r = up;
                    },
                    None => {
                        if !r.is_absolute() {
                            r = r.join_bytes(parts[i].as_slice());
                        }
                    },
                }
            }
        } else if kind != 1 {
            r = r.join_bytes(parts[i].as_slice());
        }
        i = i + 1;
    }
    assert(all.take(i as int) =~= all);
    r
}

/// The components that are left when `.` and detours through `..` are taken
/// out.
pub open spec fn reduced(parts: Seq<Seq<u8>>) -> Seq<Seq<u8>>
    decreases parts.len(),
{
    if parts.len() == 0 {
        Seq::empty()
    } else {
        let before = reduced(parts.drop_last());
        let kind = component_kind(parts.last());
        if kind == 1 {
            before
        } else if kind == 2 && before.len() > 0 && component_kind(before.last()) == 3 {
            before.drop_last()
        } else if kind == 2 && before.len() > 0 && component_kind(before.last()) == 0 {
            before
        } else {
            before.push(parts.last())
        }
    }
}

/// No component is `.`, the root stands at the start alone, and `..` stands
/// only at the start of a relative path.
pub open spec fn without_detours(parts: Seq<Seq<u8>>) -> bool {
    forall|k: int|
        0 <= k < parts.len() ==> {
            &&& component_kind(#[trigger] parts[k]) != 1
            &&& component_kind(parts[k]) == 0 ==> k == 0
            &&& component_kind(parts[k]) == 2 ==> forall|j: int|
                0 <= j < k ==> component_kind(#[trigger] parts[j]) == 2
        }
}

/// What a path can have as its components.
pub open spec fn path_parts(parts: Seq<Seq<u8>>) -> bool {
    forall|k: int|
        0 <= k < parts.len() ==> {
            &&& component_kind(#[trigger] parts[k]) == 0 ==> k == 0
            &&& component_kind(parts[k]) != 0 ==> {
                &&& parts[k].len() > 0
                &&& forall|i: int| 0 <= i < parts[k].len() ==> #[trigger] parts[k][i] != SEPARATOR
            }
        }
}

proof fn lemma_path_parts(p: Seq<u8>)
    ensures
        path_parts(components(p)),
{
    lemma_spans(p);
    let parts = components(p);
    assert forall|k: int| 0 <= k < parts.len() implies {
        &&& component_kind(#[trigger] parts[k]) == 0 ==> k == 0
        &&& component_kind(parts[k]) != 0 ==> {
            &&& parts[k].len() > 0
            &&& forall|i: int| 0 <= i < parts[k].len() ==> #[trigger] parts[k][i] != SEPARATOR
        }
    } by {
        let s = spans(p)[k];
        assert(parts[k] == p.subrange(s.0, s.1));
        assert(seq![SEPARATOR][0] == SEPARATOR);
        if k == 0 && is_absolute(p) {
            assert(parts[0] =~= seq![SEPARATOR]);
        } else {
            assert(span_ok(p, s.0, s.1));
            assert forall|i: int| 0 <= i < parts[k].len() implies #[trigger] parts[k][i]
                != SEPARATOR by {
                assert(parts[k][i] == p[s.0 + i]);
            }
            if component_kind(parts[k]) == 0 {
                assert(parts[k][0] == SEPARATOR);
            }
        }
    }
}

/// A name or `..` joined to a path becomes its last component.
proof fn lemma_join_component(p: Seq<u8>, c: Seq<u8>)
    requires
        c.len() > 0,
        component_kind(c) >= 2,
        forall|i: int| 0 <= i < c.len() ==> #[trigger] c[i] != SEPARATOR,
    ensures
        components(join(p, c)) == components(p).push(c),
{
    lemma_segment_without_separator(c, 0);
    let n = c.len() as int;
    assert(c.subrange(0, n) =~= c);
    assert(body_spans(c, n + 1) =~= Seq::<(int, int)>::empty());
    assert(body_spans(c, 0) =~= seq![(0int, n)]);
    assert(body(c) =~= seq![c]);
    assert(!is_absolute(c));
    assert(!has_leading_dot(c)) by {
        if has_leading_dot(c) {
            if c.len() == 1 {
                assert(c =~= seq![DOT]);
            } else {
                assert(c[1] != SEPARATOR);
            }
        }
    }
    if p.len() == 0 {
        assert(join(p, c) =~= c);
        lemma_body(c);
        lemma_spans(p);
        assert(components(p) =~= Seq::<Seq<u8>>::empty());
        assert(components(c) =~= components(p).push(c));
    } else {
        lemma_join(p, c);
        assert(components(p) + body(c) =~= components(p).push(c));
    }
}

proof fn lemma_reduced(parts: Seq<Seq<u8>>)
    requires
        path_parts(parts),
    ensures
        components(normalize_parts(parts)) == reduced(parts),
        without_detours(reduced(parts)),
        reduced(parts).len() <= parts.len(),
    decreases parts.len(),
{
    if parts.len() == 0 {
        lemma_spans(normalize_parts(parts));
        assert(components(normalize_parts(parts)) =~= reduced(parts));
    } else {
        let init = parts.drop_last();
        let c = parts.last();
        assert(parts[parts.len() - 1] == c);
        assert(path_parts(init)) by {
            assert forall|k: int| 0 <= k < init.len() implies {
                &&& component_kind(#[trigger] init[k]) == 0 ==> k == 0
                &&& component_kind(init[k]) != 0 ==> {
                    &&& init[k].len() > 0
                    &&& forall|i: int|
                        0 <= i < init[k].len() ==> #[trigger] init[k][i] != SEPARATOR
                }
            } by {
                assert(init[k] == parts[k]);
            }
        }
        lemma_reduced(init);
        let p = normalize_parts(init);
        let before = reduced(init);
        absolute_by_components(p);
        lemma_spans(p);
        let kind = component_kind(c);
        if before.len() > 0 {
            assert(component_kind(before[before.len() - 1]) != 1);
            assert(before.last() == before[before.len() - 1]);
        }
        if kind == 0 {
            assert(parts.len() == 1);
            assert(c == seq![SEPARATOR]);
            let root = join(p, c);
            assert(root == c);
            lemma_spans(root);
            assert(body_spans(root, 1) =~= Seq::<(int, int)>::empty());
            assert(components(root) =~= seq![c]) by {
                assert(root.subrange(0, 1) =~= c);
            }
            assert(before =~= Seq::<Seq<u8>>::empty());
            assert(reduced(parts) =~= seq![c]);
        } else if kind == 2 {
            if before.len() > 0 && component_kind(before.last()) == 2 {
                lemma_join_component(p, c);
            } else if before.len() == 0 {
                lemma_join_component(p, c);
            } else if component_kind(before.last()) == 0 {
                assert(before.len() == 1);
                assert(before[0] == seq![SEPARATOR]);
            } else {
                assert(component_kind(before.last()) == 3);
                if before.len() == 1 {
                    assert(before[0] != seq![SEPARATOR]);
                }
                lemma_parent_spans(p);
            }
        } else if kind == 3 {
            lemma_join_component(p, c);
        }
        let after = reduced(parts);
        assert forall|k: int| 0 <= k < after.len() implies {
            &&& component_kind(#[trigger] after[k]) != 1
            &&& component_kind(after[k]) == 0 ==> k == 0
            &&& component_kind(after[k]) == 2 ==> forall|j: int|
                0 <= j < k ==> component_kind(#[trigger] after[j]) == 2
        } by {
            if k < before.len() {
                assert(after[k] == before[k]);
                if component_kind(after[k]) == 2 {
                    assert forall|j: int| 0 <= j < k implies component_kind(#[trigger] after[j])
                        == 2 by {
                        assert(after[j] == before[j]);
                    }
                }
            } else if kind == 2 {
                assert forall|j: int| 0 <= j < k implies component_kind(#[trigger] after[j])
                    == 2 by {
                    assert(after[j] == before[j]);
                }
            }
        }
    }
}

proof fn lemma_reduced_is_stable(parts: Seq<Seq<u8>>)
    requires
        without_detours(parts),
    ensures
        reduced(parts) == parts,
    decreases parts.len(),
{
    if parts.len() == 0 {
        assert(reduced(parts) =~= parts);
    } else {
        let init = parts.drop_last();
        assert(without_detours(init)) by {
            assert forall|k: int| 0 <= k < init.len() implies {
                &&& component_kind(#[trigger] init[k]) != 1
                &&& component_kind(init[k]) == 0 ==> k == 0
                &&& component_kind(init[k]) == 2 ==> forall|j: int|
                    0 <= j < k ==> component_kind(#[trigger] init[j]) == 2
            } by {
                assert(init[k] == parts[k]);
                if component_kind(init[k]) == 2 {
                    assert forall|j: int| 0 <= j < k implies component_kind(#[trigger] init[j])
                        == 2 by {
                        assert(init[j] == parts[j]);
                    }
                }
            }
        }
        lemma_reduced_is_stable(init);
        let n = parts.len() - 1;
        assert(component_kind(parts[n]) != 1);
        if component_kind(parts[n]) == 2 && init.len() > 0 {
            assert(component_kind(parts[n - 1]) == 2);
            assert(init.last() == parts[n - 1]);
        }
        assert(reduced(parts) =~= parts);
    }
}

/// A normalized path has no detours, its components are those of the path with
/// the detours taken out, and normalizing it again changes nothing.
pub proof fn normalized_has_no_detours(p: Seq<u8>)
    ensures
        components(normalized(p)) == reduced(components(p)),
        without_detours(components(normalized(p))),
        same_path(normalized(normalized(p)), normalized(p)),
{
    lemma_path_parts(p);
    lemma_reduced(components(p));
    lemma_path_parts(normalized(p));
    lemma_reduced(components(normalized(p)));
    lemma_reduced_is_stable(components(normalized(p)));
}

/// A path cannot be written as text.
#[derive(Debug)]
pub struct NotText {
    pub path: PathBuf,
}

/// The path that is written: what lies below the base directory relative to
/// it, and any other path as it is.
pub open spec fn shown_path(path: Seq<u8>, basedir: Option<Seq<char>>) -> Seq<u8> {
    match basedir {
        None => path,
        Some(base) => match strip_prefix(normalized(path), normalized(encode_utf8(base))) {
            Some(below) => below,
            None => path,
        },
    }
}

/// How a path is written. A path that is not text cannot be.
pub open spec fn rendered(path: Seq<u8>, basedir: Option<Seq<char>>) -> Option<Seq<char>> {
    let shown = shown_path(path, basedir);
    if valid_utf8(shown) {
        Some(escape_spaces_of(decode_utf8(shown)))
    } else {
        None
    }
}

/// Writes a path as text: relative to the base directory where it lies below
/// that, and with its spaces escaped.
pub fn render_filename(path: &PathBuf, basedir: &Option<String>) -> (r: Result<String, NotText>)
    ensures
        r is Ok <==> rendered(path@, optional_text(*basedir)) is Some,
        r matches Ok(text) ==> Some(text@) == rendered(path@, optional_text(*basedir)),
        r matches Err(error) ==> error.path@ == shown_path(path@, optional_text(*basedir)),
{
    let shown = match basedir {
        None => path.clone(),
        Some(base) => {
            let base = normalize_path(&PathBuf::new(base.as_str()));
            match normalize_path(path).strip_prefix(&base) {
                Some(below) => below,
                None => path.clone(),
            }
        },
    };
    match utf8_text(shown.as_bytes()) {
        Some(text) => Ok(escape_spaces(text.as_str())),
        None => Err(NotText { path: shown }),
    }
}

} // verus!
