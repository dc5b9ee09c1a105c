//! What is written to a hasher tells apart what was written.

use vstd::bytes::{
    lemma_auto_spec_u16_to_from_le_bytes, lemma_auto_spec_u32_to_from_le_bytes,
    lemma_auto_spec_u64_to_from_le_bytes, spec_u16_from_le_bytes, spec_u16_to_le_bytes,
    spec_u32_from_le_bytes, spec_u32_to_le_bytes, spec_u64_from_le_bytes, spec_u64_to_le_bytes,
};
use vstd::prelude::*;
use vstd::utf8::{
    encode_utf8, encode_utf8_valid_utf8, is_continuation_byte, is_leading_byte_width_1,
    is_leading_byte_width_2, is_leading_byte_width_3, is_leading_byte_width_4,
    length_of_first_scalar, pop_first_scalar, valid_first_scalar, valid_utf8,
};

use crate::artifact_family::{
    family_environment_stream, family_stream, pair_entries_stream, path_entries_stream,
    text_entries_stream, ConfigModel, FamilyEnvironment,
};
use crate::environment::{environment_stream, vars_stream};
use crate::hasher::{bool_stream, bytes_stream, len_stream, path_stream, str_stream};
use crate::text::encode_utf8_injective;
use crate::variants::{encoded_stream, entries_stream, values_stream, wide_stream, EncodedModel};

verus! {

proof fn lemma_lead_or_continuation(b: u8)
    requires
        is_leading_byte_width_1(b) || is_leading_byte_width_2(b) || is_leading_byte_width_3(b)
            || is_leading_byte_width_4(b) || is_continuation_byte(b),
    ensures
        b != 0xff,
{
    assert(is_leading_byte_width_1(b) || is_leading_byte_width_2(b) || is_leading_byte_width_3(b)
        || is_leading_byte_width_4(b) || is_continuation_byte(b) ==> b != 0xff) by (bit_vector);
}

/// No text holds the byte that ends a text.
pub proof fn no_text_holds_its_end(bytes: Seq<u8>, i: int)
    requires
        valid_utf8(bytes),
        0 <= i < bytes.len(),
    ensures
        bytes[i] != 0xff,
    decreases bytes.len(),
{
    assert(valid_first_scalar(bytes));
    let n = length_of_first_scalar(bytes);
    if i < n {
        lemma_lead_or_continuation(bytes[i]);
    } else {
        let rest = pop_first_scalar(bytes);
        assert(rest[i - n] == bytes[i]);
        no_text_holds_its_end(rest, i - n);
    }
}

/// Where a text ends can be told from what it writes.
pub proof fn str_stream_is_prefix_free(a: Seq<char>, u: Seq<u8>, b: Seq<char>, v: Seq<u8>)
    requires
        str_stream(a) + u == str_stream(b) + v,
    ensures
        a == b,
        u == v,
{
    let x = encode_utf8(a);
    let y = encode_utf8(b);
    encode_utf8_valid_utf8(a);
    encode_utf8_valid_utf8(b);
    let s = str_stream(a) + u;
    let t = str_stream(b) + v;
    assert(s[x.len() as int] == 0xff);
    assert(t[y.len() as int] == 0xff);
    if x.len() < y.len() {
        assert(t[x.len() as int] == y[x.len() as int]);
        no_text_holds_its_end(y, x.len() as int);
    }
    if y.len() < x.len() {
        assert(s[y.len() as int] == x[y.len() as int]);
        no_text_holds_its_end(x, y.len() as int);
    }
    assert(x =~= s.take(x.len() as int));
    assert(y =~= t.take(y.len() as int));
    encode_utf8_injective(a, b);
    assert(u =~= s.skip(x.len() as int + 1));
    assert(v =~= t.skip(y.len() as int + 1));
}

/// A number of elements can be told from what it writes.
pub proof fn len_stream_is_prefix_free(m: nat, u: Seq<u8>, n: nat, v: Seq<u8>)
    requires
        m <= u64::MAX,
        n <= u64::MAX,
        len_stream(m) + u == len_stream(n) + v,
    ensures
        m == n,
        u == v,
{
    lemma_auto_spec_u64_to_from_le_bytes();
    let s = len_stream(m) + u;
    let t = len_stream(n) + v;
    assert(spec_u64_to_le_bytes(m as u64).len() == 8);
    assert(spec_u64_to_le_bytes(n as u64).len() == 8);
    assert(len_stream(m) =~= s.take(8));
    assert(len_stream(n) =~= t.take(8));
    assert(spec_u64_from_le_bytes(len_stream(m)) == m as u64);
    assert(spec_u64_from_le_bytes(len_stream(n)) == n as u64);
    assert(u =~= s.skip(8));
    assert(v =~= t.skip(8));
}

proof fn lemma_wide_stream(a: Seq<u16>, u: Seq<u8>, b: Seq<u16>, v: Seq<u8>)
    requires
        a.len() == b.len(),
        wide_stream(a) + u == wide_stream(b) + v,
    ensures
        a == b,
        u == v,
    decreases a.len(),
{
    if a.len() == 0 {
        assert(wide_stream(a) + u =~= u);
        assert(wide_stream(b) + v =~= v);
        assert(a =~= b);
    } else {
        lemma_auto_spec_u16_to_from_le_bytes();
        let x = spec_u16_to_le_bytes(a.last());
        let y = spec_u16_to_le_bytes(b.last());
        assert(x.len() == 2 && y.len() == 2);
        assert(wide_stream(a) + u =~= wide_stream(a.drop_last()) + (x + u));
        assert(wide_stream(b) + v =~= wide_stream(b.drop_last()) + (y + v));
        lemma_wide_stream(a.drop_last(), x + u, b.drop_last(), y + v);
        assert(x =~= (x + u).take(2));
        assert(y =~= (y + v).take(2));
        assert(spec_u16_from_le_bytes(x) == a.last());
        assert(spec_u16_from_le_bytes(y) == b.last());
        assert(u =~= (x + u).skip(2));
        assert(v =~= (y + v).skip(2));
        assert(a =~= a.drop_last().push(a.last()));
        assert(b =~= b.drop_last().push(b.last()));
    }
}

/// The value can be counted.
pub open spec fn countable(value: EncodedModel) -> bool {
    value matches EncodedModel::WindowsWide(wide) ==> wide.len() <= u64::MAX
}

/// Where a recorded value ends can be told from what it writes.
pub proof fn encoded_stream_is_prefix_free(
    a: EncodedModel,
    u: Seq<u8>,
    b: EncodedModel,
    v: Seq<u8>,
)
    requires
        countable(a),
        countable(b),
        encoded_stream(a) + u == encoded_stream(b) + v,
    ensures
        a == b,
        u == v,
{
    let s = encoded_stream(a) + u;
    let t = encoded_stream(b) + v;
    assert(s[0] == encoded_stream(a)[0]);
    assert(t[0] == encoded_stream(b)[0]);
    match (a, b) {
        (EncodedModel::Unset, EncodedModel::Unset) => {
            assert(u =~= s.skip(1));
            assert(v =~= t.skip(1));
        },
        (EncodedModel::UnixBytes(x), EncodedModel::UnixBytes(y)) => {
            assert(s.skip(1) =~= str_stream(x) + u);
            assert(t.skip(1) =~= str_stream(y) + v);
            str_stream_is_prefix_free(x, u, y, v);
        },
        (EncodedModel::WindowsWide(x), EncodedModel::WindowsWide(y)) => {
            assert(s.skip(1) =~= len_stream(x.len()) + (wide_stream(x) + u));
            assert(t.skip(1) =~= len_stream(y.len()) + (wide_stream(y) + v));
            len_stream_is_prefix_free(
                x.len(),
                wide_stream(x) + u,
                y.len(),
                wide_stream(y) + v,
            );
            lemma_wide_stream(x, u, y, v);
        },
        _ => {},
    }
}

proof fn lemma_entries_stream(
    a: Seq<(Seq<char>, EncodedModel)>,
    u: Seq<u8>,
    b: Seq<(Seq<char>, EncodedModel)>,
    v: Seq<u8>,
)
    requires
        a.len() == b.len(),
        forall|i: int| 0 <= i < a.len() ==> countable((#[trigger] a[i]).1),
        forall|i: int| 0 <= i < b.len() ==> countable((#[trigger] b[i]).1),
        entries_stream(a) + u == entries_stream(b) + v,
    ensures
        a == b,
        u == v,
    decreases a.len(),
{
    if a.len() == 0 {
        assert(entries_stream(a) + u =~= u);
        assert(entries_stream(b) + v =~= v);
        assert(a =~= b);
    } else {
        let x = str_stream(a.last().0) + (encoded_stream(a.last().1) + u);
        let y = str_stream(b.last().0) + (encoded_stream(b.last().1) + v);
        assert(entries_stream(a) + u =~= entries_stream(a.drop_last()) + x);
        assert(entries_stream(b) + v =~= entries_stream(b.drop_last()) + y);
        assert forall|i: int| 0 <= i < a.drop_last().len() implies countable(
            (#[trigger] a.drop_last()[i]).1,
        ) by {
            assert(countable(a[i].1));
        }
        assert forall|i: int| 0 <= i < b.drop_last().len() implies countable(
            (#[trigger] b.drop_last()[i]).1,
        ) by {
            assert(countable(b[i].1));
        }
        lemma_entries_stream(a.drop_last(), x, b.drop_last(), y);
        str_stream_is_prefix_free(
            a.last().0,
            encoded_stream(a.last().1) + u,
            b.last().0,
            encoded_stream(b.last().1) + v,
        );
        assert(countable(a[a.len() - 1].1));
        assert(countable(b[b.len() - 1].1));
        encoded_stream_is_prefix_free(a.last().1, u, b.last().1, v);
        assert(a =~= a.drop_last().push(a.last()));
        assert(b =~= b.drop_last().push(b.last()));
    }
}

/// Different values write differently, so that keys of different branches agree
/// only where the hash itself collides.
pub proof fn values_stream_distinguishes_values(
    a: Seq<(Seq<char>, EncodedModel)>,
    b: Seq<(Seq<char>, EncodedModel)>,
)
    requires
        a.len() <= u64::MAX,
        b.len() <= u64::MAX,
        forall|i: int| 0 <= i < a.len() ==> countable((#[trigger] a[i]).1),
        forall|i: int| 0 <= i < b.len() ==> countable((#[trigger] b[i]).1),
        values_stream(a) == values_stream(b),
    ensures
        a == b,
{
    len_stream_is_prefix_free(a.len(), entries_stream(a), b.len(), entries_stream(b));
    let none = Seq::<u8>::empty();
    assert(entries_stream(a) + none =~= entries_stream(a));
    assert(entries_stream(b) + none =~= entries_stream(b));
    lemma_entries_stream(a, none, b, none);
}

proof fn lemma_bytes_stream(a: Seq<u8>, u: Seq<u8>, b: Seq<u8>, v: Seq<u8>)
    requires
        a.len() <= u64::MAX,
        b.len() <= u64::MAX,
        bytes_stream(a) + u == bytes_stream(b) + v,
    ensures
        a == b,
        u == v,
{
    assert(bytes_stream(a) + u =~= len_stream(a.len()) + (a + u));
    assert(bytes_stream(b) + v =~= len_stream(b.len()) + (b + v));
    len_stream_is_prefix_free(a.len(), a + u, b.len(), b + v);
    assert(a =~= (a + u).take(a.len() as int));
    assert(b =~= (b + v).take(b.len() as int));
    assert(u =~= (a + u).skip(a.len() as int));
    assert(v =~= (b + v).skip(b.len() as int));
}

proof fn lemma_vars_stream(
    a: Seq<(Seq<u8>, Seq<u8>)>,
    u: Seq<u8>,
    b: Seq<(Seq<u8>, Seq<u8>)>,
    v: Seq<u8>,
)
    requires
        a.len() == b.len(),
        forall|i: int|
            0 <= i < a.len() ==> (#[trigger] a[i]).0.len() <= u64::MAX && a[i].1.len() <= u64::MAX,
        forall|i: int|
            0 <= i < b.len() ==> (#[trigger] b[i]).0.len() <= u64::MAX && b[i].1.len() <= u64::MAX,
        vars_stream(a) + u == vars_stream(b) + v,
    ensures
        a == b,
        u == v,
    decreases a.len(),
{
    if a.len() == 0 {
        assert(vars_stream(a) + u =~= u);
        assert(vars_stream(b) + v =~= v);
        assert(a =~= b);
    } else {
        let x = bytes_stream(a.last().0) + (bytes_stream(a.last().1) + u);
        let y = bytes_stream(b.last().0) + (bytes_stream(b.last().1) + v);
        assert(vars_stream(a) + u =~= vars_stream(a.drop_last()) + x);
        assert(vars_stream(b) + v =~= vars_stream(b.drop_last()) + y);
        lemma_vars_stream(a.drop_last(), x, b.drop_last(), y);
        assert(a[a.len() - 1] == a.last() && b[b.len() - 1] == b.last());
        lemma_bytes_stream(
            a.last().0,
            bytes_stream(a.last().1) + u,
            b.last().0,
            bytes_stream(b.last().1) + v,
        );
        lemma_bytes_stream(a.last().1, u, b.last().1, v);
        assert(a =~= a.drop_last().push(a.last()));
        assert(b =~= b.drop_last().push(b.last()));
    }
}

/// Different environments write differently: none of their names and values is
/// left out.
pub proof fn environment_stream_distinguishes_environments(
    a: Seq<(Seq<u8>, Seq<u8>)>,
    b: Seq<(Seq<u8>, Seq<u8>)>,
)
    requires
        a.len() <= u64::MAX,
        b.len() <= u64::MAX,
        forall|i: int|
            0 <= i < a.len() ==> (#[trigger] a[i]).0.len() <= u64::MAX && a[i].1.len() <= u64::MAX,
        forall|i: int|
            0 <= i < b.len() ==> (#[trigger] b[i]).0.len() <= u64::MAX && b[i].1.len() <= u64::MAX,
        environment_stream(a) == environment_stream(b),
    ensures
        a == b,
{
    len_stream_is_prefix_free(a.len(), vars_stream(a), b.len(), vars_stream(b));
    let none = Seq::<u8>::empty();
    assert(vars_stream(a) + none =~= vars_stream(a));
    assert(vars_stream(b) + none =~= vars_stream(b));
    lemma_vars_stream(a, none, b, none);
}

proof fn lemma_text_entries(a: Seq<Seq<char>>, u: Seq<u8>, b: Seq<Seq<char>>, v: Seq<u8>)
    requires
        a.len() == b.len(),
        text_entries_stream(a) + u == text_entries_stream(b) + v,
    ensures
        a == b,
        u == v,
    decreases a.len(),
{
    if a.len() == 0 {
        assert(text_entries_stream(a) + u =~= u);
        assert(text_entries_stream(b) + v =~= v);
        assert(a =~= b);
    } else {
        let x = str_stream(a.last()) + u;
        let y = str_stream(b.last()) + v;
        assert(text_entries_stream(a) + u =~= text_entries_stream(a.drop_last()) + x);
        assert(text_entries_stream(b) + v =~= text_entries_stream(b.drop_last()) + y);
        lemma_text_entries(a.drop_last(), x, b.drop_last(), y);
        str_stream_is_prefix_free(a.last(), u, b.last(), v);
        assert(a =~= a.drop_last().push(a.last()));
        assert(b =~= b.drop_last().push(b.last()));
    }
}

proof fn lemma_pair_entries(
    a: Seq<(Seq<char>, Seq<char>)>,
    u: Seq<u8>,
    b: Seq<(Seq<char>, Seq<char>)>,
    v: Seq<u8>,
)
    requires
        a.len() == b.len(),
        pair_entries_stream(a) + u == pair_entries_stream(b) + v,
    ensures
        a == b,
        u == v,
    decreases a.len(),
{
    if a.len() == 0 {
        assert(pair_entries_stream(a) + u =~= u);
        assert(pair_entries_stream(b) + v =~= v);
        assert(a =~= b);
    } else {
        let x = str_stream(a.last().0) + (str_stream(a.last().1) + u);
        let y = str_stream(b.last().0) + (str_stream(b.last().1) + v);
        assert(pair_entries_stream(a) + u =~= pair_entries_stream(a.drop_last()) + x);
        assert(pair_entries_stream(b) + v =~= pair_entries_stream(b.drop_last()) + y);
        lemma_pair_entries(a.drop_last(), x, b.drop_last(), y);
        str_stream_is_prefix_free(
            a.last().0,
            str_stream(a.last().1) + u,
            b.last().0,
            str_stream(b.last().1) + v,
        );
        str_stream_is_prefix_free(a.last().1, u, b.last().1, v);
        assert(a =~= a.drop_last().push(a.last()));
        assert(b =~= b.drop_last().push(b.last()));
    }
}

proof fn lemma_family_environment(a: FamilyEnvironment, b: FamilyEnvironment)
    requires
        a.path == b.path,
        a.set.len() <= u64::MAX,
        b.set.len() <= u64::MAX,
        family_environment_stream(a) == family_environment_stream(b),
    ensures
        a == b,
{
    lemma_auto_spec_u32_to_from_le_bytes();
    let x = spec_u32_to_le_bytes(a.version);
    let y = spec_u32_to_le_bytes(b.version);
    assert(x.len() == 4 && y.len() == 4);
    let s = family_environment_stream(a);
    let t = family_environment_stream(b);
    assert(x =~= s.take(4));
    assert(y =~= t.take(4));
    assert(spec_u32_from_le_bytes(x) == a.version);
    assert(spec_u32_from_le_bytes(y) == b.version);
    assert(s[4] == bool_stream(a.clear_inherited)[0]);
    assert(t[4] == bool_stream(b.clear_inherited)[0]);
    let paths = len_stream(a.path.len()) + path_entries_stream(a.path);
    let m = 5 + paths.len() as int;
    assert(s.skip(m) =~= len_stream(a.set.len()) + pair_entries_stream(a.set));
    assert(t.skip(m) =~= len_stream(b.set.len()) + pair_entries_stream(b.set));
    len_stream_is_prefix_free(
        a.set.len(),
        pair_entries_stream(a.set),
        b.set.len(),
        pair_entries_stream(b.set),
    );
    let none = Seq::<u8>::empty();
    assert(pair_entries_stream(a.set) + none =~= pair_entries_stream(a.set));
    assert(pair_entries_stream(b.set) + none =~= pair_entries_stream(b.set));
    lemma_pair_entries(a.set, none, b.set, none);
    assert(a =~= b);
}

/// Families with the same search paths that differ in their name, their trigger,
/// their scope, their features or anything else of their environment write
/// differently.
pub proof fn family_stream_distinguishes_families(
    a: Seq<char>,
    c: ConfigModel,
    e: FamilyEnvironment,
    b: Seq<char>,
    d: ConfigModel,
    f: FamilyEnvironment,
)
    requires
        c.activate_dependency_features.len() <= u64::MAX,
        d.activate_dependency_features.len() <= u64::MAX,
        e.set.len() <= u64::MAX,
        f.set.len() <= u64::MAX,
        e.path == f.path,
        family_stream(a, c, e) == family_stream(b, d, f),
    ensures
        a == b,
        c.trigger_dependency == d.trigger_dependency,
        c.scope_package == d.scope_package,
        c.activate_dependency_features == d.activate_dependency_features,
        e == f,
{
    let p = c.activate_dependency_features;
    let q = d.activate_dependency_features;
    let u4 = text_entries_stream(p) + family_environment_stream(e);
    let v4 = text_entries_stream(q) + family_environment_stream(f);
    let u3 = len_stream(p.len()) + u4;
    let v3 = len_stream(q.len()) + v4;
    let u2 = str_stream(c.scope_package) + u3;
    let v2 = str_stream(d.scope_package) + v3;
    let u1 = str_stream(c.trigger_dependency) + u2;
    let v1 = str_stream(d.trigger_dependency) + v2;
    assert(family_stream(a, c, e) =~= str_stream(a) + u1);
    assert(family_stream(b, d, f) =~= str_stream(b) + v1);
    str_stream_is_prefix_free(a, u1, b, v1);
    str_stream_is_prefix_free(c.trigger_dependency, u2, d.trigger_dependency, v2);
    str_stream_is_prefix_free(c.scope_package, u3, d.scope_package, v3);
    len_stream_is_prefix_free(p.len(), u4, q.len(), v4);
    lemma_text_entries(p, family_environment_stream(e), q, family_environment_stream(f));
    lemma_family_environment(e, f);
}

/// Each search path of a family is written, in order, behind their number.
pub proof fn search_paths_are_written(e: FamilyEnvironment, more: Seq<u8>)
    ensures
        path_entries_stream(Seq::empty()) == Seq::<u8>::empty(),
        path_entries_stream(e.path.push(more)) == path_entries_stream(e.path) + path_stream(more),
        family_environment_stream(e).len() >= 13 + path_entries_stream(e.path).len(),
        family_environment_stream(e).subrange(
            5,
            13 + path_entries_stream(e.path).len() as int,
        ) == len_stream(e.path.len()) + path_entries_stream(e.path),
{
    lemma_auto_spec_u32_to_from_le_bytes();
    lemma_auto_spec_u64_to_from_le_bytes();
    assert(e.path.push(more).drop_last() =~= e.path);
    assert(spec_u32_to_le_bytes(e.version).len() == 4);
    assert(spec_u64_to_le_bytes(e.path.len() as u64).len() == 8);
    assert(family_environment_stream(e).subrange(
        5,
        13 + path_entries_stream(e.path).len() as int,
    ) =~= len_stream(e.path.len()) + path_entries_stream(e.path));
}

} // verus!
