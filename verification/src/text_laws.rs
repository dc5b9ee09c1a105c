//! How numbers and bytes are written, and what is hashed of paths and keys.

use vstd::bytes::{
    lemma_auto_spec_u64_to_from_le_bytes, spec_u64_from_le_bytes, spec_u64_to_le_bytes,
};
use vstd::prelude::*;
use vstd::utf8::encode_utf8;

use crate::environment::{
    environment_stream, provisional_key_of, visible_environment, EnvironmentModel,
};
use crate::hasher::{
    bool_stream, bytes_stream, concat, hashed_parts, len_stream, length_mix, path_stream,
    stable_sip, str_stream,
};
use crate::path::{absolute_by_components, components};
use crate::text::{
    digit_value, hex_digits, hex_text, hex_value, key_digits, parse_key, unsigned_digits,
};
use crate::variants::{values_stream, variant_key_of, EncodedModel};

verus! {

/// Bytes are written as two digits each, the higher one first, in lower case.
pub proof fn bytes_are_written_as_two_digits(bytes: Seq<u8>, i: int)
    requires
        0 <= i < bytes.len(),
    ensures
        ({
            let digit = |d: int|
                if d < 10 {
                    48 + d
                } else {
                    87 + d
                };
            &&& hex_text(bytes).len() == 2 * bytes.len()
            &&& hex_text(bytes)[2 * i] as int == digit(bytes[i] as int / 16)
            &&& hex_text(bytes)[2 * i + 1] as int == digit(bytes[i] as int % 16)
        }),
{
    assert((2 * i) / 2 == i && (2 * i) % 2 == 0);
    assert((2 * i + 1) / 2 == i && (2 * i + 1) % 2 == 1);
}

proof fn lemma_lower_case(k: nat, width: nat, i: int)
    requires
        0 <= i < hex_digits(k, width).len(),
    ensures
        48 <= hex_digits(k, width)[i] <= 57 || 97 <= hex_digits(k, width)[i] <= 102,
    decreases width,
{
    if width > 0 {
        let before = hex_digits(k / 16, (width - 1) as nat);
        if i < before.len() {
            lemma_lower_case(k / 16, (width - 1) as nat, i);
        }
    }
}

/// A key is written in lower case.
pub proof fn key_is_written_in_lower_case(key: u64, i: int)
    requires
        0 <= i < key_digits(key).len(),
    ensures
        48 <= key_digits(key)[i] <= 57 || 97 <= key_digits(key)[i] <= 102,
{
    lemma_lower_case(key as nat, 16, i);
}

/// Digits are read one by one, in lower case and in upper case. With one digit
/// more, a key is sixteen times what it was and the digit, where that is a key.
/// Without a digit there is no key, and none with anything but digits, except for
/// one plus sign before them.
pub proof fn key_is_read_digit_by_digit(s: Seq<u8>, b: u8)
    ensures
        ({
            let value = if 48 <= b <= 57 {
                Some(b - 48)
            } else if 97 <= b <= 102 {
                Some(b - 87)
            } else if 65 <= b <= 70 {
                Some(b - 55)
            } else {
                None
            };
            &&& parse_key(Seq::empty()) is None
            &&& parse_key(seq![b]) is Some <==> value is Some
            &&& value matches Some(d) ==> parse_key(seq![b]) matches Some(k) && k == d
            &&& value is None && s.len() > 0 ==> parse_key(s.push(b)) is None
            &&& s.len() > 0 && parse_key(s) is Some && value is Some ==> match parse_key(s.push(b)) {
                Some(k) => k == parse_key(s)->0 * 16 + value->0,
                None => parse_key(s)->0 * 16 + value->0 > u64::MAX,
            }
            &&& s.len() > 0 && s[0] != 43 ==> parse_key(seq![43u8] + s) == parse_key(s)
        }),
{
    let one = seq![b];
    assert(one.len() == 1 && one[0] == b);
    assert(one.drop_last() =~= Seq::empty());
    assert(hex_value(Seq::empty()) == 0);
    assert(hex_value(one) == digit_value(b));
    if b == 43 {
        assert(unsigned_digits(one).len() <= 1);
    }
    if s.len() > 0 {
        let more = s.push(b);
        let x = unsigned_digits(s);
        let y = unsigned_digits(more);
        assert(more[0] == s[0]);
        assert(y[y.len() - 1] == b);
        if parse_key(s) is Some {
            if s.len() == 1 {
                assert(x[0] == s[0]);
            }
            assert(y =~= x.push(b));
            assert(y.drop_last() =~= x);
            assert forall|i: int| 0 <= i < x.len() implies digit_value(#[trigger] y[i]) != 16 by {
                assert(x[i] == y[i]);
                assert(digit_value(x[i]) != 16);
            }
        }
        if s[0] != 43 {
            assert((seq![43u8] + s).drop_first() =~= s);
            assert(unsigned_digits(seq![43u8] + s) =~= s);
            assert(unsigned_digits(s) =~= s);
        }
    }
}

/// A key of a branch is the hash of what it is the key of, and one where that hash
/// is zero, which is the key of the plain branch.
pub proof fn key_is_the_hash_unless_that_is_zero(
    e: EnvironmentModel,
    values: Seq<(Seq<char>, EncodedModel)>,
)
    ensures
        ({
            let h = stable_sip(environment_stream(visible_environment(e)));
            provisional_key_of(e) == if h == 0 {
                1
            } else {
                h
            }
        }),
        ({
            let h = stable_sip(values_stream(values));
            variant_key_of(values) == if h == 0 {
                1
            } else {
                h
            }
        }),
{
}

/// A path is hashed component by component: what is hashed begins with the names
/// of all components but the root, one behind the other, and ends in a number of
/// eight bytes that their lengths are mixed into.
pub proof fn path_is_hashed_name_by_name(p: Seq<u8>, q: Seq<u8>, name: Seq<u8>)
    requires
        components(q) == components(p).push(name),
        components(p).len() > 0 || name != seq![47u8],
    ensures
        ({
            let a = path_stream(p);
            let b = path_stream(q);
            let m = spec_u64_from_le_bytes(a.skip(a.len() - 8));
            let n = spec_u64_from_le_bytes(b.skip(b.len() - 8));
            &&& a.len() >= 8
            &&& b.len() == a.len() + name.len()
            &&& b.take(b.len() - 8) == a.take(a.len() - 8) + name
            &&& n == ({
                let mixed = u64::wrapping_add(m, name.len() as u64);
                (mixed >> 2u64) | (mixed << 62u64)
            })
            &&& components(p).len() == 0 ==> a == spec_u64_to_le_bytes(0)
        }),
{
    lemma_auto_spec_u64_to_from_le_bytes();
    absolute_by_components(p);
    absolute_by_components(q);
    assert(components(q)[0] == if components(p).len() > 0 {
        components(p)[0]
    } else {
        name
    });
    let x = hashed_parts(p);
    let y = hashed_parts(q);
    assert(y =~= x.push(name));
    assert(y.drop_last() =~= x);
    let a = path_stream(p);
    let b = path_stream(q);
    assert(spec_u64_to_le_bytes(length_mix(x)).len() == 8);
    assert(spec_u64_to_le_bytes(length_mix(y)).len() == 8);
    assert(a.skip(a.len() - 8) =~= spec_u64_to_le_bytes(length_mix(x)));
    assert(b.skip(b.len() - 8) =~= spec_u64_to_le_bytes(length_mix(y)));
    assert(b.take(b.len() - 8) =~= a.take(a.len() - 8) + name);
    if components(p).len() == 0 {
        assert(length_mix(x) == 0);
        assert(concat(x) =~= Seq::empty());
        assert(a =~= spec_u64_to_le_bytes(0));
    }
}

/// What is hashed of simple values: of a text its bytes and one that no text holds,
/// of a number of elements its eight bytes, of bytes their number and themselves,
/// and of a truth value one byte.
pub proof fn simple_values_are_hashed_as_their_bytes(
    text: Seq<char>,
    n: u64,
    bytes: Seq<u8>,
    b: bool,
)
    ensures
        str_stream(text) == encode_utf8(text) + seq![255u8],
        len_stream(n as nat) == spec_u64_to_le_bytes(n),
        bytes_stream(bytes) == spec_u64_to_le_bytes(bytes.len() as u64) + bytes,
        bool_stream(b) == if b {
            seq![1u8]
        } else {
            seq![0u8]
        },
{
    assert(str_stream(text) =~= encode_utf8(text) + seq![255u8]);
}

} // verus!
