//! Text: its order, its bytes, and numbers and bytes written in hexadecimal.

use vstd::prelude::*;
use vstd::utf8::{
    decode_utf8, encode_utf8, encode_utf8_decode_utf8, encode_utf8_valid_utf8,
    is_ascii_chars_encode_utf8, valid_utf8,
};

use crate::order::{
    bytes_at_most, bytes_equal, bytes_le, bytes_le_is_total_order, total_order, Ranked,
};

verus! {

/// Texts are ordered by their encoded bytes.
pub open spec fn text_le(a: Seq<char>, b: Seq<char>) -> bool {
    bytes_le(encode_utf8(a), encode_utf8(b))
}

/// Different texts have different bytes.
pub proof fn encode_utf8_injective(a: Seq<char>, b: Seq<char>)
    requires
        encode_utf8(a) == encode_utf8(b),
    ensures
        a == b,
{
    encode_utf8_decode_utf8(a);
    encode_utf8_decode_utf8(b);
}

/// Texts are totally ordered.
pub proof fn text_le_is_total_order()
    ensures
        total_order(|a: Seq<char>, b: Seq<char>| text_le(a, b)),
{
    bytes_le_is_total_order();
    let bytes = |a: Seq<u8>, b: Seq<u8>| bytes_le(a, b);
    let le = |a: Seq<char>, b: Seq<char>| text_le(a, b);
    assert forall|a: Seq<char>, b: Seq<char>| #[trigger] le(a, b) || le(b, a) by {
        assert(bytes(encode_utf8(a), encode_utf8(b)) || bytes(encode_utf8(b), encode_utf8(a)));
    }
    assert forall|a: Seq<char>, b: Seq<char>, c: Seq<char>| #[trigger]
        le(a, b) && #[trigger] le(b, c) implies le(a, c) by {
        assert(bytes(encode_utf8(a), encode_utf8(b)) && bytes(encode_utf8(b), encode_utf8(c)));
        assert(bytes(encode_utf8(a), encode_utf8(c)));
    }
    assert forall|a: Seq<char>, b: Seq<char>| #[trigger] le(a, b) && le(b, a) implies a == b by {
        assert(bytes(encode_utf8(a), encode_utf8(b)) && bytes(encode_utf8(b), encode_utf8(a)));
        encode_utf8_injective(a, b);
    }
}

impl Ranked for String {
    open spec fn rank_le(a: Seq<char>, b: Seq<char>) -> bool {
        text_le(a, b)
    }

    fn at_most(&self, other: &Self) -> (r: bool) {
        bytes_at_most(self.as_str().as_bytes(), other.as_str().as_bytes())
    }
}

/// Whether two texts are equal.
pub fn text_equal(a: &str, b: &str) -> (r: bool)
    ensures
        r == (a@ == b@),
{
    let r: bool = bytes_equal(a.as_bytes(), b.as_bytes());
    proof {
        if r {
            encode_utf8_injective(a@, b@);
        }
    }
    r
}

/// Whether `name` is one of the texts in `list`.
pub fn text_in(list: &Vec<String>, name: &str) -> (r: bool)
    ensures
        r == (exists|i: int| 0 <= i < list@.len() && (#[trigger] list@[i])@ == name@),
{
    let mut i: usize = 0;
    while i < list.len()
        invariant
            i <= list@.len(),
            forall|k: int| 0 <= k < i ==> (#[trigger] list@[k])@ != name@,
        decreases list@.len() - i,
    {
        if text_equal(list[i].as_str(), name) {
            assert(list@[i as int]@ == name@);
            return true;
        }
        i = i + 1;
    }
    false
}

/// The view of an optional text.
pub open spec fn optional_text(t: Option<String>) -> Option<Seq<char>> {
    match t {
        None => None,
        Some(text) => Some(text@),
    }
}

/// Copies a list of texts.
pub fn copy_texts(list: &Vec<String>) -> (r: Vec<String>)
    ensures
        r@ == list@,
{
    let mut r: Vec<String> = Vec::new();
    let mut i: usize = 0;
    while i < list.len()
        invariant
            i <= list@.len(),
            r@ == list@.take(i as int),
        decreases list@.len() - i,
    {
        r.push(list[i].clone());
        assert(list@.take(i + 1) =~= list@.take(i as int).push(list@[i as int]));
        i = i + 1;
    }
    assert(list@.take(i as int) =~= list@);
    r
}

/// Reads bytes as text, through `std::str::from_utf8`.
///
/// Taken from its documentation, unproved: it succeeds exactly on valid UTF-8,
/// and the text it gives is the one those bytes encode.
#[verifier::external_body]
pub(crate) fn utf8_text(bytes: &[u8]) -> (r: Option<String>)
    ensures
        r is Some <==> valid_utf8(bytes@),
        r matches Some(text) ==> text@ == decode_utf8(bytes@),
{
    match std::str::from_utf8(bytes) {
        Ok(text) => Some(text.to_string()),
        Err(_) => None,
    }
}

/// The hexadecimal digit of a number below 16.
pub open spec fn hex_digit(d: int) -> char {
    if d == 0 {
        '0'
    } else if d == 1 {
        '1'
    } else if d == 2 {
        '2'
    } else if d == 3 {
        '3'
    } else if d == 4 {
        '4'
    } else if d == 5 {
        '5'
    } else if d == 6 {
        '6'
    } else if d == 7 {
        '7'
    } else if d == 8 {
        '8'
    } else if d == 9 {
        '9'
    } else if d == 10 {
        'a'
    } else if d == 11 {
        'b'
    } else if d == 12 {
        'c'
    } else if d == 13 {
        'd'
    } else if d == 14 {
        'e'
    } else {
        'f'
    }
}

/// Bytes written in lower-case hexadecimal, two digits each, high digit first.
pub open spec fn hex_text(bytes: Seq<u8>) -> Seq<char> {
    Seq::new(
        bytes.len() * 2,
        |i: int|
            hex_digit(
                if i % 2 == 0 {
                    bytes[i / 2] as int / 16
                } else {
                    bytes[i / 2] as int % 16
                },
            ),
    )
}

/// Different bytes are written differently.
pub proof fn hex_text_injective(a: Seq<u8>, b: Seq<u8>)
    requires
        hex_text(a) == hex_text(b),
    ensures
        a == b,
{
    assert(hex_text(a).len() == a.len() * 2);
    assert(hex_text(b).len() == b.len() * 2);
    assert forall|i: int| 0 <= i < a.len() implies a[i] == b[i] by {
        let x = a[i] as int;
        let y = b[i] as int;
        assert(hex_text(a)[2 * i] == hex_digit(x / 16));
        assert(hex_text(b)[2 * i] == hex_digit(y / 16));
        assert((2 * i + 1) % 2 == 1 && (2 * i + 1) / 2 == i);
        assert(hex_text(a)[2 * i + 1] == hex_digit(x % 16));
        assert(hex_text(b)[2 * i + 1] == hex_digit(y % 16));
        assert(x / 16 == y / 16);
        assert(x % 16 == y % 16);
    }
    assert(a =~= b);
}

/// Writes bytes in hexadecimal, through `hex::encode`.
///
/// Taken from its source, unproved: each byte becomes its high and its low
/// digit, in that order and in lower case.
#[verifier::external_body]
pub(crate) fn hex_encode(bytes: &[u8]) -> (r: String)
    ensures
        r@ == hex_text(bytes@),
{
    hex::encode(bytes)
}

/// The byte of a hexadecimal digit in lower case.
pub open spec fn digit_byte(d: int) -> u8 {
    if d < 10 {
        (48 + d) as u8
    } else {
        (87 + d) as u8
    }
}

/// The value of a hexadecimal digit in either case, or 16 for any other byte.
pub open spec fn digit_value(b: u8) -> int {
    if 48 <= b <= 57 {
        b - 48
    } else if 97 <= b <= 102 {
        b - 87
    } else if 65 <= b <= 70 {
        b - 55
    } else {
        16
    }
}

/// The last `width` hexadecimal digits of a number.
pub open spec fn hex_digits(k: nat, width: nat) -> Seq<u8>
    decreases width,
{
    if width == 0 {
        Seq::empty()
    } else {
        hex_digits(k / 16, (width - 1) as nat).push(digit_byte((k % 16) as int))
    }
}

/// A key as sixteen hexadecimal digits.
pub open spec fn key_digits(key: u64) -> Seq<u8> {
    hex_digits(key as nat, 16)
}

/// The number that hexadecimal digits stand for.
pub open spec fn hex_value(s: Seq<u8>) -> nat
    decreases s.len(),
{
    if s.len() == 0 {
        0
    } else {
        hex_value(s.drop_last()) * 16 + digit_value(s.last()) as nat
    }
}

/// What counts as the digits of a number: a leading `+` is set aside, unless
/// it stands alone.
pub open spec fn unsigned_digits(s: Seq<u8>) -> Seq<u8> {
    if s.len() > 1 && s[0] == 43 {
        s.skip(1)
    } else {
        s
    }
}

/// The number that `s` spells in hexadecimal, if it spells one that fits.
pub open spec fn parse_key(s: Seq<u8>) -> Option<u64> {
    let digits = unsigned_digits(s);
    if digits.len() == 0 || exists|i: int|
        0 <= i < digits.len() && digit_value(#[trigger] digits[i]) == 16 {
        None
    } else if hex_value(digits) > u64::MAX {
        None
    } else {
        Some(hex_value(digits) as u64)
    }
}

proof fn lemma_hex_digits(k: nat, width: nat)
    ensures
        hex_digits(k, width).len() == width,
        forall|i: int| 0 <= i < width ==> digit_value(#[trigger] hex_digits(k, width)[i]) < 16,
        forall|i: int| 0 <= i < width ==> #[trigger] hex_digits(k, width)[i] != 43,
        hex_value(hex_digits(k, width)) == k % pow16(width),
    decreases width,
{
    if width > 0 {
        let w = (width - 1) as nat;
        lemma_hex_digits(k / 16, w);
        let head = hex_digits(k / 16, w);
        let all = hex_digits(k, width);
        assert(all.drop_last() =~= head);
        let d = (k % 16) as int;
        assert(digit_value(digit_byte(d)) == d);
        assert forall|i: int| 0 <= i < width implies digit_value(#[trigger] all[i]) < 16 by {
            if i < w {
                assert(all[i] == head[i]);
            }
        }
        assert forall|i: int| 0 <= i < width implies #[trigger] all[i] != 43 by {
            if i < w {
                assert(all[i] == head[i]);
            }
        }
        lemma_pow16(w);
        let m = pow16(w) as int;
        let q = (k / 16) as int;
        assert(hex_value(all) == (q % m) * 16 + d);
        vstd::arithmetic::div_mod::lemma_mod_breakdown(k as int, 16, m);
        assert(16 * m == pow16(width));
        assert(k as int % (16 * m) == 16 * ((k as int / 16) % m) + k as int % 16);
    }
}

/// Powers of sixteen.
pub open spec fn pow16(n: nat) -> nat
    decreases n,
{
    if n == 0 {
        1
    } else {
        16 * pow16((n - 1) as nat)
    }
}

proof fn lemma_pow16(n: nat)
    ensures
        pow16(n) > 0,
    decreases n,
{
    if n > 0 {
        lemma_pow16((n - 1) as nat);
    }
}

/// Reading a key's digits gives the key back.
pub proof fn parse_key_undoes_key_digits(key: u64)
    ensures
        parse_key(key_digits(key)) == Some(key),
{
    lemma_hex_digits(key as nat, 16);
    assert(pow16(16) == 0x1_0000_0000_0000_0000) by {
        reveal_with_fuel(pow16, 17);
    }
    let s = key_digits(key);
    assert(unsigned_digits(s) == s);
    assert(key as nat % 0x1_0000_0000_0000_0000 == key as nat);
}

/// Different keys have different digits.
pub proof fn key_digits_injective(a: u64, b: u64)
    requires
        key_digits(a) == key_digits(b),
    ensures
        a == b,
{
    parse_key_undoes_key_digits(a);
    parse_key_undoes_key_digits(b);
}

/// The digits of a key are hexadecimal digits.
pub proof fn key_digits_are_digits(key: u64)
    ensures
        forall|i: int|
            0 <= i < key_digits(key).len() ==> digit_value(#[trigger] key_digits(key)[i]) < 16,
{
    lemma_hex_digits(key as nat, 16);
}

/// Every key takes sixteen digits.
pub proof fn key_digits_len(key: u64)
    ensures
        key_digits(key).len() == 16,
{
    lemma_hex_digits(key as nat, 16);
}

/// A key as text: sixteen hexadecimal digits.
pub open spec fn key_text_of(key: u64) -> Seq<char> {
    Seq::new(16, |i: int| key_digits(key)[i] as char)
}

/// The text of a key is made of the bytes of its digits.
pub proof fn key_text_bytes(key: u64)
    ensures
        encode_utf8(key_text_of(key)) == key_digits(key),
{
    let chars = key_text_of(key);
    lemma_hex_digits(key as nat, 16);
    assert forall|i: int| 0 <= i < chars.len() implies #[trigger] (chars[i] as nat) < 128 by {
        assert(digit_value(key_digits(key)[i]) < 16);
    }
    is_ascii_chars_encode_utf8(chars);
    assert(encode_utf8(chars) =~= key_digits(key));
}

/// The text of a key.
pub fn key_text(key: u64) -> (r: String)
    ensures
        r@ == key_text_of(key),
        encode_utf8(r@) == key_digits(key),
{
    let digits = write_key(key);
    proof {
        key_text_bytes(key);
        encode_utf8_valid_utf8(key_text_of(key));
        encode_utf8_decode_utf8(key_text_of(key));
    }
    match utf8_text(digits.as_slice()) {
        Some(text) => text,
        None => String::new(),
    }
}

/// Writes a key as sixteen hexadecimal digits.
pub fn write_key(key: u64) -> (r: Vec<u8>)
    ensures
        r@ == key_digits(key),
{
    write_digits(key, 16)
}

fn write_digits(k: u64, width: u32) -> (r: Vec<u8>)
    ensures
        r@ == hex_digits(k as nat, width as nat),
    decreases width,
{
    if width == 0 {
        let r: Vec<u8> = Vec::new();
        assert(r@ =~= Seq::<u8>::empty());
        r
    } else {
        let mut r = write_digits(k / 16, width - 1);
        let d: u8 = (k % 16) as u8;
        if d < 10 {
            r.push(48 + d);
        } else {
            r.push(87 + d);
        }
        r
    }
}

proof fn lemma_hex_value_grows(s: Seq<u8>, n: int)
    requires
        0 <= n <= s.len(),
    ensures
        hex_value(s.take(n)) <= hex_value(s),
    decreases s.len() - n,
{
    if n < s.len() {
        lemma_hex_value_grows(s, n + 1);
        assert(s.take(n + 1).drop_last() =~= s.take(n));
    } else {
        assert(s.take(n) =~= s);
    }
}

/// Reads a key from hexadecimal digits.
pub fn read_key(s: &[u8]) -> (r: Option<u64>)
    ensures
        r == parse_key(s@),
{
    let start: usize = if s.len() > 1 && s[0] == 43 {
        1
    } else {
        0
    };
    let ghost digits = unsigned_digits(s@);
    assert(digits =~= s@.skip(start as int));
    if start == s.len() {
        return None;
    }
    let mut value: u64 = 0;
    let mut i: usize = start;
    let mut too_large: bool = false;
    while i < s.len()
        invariant
            start <= i <= s@.len(),
            start < s@.len(),
            digits == s@.skip(start as int),
            digits == unsigned_digits(s@),
            forall|k: int| 0 <= k < i - start ==> digit_value(#[trigger] digits[k]) < 16,
            !too_large ==> value == hex_value(digits.take(i - start)),
            too_large ==> hex_value(digits) > u64::MAX,
        decreases s@.len() - i,
    {
        let b: u8 = s[i];
        assert(b == digits[i - start]);
        let d: u64 = if 48 <= b && b <= 57 {
            (b - 48) as u64
        } else if 97 <= b && b <= 102 {
            (b - 87) as u64
        } else if 65 <= b && b <= 70 {
            (b - 55) as u64
        } else {
            assert(digit_value(digits[i - start]) == 16);
            return None;
        };
        proof {
            assert(digits.take(i - start + 1).drop_last() =~= digits.take(i - start));
            lemma_hex_value_grows(digits, i - start + 1);
        }
        if !too_large {
            if value > 0xfff_ffff_ffff_ffff {
                too_large = true;
            } else {
                value = value * 16 + d;
            }
        }
        i = i + 1;
    }
    assert(digits.take(i - start) =~= digits);
    if too_large {
        None
    } else {
        Some(value)
    }
}

} // verus!
