//! A hasher whose results do not depend on the machine.

use std::hash::Hasher;

use vstd::bytes::{
    spec_u16_to_le_bytes, spec_u32_to_le_bytes, spec_u64_to_le_bytes, u16_to_le_bytes,
    u32_to_le_bytes, u64_to_le_bytes,
};
use vstd::prelude::*;
use vstd::utf8::encode_utf8;

use crate::path::{absolute_by_components, components, is_absolute, lemma_spans, same_path};
use crate::path_buf::{append_bytes, PathBuf};
use crate::text::{hex_encode, hex_text};

verus! {

/// The hash of a byte string under `rustc_stable_hash::StableSipHasher128`.
pub uninterp spec fn stable_sip(bytes: Seq<u8>) -> u64;

/// Hashes a byte string, through `rustc_stable_hash::StableSipHasher128` and
/// its `Hasher::finish`.
///
/// Taken from its source, unproved: a new hasher starts from fixed keys and
/// works on the bytes alone, so that the hash is a function of them. Nothing is
/// said of different byte strings, which may have one hash.
#[verifier::external_body]
fn hash_bytes(bytes: &[u8]) -> (r: u64)
    ensures
        r == stable_sip(bytes@),
{
    let mut hasher = rustc_stable_hash::StableSipHasher128::new();
    hasher.write(bytes);
    Hasher::finish(&hasher)
}

/// What a text writes: its bytes, and a byte that ends no text.
pub open spec fn str_stream(s: Seq<char>) -> Seq<u8> {
    encode_utf8(s).push(0xff)
}

/// What a number of elements writes.
pub open spec fn len_stream(n: nat) -> Seq<u8> {
    spec_u64_to_le_bytes(n as u64)
}

/// What a byte string writes: its length and its bytes.
pub open spec fn bytes_stream(s: Seq<u8>) -> Seq<u8> {
    len_stream(s.len()) + s
}

/// What a truth value writes.
pub open spec fn bool_stream(b: bool) -> Seq<u8> {
    seq![
        if b {
            1u8
        } else {
            0u8
        },
    ]
}

/// The components of a path that are hashed: all but the root.
pub open spec fn hashed_parts(p: Seq<u8>) -> Seq<Seq<u8>> {
    if is_absolute(p) {
        components(p).skip(1)
    } else {
        components(p)
    }
}

/// Strings one behind the other.
pub open spec fn concat(parts: Seq<Seq<u8>>) -> Seq<u8>
    decreases parts.len(),
{
    if parts.len() == 0 {
        Seq::empty()
    } else {
        concat(parts.drop_last()) + parts.last()
    }
}

/// The bits of a number moved down by two places, the lowest to the top.
pub open spec fn rotated(x: u64) -> u64 {
    (x >> 2u64) | (x << 62u64)
}

/// A number made of the lengths of the parts, which tells apart lists of parts
/// that read the same one behind the other.
pub open spec fn length_mix(parts: Seq<Seq<u8>>) -> u64
    decreases parts.len(),
{
    if parts.len() == 0 {
        0
    } else {
        rotated(u64::wrapping_add(length_mix(parts.drop_last()), parts.last().len() as u64))
    }
}

/// What a path writes.
pub open spec fn path_stream(p: Seq<u8>) -> Seq<u8> {
    concat(hashed_parts(p)) + spec_u64_to_le_bytes(length_mix(hashed_parts(p)))
}

/// Different spellings of a path write the same.
pub proof fn path_stream_ignores_spelling(p: Seq<u8>, q: Seq<u8>)
    requires
        same_path(p, q),
    ensures
        path_stream(p) == path_stream(q),
{
    absolute_by_components(p);
    absolute_by_components(q);
}

/// Collects what is to be hashed.
#[derive(Debug)]
pub struct StableHasher {
    bytes: Vec<u8>,
}

impl View for StableHasher {
    type V = Seq<u8>;

    closed spec fn view(&self) -> Seq<u8> {
        self.bytes@
    }
}

impl StableHasher {
    /// A hasher that nothing has been written to.
    pub fn new() -> (r: Self)
        ensures
            r@ == Seq::<u8>::empty(),
    {
        StableHasher { bytes: Vec::new() }
    }

    /// Writes bytes as they are.
    pub fn write(&mut self, bytes: &[u8])
        ensures
            final(self)@ == old(self)@ + bytes@,
    {
        append_bytes(&mut self.bytes, bytes);
    }

    /// Writes one byte.
    pub fn write_u8(&mut self, b: u8)
        ensures
            final(self)@ == old(self)@ + seq![b],
    {
        self.bytes.push(b);
        assert(self@ =~= old(self)@ + seq![b]);
    }

    /// Writes a 16-bit number, lowest byte first.
    pub fn write_u16(&mut self, x: u16)
        ensures
            final(self)@ == old(self)@ + spec_u16_to_le_bytes(x),
    {
        let bytes = u16_to_le_bytes(x);
        self.write(bytes.as_slice());
    }

    /// Writes a 32-bit number, lowest byte first.
    pub fn write_u32(&mut self, x: u32)
        ensures
            final(self)@ == old(self)@ + spec_u32_to_le_bytes(x),
    {
        let bytes = u32_to_le_bytes(x);
        self.write(bytes.as_slice());
    }

    /// Writes a 64-bit number, lowest byte first.
    pub fn write_u64(&mut self, x: u64)
        ensures
            final(self)@ == old(self)@ + spec_u64_to_le_bytes(x),
    {
        let bytes = u64_to_le_bytes(x);
        self.write(bytes.as_slice());
    }

    /// Writes a truth value.
    pub fn write_bool(&mut self, b: bool)
        ensures
            final(self)@ == old(self)@ + bool_stream(b),
    {
        if b {
            self.write_u8(1);
        } else {
            self.write_u8(0);
        }
    }

    /// Writes a number of elements.
    pub fn write_length_prefix(&mut self, n: usize)
        ensures
            final(self)@ == old(self)@ + len_stream(n as nat),
    {
        self.write_u64(n as u64);
    }

    /// Writes a text.
    pub fn write_str(&mut self, s: &str)
        ensures
            final(self)@ == old(self)@ + str_stream(s@),
    {
        self.write(s.as_bytes());
        self.write_u8(0xff);
        assert(self@ =~= old(self)@ + str_stream(s@));
    }

    /// Writes a byte string with its length.
    pub fn write_bytes(&mut self, s: &[u8])
        ensures
            final(self)@ == old(self)@ + bytes_stream(s@),
    {
        self.write_length_prefix(s.len());
        self.write(s);
        assert(self@ =~= old(self)@ + bytes_stream(s@));
    }

    /// Writes a path.
    pub fn write_path(&mut self, path: &PathBuf)
        ensures
            final(self)@ == old(self)@ + path_stream(path@),
    {
        let names = path.components();
        let skipped: usize = if path.is_absolute() {
            1
        } else {
            0
        };
        proof {
            lemma_spans(path@);
        }
        let ghost parts = hashed_parts(path@);
        let ghost before = self@;
        let mut mix: u64 = 0;
        let mut i: usize = skipped;
        assert(parts.take(0) =~= Seq::<Seq<u8>>::empty());
        assert(before + concat(parts.take(0)) =~= before);
        while i < names.len()
            invariant
                skipped <= i <= names@.len(),
                parts.len() == names@.len() - skipped,
                forall|k: int| 0 <= k < parts.len() ==> parts[k] == (#[trigger] names@[k + skipped])@,
                self@ == before + concat(parts.take(i - skipped)),
                mix == length_mix(parts.take(i - skipped)),
            decreases names@.len() - i,
        {
            let ghost j = i - skipped;
            proof {
                assert(names@[j + skipped] == names@[i as int]);
                assert(parts[j] == names@[i as int]@);
                assert(parts.take(j + 1).drop_last() =~= parts.take(j));
                assert(parts.take(j + 1).last() == parts[j]);
            }
            self.write(names[i].as_slice());
            let sum: u64 = mix.wrapping_add(names[i].len() as u64);
            mix = (sum >> 2u64) | (sum << 62u64);
            assert(self@ =~= before + concat(parts.take(j + 1)));
            i = i + 1;
        }
        assert(parts.take(i - skipped) =~= parts);
        self.write_u64(mix);
        assert(self@ =~= before + path_stream(path@));
    }

    /// The hash of all that was written.
    pub fn finish(&self) -> (r: u64)
        ensures
            r == stable_sip(self@),
    {
        hash_bytes(self.bytes.as_slice())
    }
}

/// A hash in hexadecimal, lowest byte first.
pub open spec fn short_hash_of(stream: Seq<u8>) -> Seq<char> {
    hex_text(spec_u64_to_le_bytes(stable_sip(stream)))
}

/// The hash of all that was written, in hexadecimal.
pub fn short_hash(hasher: &StableHasher) -> (r: String)
    ensures
        r@ == short_hash_of(hasher@),
{
    let bytes = u64_to_le_bytes(hasher.finish());
    hex_encode(bytes.as_slice())
}

} // verus!
