//! The hasher against std's `Hash` and the stable SipHash it is built on.

use std::collections::BTreeMap;
use std::hash::{Hash, Hasher};
use std::path::Path;

use input_variants::hasher::{short_hash, StableHasher};
use input_variants::path_buf::PathBuf;
use rustc_stable_hash::StableSipHasher128;

fn reference<T: Hash + ?Sized>(value: &T) -> u64 {
    let mut hasher = StableSipHasher128::new();
    value.hash(&mut hasher);
    Hasher::finish(&hasher)
}

fn hashed_path(text: &str) -> u64 {
    let mut hasher = StableHasher::new();
    hasher.write_path(&PathBuf::new(text));
    hasher.finish()
}

#[test]
fn paths_hash_as_std_paths_do() {
    for text in [
        "", "/", ".", "..", "a", "a/b", "/a/b", "a//b/", "./a", "././a", "a/./b/.", "/./a", "//a",
        "a/../b", ".a/b.", "/target/debug/deps/libfoo.rlib", "./.", ".//a", "aa", "a/a", "/..",
        "debug/incremental/input-variant-package-unit-with-a-name-longer-than-one-buffer-of-bytes",
    ] {
        assert_eq!(hashed_path(text), reference(Path::new(text)), "{text:?}");
    }
}

#[test]
fn spellings_of_one_path_hash_alike() {
    assert_eq!(hashed_path("a/b"), hashed_path("a//./b/"));
    assert_ne!(hashed_path("a/b"), hashed_path("ab"));
}

#[test]
fn numbers_and_texts_hash_as_std_values_do() {
    let mut hasher = StableHasher::new();
    hasher.write_str("name");
    hasher.write_u64(7);
    hasher.write_u32(9);
    hasher.write_bool(true);
    assert_eq!(hasher.finish(), reference(&("name", 7u64, 9u32, true)));

    let mut hasher = StableHasher::new();
    hasher.write_length_prefix(2);
    hasher.write_str("one");
    hasher.write_str("two");
    assert_eq!(hasher.finish(), reference(&vec!["one".to_owned(), "two".to_owned()]));

    let mut hasher = StableHasher::new();
    hasher.write_bytes(b"raw\xff");
    assert_eq!(hasher.finish(), reference(&b"raw\xff"[..]));

    let mut hasher = StableHasher::new();
    hasher.write_length_prefix(2);
    hasher.write_u16(258);
    hasher.write_u16(3);
    assert_eq!(hasher.finish(), reference(&vec![258u16, 3]));

    let map: BTreeMap<String, String> =
        [("k".to_owned(), "v".to_owned()), ("l".to_owned(), String::new())].into_iter().collect();
    let mut hasher = StableHasher::new();
    hasher.write_length_prefix(2);
    for (key, value) in &map {
        hasher.write_str(key);
        hasher.write_str(value);
    }
    assert_eq!(hasher.finish(), reference(&map));

    let mut hasher = StableHasher::new();
    hasher.write_u8(0);
    hasher.write_u8(1);
    hasher.write_str("set");
    assert_eq!(hasher.finish(), reference(&(None::<String>, Some("set".to_owned()))));
}

#[test]
fn short_hashes_are_hexadecimal_lowest_byte_first() {
    let mut hasher = StableHasher::new();
    hasher.write_bool(true);
    let expected: String =
        hasher.finish().to_le_bytes().iter().map(|byte| format!("{byte:02x}")).collect();
    assert_eq!(short_hash(&hasher), expected);
    assert_eq!(short_hash(&hasher).len(), 16);
}
