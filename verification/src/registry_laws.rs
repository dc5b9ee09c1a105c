//! Where records are kept: what builds leave is where cleaning looks for it.

use vstd::bytes::{lemma_auto_spec_u64_to_from_le_bytes, spec_u64_to_le_bytes};
use vstd::prelude::*;
use vstd::utf8::{encode_utf8, is_ascii_chars_encode_utf8};

use crate::clean::{outputs_root, records_root};
use crate::hasher::{short_hash_of, stable_sip};
use crate::input_variant::{registry_place, registry_root, site_of};
use crate::locking::{publication_lock, publication_stream};
use crate::outputs::record_path_of;
use crate::path::{
    components, file_name, has_leading_dot, is_absolute, is_plain_name, join,
    joined_name_is_file_name, lemma_body, lemma_join, lemma_spans, spans, starts_with,
    starts_with_is_partial_order, stem_len, stem_of_name, with_extension,
};
use crate::path_laws::extension_changes_the_last_component_alone;
use crate::text::{
    digit_value, encode_utf8_injective, key_digits, key_digits_are_digits, key_digits_injective,
    key_digits_len, key_text_bytes,
};
use crate::variants::{InputSource, UnitHash};
use crate::walk::{is_json, json_name_is_json};

verus! {

pub(crate) proof fn lemma_joined_below(p: Seq<u8>, q: Seq<u8>)
    requires
        p.len() > 0,
        !is_absolute(q),
    ensures
        starts_with(join(p, q), p),
        join(p, q).len() > 0,
{
    lemma_join(p, q);
    assert(components(p).is_prefix_of(components(join(p, q)))) by {
        let all = components(join(p, q));
        assert(all.take(components(p).len() as int) =~= components(p));
    }
}

proof fn lemma_records_root(b: Seq<u8>)
    ensures
        join(registry_root(b), encode_utf8("records"@)) == records_root(b),
        records_root(b).len() > 0,
{
    reveal_strlit(".input-variants");
    reveal_strlit("v1");
    reveal_strlit("records");
    reveal_strlit(".input-variants/v1/records");
    is_ascii_chars_encode_utf8(".input-variants"@);
    is_ascii_chars_encode_utf8("v1"@);
    is_ascii_chars_encode_utf8("records"@);
    is_ascii_chars_encode_utf8(".input-variants/v1/records"@);
    let x = encode_utf8(".input-variants"@);
    let y = encode_utf8("v1"@);
    let z = encode_utf8("records"@);
    let all = encode_utf8(".input-variants/v1/records"@);
    assert(all =~= x + seq![47u8] + y + seq![47u8] + z);
    assert(x[0] == 46 && x.last() == 115);
    assert(y[0] == 118 && y.last() == 49);
    assert(z[0] == 114);
    assert(join(registry_root(b), z) =~= join(b, all));
}

proof fn lemma_place(source: InputSource, package: Seq<char>, id: UnitHash)
    requires
        !is_absolute(encode_utf8(package)),
    ensures
        ({
            let place = registry_place(source, package, id);
            let digits = key_digits(id.value);
            &&& !is_absolute(place)
            &&& place.len() > 16
            &&& place.skip(place.len() - 16) == digits
            &&& place[0] == match source {
                InputSource::BuildScriptEnv => 98u8,
                InputSource::RustcEnv => 114u8,
            }
        }),
{
    reveal_strlit("build-script-env");
    reveal_strlit("rustc-env");
    is_ascii_chars_encode_utf8("build-script-env"@);
    is_ascii_chars_encode_utf8("rustc-env"@);
    key_text_bytes(id.value);
    key_digits_len(id.value);
    lemma_digits_are_relative(id.value);
    let dir = encode_utf8(source.directory_name());
    let name = encode_utf8(package);
    let digits = key_digits(id.value);
    let head = join(dir, name);
    assert(dir.len() > 0);
    assert(head[0] == dir[0]);
    let place = join(head, digits);
    assert(place.skip(place.len() - 16) =~= digits);
}

proof fn lemma_digits_are_relative(key: u64)
    ensures
        !is_absolute(key_digits(key)),
{
    key_digits_are_digits(key);
    key_digits_len(key);
}

/// The records of a unit's variants are kept where cleaning looks for them.
pub proof fn variant_records_lie_where_cleaning_looks(
    build_root: Seq<u8>,
    package: Seq<char>,
    package_root: Seq<u8>,
    schema_id: UnitHash,
    context_id: UnitHash,
    source: InputSource,
    guarded: bool,
)
    requires
        encode_utf8(package).len() > 0 ==> encode_utf8(package)[0] != 47,
    ensures
        ({
            let site = site_of(
                build_root,
                package,
                package_root,
                schema_id,
                context_id,
                source,
                guarded,
            );
            &&& components(records_root(build_root)).is_prefix_of(components(site.records_dir))
            &&& site.schema_lock is Some <==> guarded
            &&& site.build_root == build_root
            &&& site.package_root == package_root
            &&& site.source == source
            &&& site.schema_id == schema_id
            &&& site.context_id == context_id
        }),
{
    lemma_records_root(build_root);
    lemma_place(source, package, schema_id);
    lemma_joined_below(records_root(build_root), registry_place(source, package, schema_id));
}

/// Units of one package whose records are kept in one place are one unit, with
/// inputs of one source.
pub proof fn variant_records_of_units_lie_apart(
    build_root: Seq<u8>,
    package: Seq<char>,
    package_root: Seq<u8>,
    context_id: UnitHash,
    guarded: bool,
    a: UnitHash,
    b: UnitHash,
    x: InputSource,
    y: InputSource,
)
    requires
        encode_utf8(package).len() > 0 ==> encode_utf8(package)[0] != 47,
        site_of(build_root, package, package_root, a, context_id, x, guarded).records_dir
            == site_of(build_root, package, package_root, b, context_id, y, guarded).records_dir,
    ensures
        a.value == b.value,
        x == y,
{
    lemma_records_root(build_root);
    lemma_place(x, package, a);
    lemma_place(y, package, b);
    key_digits_len(a.value);
    key_digits_len(b.value);
    lemma_join_injective(
        records_root(build_root),
        registry_place(x, package, a),
        registry_place(y, package, b),
    );
    key_digits_injective(a.value, b.value);
}

pub(crate) proof fn lemma_join_injective(root: Seq<u8>, p: Seq<u8>, q: Seq<u8>)
    requires
        !is_absolute(p),
        !is_absolute(q),
        join(root, p) == join(root, q),
    ensures
        p == q,
{
    let one = join(root, p);
    let n = one.len() - p.len();
    assert(one.skip(n) =~= p);
    assert(one.skip(n) =~= q);
}

/// The record of a unit's outputs is kept where cleaning looks for it.
pub proof fn output_records_lie_where_cleaning_looks(
    build_root: Seq<u8>,
    package: Seq<char>,
    unit: Seq<char>,
)
    requires
        encode_utf8(package).len() > 0 ==> encode_utf8(package)[0] != 47,
        encode_utf8(unit).len() > 0 && encode_utf8(unit)[0] != 47,
    ensures
        components(outputs_root(build_root)).is_prefix_of(
            components(record_path_of(build_root, package, unit)),
        ),
{
    reveal_strlit(".input-variants/v1/outputs");
    is_ascii_chars_encode_utf8(".input-variants/v1/outputs"@);
    let root = outputs_root(build_root);
    let dir = join(root, encode_utf8(package));
    let name = encode_utf8(unit) + encode_utf8(".json"@);
    assert(root.len() > 0);
    assert(name[0] == encode_utf8(unit)[0]);
    lemma_joined_below(root, encode_utf8(package));
    lemma_joined_below(dir, name);
    starts_with_is_partial_order(join(dir, name), dir, root);
}

/// The record of a unit's outputs is the JSON file with the unit's name, so that
/// units of one package never share one.
pub proof fn output_record_is_named_by_its_unit(
    build_root: Seq<u8>,
    package: Seq<char>,
    unit: Seq<char>,
    other: Seq<char>,
)
    requires
        is_plain_name(encode_utf8(unit)),
        is_plain_name(encode_utf8(other)),
    ensures
        file_name(record_path_of(build_root, package, unit)) == Some(
            encode_utf8(unit) + encode_utf8(".json"@),
        ),
        is_json(record_path_of(build_root, package, unit)),
        record_path_of(build_root, package, unit) == record_path_of(build_root, package, other)
            ==> unit == other,
{
    let dir = join(outputs_root(build_root), encode_utf8(package));
    let tail = encode_utf8(".json"@);
    let x = encode_utf8(unit) + tail;
    let y = encode_utf8(other) + tail;
    json_name_is_json(dir, encode_utf8(unit));
    json_name_is_json(dir, encode_utf8(other));
    assert(x[0] == encode_utf8(unit)[0] && y[0] == encode_utf8(other)[0]);
    if record_path_of(build_root, package, unit) == record_path_of(build_root, package, other) {
        lemma_join_injective(dir, x, y);
        assert(encode_utf8(unit) =~= x.take(x.len() - tail.len()));
        assert(encode_utf8(other) =~= y.take(y.len() - tail.len()));
        encode_utf8_injective(unit, other);
    }
}

proof fn lemma_short_hash(stream: Seq<u8>)
    ensures
        encode_utf8(short_hash_of(stream)).len() == 16,
        encode_utf8(short_hash_of(stream))[0] != 47,
{
    lemma_auto_spec_u64_to_from_le_bytes();
    let chars = short_hash_of(stream);
    assert(spec_u64_to_le_bytes(stable_sip(stream)).len() == 8);
    assert forall|i: int| 0 <= i < chars.len() implies #[trigger] (chars[i] as nat) < 128 by {}
    is_ascii_chars_encode_utf8(chars);
    assert(chars[0] as nat != 47);
}

/// The lock for publishing a destination lies in the target directory.
pub proof fn publication_lock_lies_in_the_target_dir(target_root: Seq<u8>, destination: Seq<u8>)
    requires
        target_root.len() > 0,
    ensures
        components(target_root).is_prefix_of(
            components(publication_lock(target_root, destination)),
        ),
{
    reveal_strlit(".cargo-artifact-locks/v1");
    is_ascii_chars_encode_utf8(".cargo-artifact-locks/v1"@);
    let dir = encode_utf8(".cargo-artifact-locks/v1"@);
    let hash = encode_utf8(short_hash_of(publication_stream(target_root, destination)));
    let name = hash + encode_utf8(".lock"@);
    lemma_joined_below(target_root, dir);
    lemma_short_hash(publication_stream(target_root, destination));
    assert(name[0] == hash[0]);
    lemma_joined_below(join(target_root, dir), name);
    starts_with_is_partial_order(
        publication_lock(target_root, destination),
        join(target_root, dir),
        target_root,
    );
}

proof fn lemma_digits_are_a_name(key: u64)
    ensures
        is_plain_name(key_digits(key)),
        stem_of_name(key_digits(key)) == key_digits(key),
{
    let digits = key_digits(key);
    key_digits_are_digits(key);
    key_digits_len(key);
    assert forall|i: int| 0 <= i < digits.len() implies #[trigger] digits[i] != 47 && digits[i]
        != 46 by {
        assert(digit_value(digits[i]) < 16);
    }
    assert(seq![46u8].len() == 1 && seq![46u8, 46u8].len() == 2);
    lemma_no_dot(digits, digits.len() - 1);
    assert(digits.take(digits.len() as int) =~= digits);
}

proof fn lemma_no_dot(name: Seq<u8>, i: int)
    requires
        -1 <= i < name.len(),
        forall|k: int| 0 <= k < name.len() ==> #[trigger] name[k] != 46,
    ensures
        stem_len(name, i) == name.len(),
    decreases i + 1,
{
    if i > 0 {
        lemma_no_dot(name, i - 1);
    }
}

proof fn lemma_named_place(root: Seq<u8>, source: InputSource, package: Seq<char>, id: UnitHash)
    requires
        root.len() > 0,
        !is_absolute(encode_utf8(package)),
    ensures
        file_name(join(root, registry_place(source, package, id))) == Some(key_digits(id.value)),
        file_name(registry_place(source, package, id)) == Some(key_digits(id.value)),
{
    reveal_strlit("build-script-env");
    reveal_strlit("rustc-env");
    is_ascii_chars_encode_utf8("build-script-env"@);
    is_ascii_chars_encode_utf8("rustc-env"@);
    key_text_bytes(id.value);
    lemma_digits_are_a_name(id.value);
    lemma_digits_are_relative(id.value);
    let dir = encode_utf8(source.directory_name());
    let head = join(dir, encode_utf8(package));
    let digits = key_digits(id.value);
    assert(dir.len() > 0 && head.len() > 0 && head[0] == dir[0]);
    joined_name_is_file_name(head, digits);
    joined_name_is_file_name(join(root, head), digits);
    let whole = join(root, head);
    assert(whole.last() == head.last());
    assert(join(root, join(head, digits)) =~= join(whole, digits));
}

/// The files of a unit are named by the hash of its schema: the directory of its
/// records is, the file of its schema is with `.json` behind it, and the file of
/// its lock with `.lock`.
pub proof fn files_of_a_unit_are_named_by_its_schema(
    build_root: Seq<u8>,
    package: Seq<char>,
    package_root: Seq<u8>,
    schema_id: UnitHash,
    context_id: UnitHash,
    source: InputSource,
    guarded: bool,
)
    requires
        encode_utf8(package).len() > 0 ==> encode_utf8(package)[0] != 47,
    ensures
        ({
            let site = site_of(
                build_root,
                package,
                package_root,
                schema_id,
                context_id,
                source,
                guarded,
            );
            let digits = key_digits(schema_id.value);
            &&& components(site.records_dir).last() == digits
            &&& components(site.schema_path).last() == digits + encode_utf8(".json"@)
            &&& site.schema_lock matches Some(lock) ==> components(lock).last() == digits
                + encode_utf8(".lock"@)
        }),
{
    let root = registry_root(build_root);
    let place = registry_place(source, package, schema_id);
    let digits = key_digits(schema_id.value);
    lemma_records_root(build_root);
    lemma_digits_are_a_name(schema_id.value);
    lemma_place(source, package, schema_id);
    lemma_texts();
    let json = encode_utf8("json"@);
    let lock = encode_utf8("lock"@);
    let schemas = join(root, encode_utf8("schemas"@));
    let locks = join(root, encode_utf8("locks"@));
    assert(schemas.len() > 0 && locks.len() > 0);
    lemma_named_place(records_root(build_root), source, package, schema_id);
    lemma_named_place(schemas, source, package, schema_id);
    extension_changes_the_last_component_alone(join(schemas, place), json);
    extension_changes_the_last_component_alone(place, lock);
    assert(digits + seq![46u8] + json =~= digits + encode_utf8(".json"@));
    assert(digits + seq![46u8] + lock =~= digits + encode_utf8(".lock"@));
    let moved = with_extension(place, lock);
    let c = components(moved);
    assert(c.last() == digits + seq![46u8] + lock);
    lemma_moved_place(source, package, schema_id, lock);
    lemma_join(locks, moved);
    lemma_body(moved);
    assert(components(join(locks, moved)).last() == c.last());
}

proof fn lemma_texts()
    ensures
        encode_utf8("json"@) == seq![106u8, 115u8, 111u8, 110u8],
        encode_utf8("lock"@) == seq![108u8, 111u8, 99u8, 107u8],
        encode_utf8(".json"@) == seq![46u8, 106u8, 115u8, 111u8, 110u8],
        encode_utf8(".lock"@) == seq![46u8, 108u8, 111u8, 99u8, 107u8],
        encode_utf8("schemas"@).len() == 7,
        encode_utf8("schemas"@)[0] == 115,
        encode_utf8("locks"@).len() == 5,
        encode_utf8("locks"@)[0] == 108,
{
    reveal_strlit("json");
    reveal_strlit("lock");
    reveal_strlit(".json");
    reveal_strlit(".lock");
    reveal_strlit("schemas");
    reveal_strlit("locks");
    is_ascii_chars_encode_utf8("json"@);
    is_ascii_chars_encode_utf8("lock"@);
    is_ascii_chars_encode_utf8(".json"@);
    is_ascii_chars_encode_utf8(".lock"@);
    is_ascii_chars_encode_utf8("schemas"@);
    is_ascii_chars_encode_utf8("locks"@);
    assert(encode_utf8("json"@) =~= seq![106u8, 115u8, 111u8, 110u8]);
    assert(encode_utf8("lock"@) =~= seq![108u8, 111u8, 99u8, 107u8]);
    assert(encode_utf8(".json"@) =~= seq![46u8, 106u8, 115u8, 111u8, 110u8]);
    assert(encode_utf8(".lock"@) =~= seq![46u8, 108u8, 111u8, 99u8, 107u8]);
}

/// The place with another extension is still a relative path that starts with a
/// name.
proof fn lemma_moved_place(source: InputSource, package: Seq<char>, id: UnitHash, ext: Seq<u8>)
    requires
        !is_absolute(encode_utf8(package)),
    ensures
        !is_absolute(with_extension(registry_place(source, package, id), ext)),
        !has_leading_dot(with_extension(registry_place(source, package, id), ext)),
{
    let place = registry_place(source, package, id);
    let moved = with_extension(place, ext);
    lemma_place(source, package, id);
    lemma_spans(place);
    lemma_digits_are_a_name(id.value);
    lemma_named_place(seq![46u8], source, package, id);
    let (s, e) = spans(place).last();
    assert(place.subrange(s, e) == key_digits(id.value));
    key_digits_len(id.value);
    assert(s + 16 == e);
    assert(moved[0] == place[0]);
}

} // verus!
