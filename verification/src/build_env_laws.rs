//! What branches of build environments come to, told by records and variables
//! alone.

use vstd::bytes::{lemma_auto_spec_u64_to_from_le_bytes, spec_u64_to_le_bytes};
use vstd::prelude::*;
use vstd::utf8::{decode_utf8, encode_utf8, is_ascii_chars_encode_utf8, valid_utf8};

use crate::build_env_variants::{
    all_names, as_text, branch_stream, entry_fault, file_key, holds_now, loaded, matching_key,
    name_set, names_of, recorded, registry_dir_of, selected_key, text_values, variables_stream,
    BranchModel, LoadFault, RecordedModel,
};
use crate::environment::{variable_value_of, EnvironmentModel};
use crate::hasher::stable_sip;
use crate::order::{
    bytes_le, sorted_set_is_strictly_ranked, sorted_set_members, strictly_ranked_unique,
};
use crate::path::{components, join, starts_with_is_partial_order};
use crate::registry_laws::{lemma_join_injective, lemma_joined_below};
use crate::text::{
    key_digits, key_digits_injective, key_digits_len, key_text_bytes, text_le,
    text_le_is_total_order,
};
use crate::text_laws::key_is_written_in_lower_case;
use crate::variants::UnitHash;
use crate::walk::is_json;

verus! {

/// A recorded value is what the variable is worth now: its text, and nothing
/// where it is not set or is no text.
spec fn is_current(e: EnvironmentModel, name: Seq<char>, value: Option<Seq<char>>) -> bool {
    match variable_value_of(e, name) {
        Some(bytes) => if valid_utf8(bytes) {
            value == Some(decode_utf8(bytes))
        } else {
            value is None
        },
        None => value is None,
    }
}

spec fn all_current(e: EnvironmentModel, record: Seq<(Seq<char>, Option<Seq<char>>)>) -> bool {
    forall|j: int|
        0 <= j < record.len() ==> is_current(e, (#[trigger] record[j]).0, record[j].1)
}

proof fn lemma_holds_now(e: EnvironmentModel, record: Seq<(Seq<char>, Option<Seq<char>>)>)
    ensures
        holds_now(e, record) <==> all_current(e, record),
{
    let now = text_values(e, names_of(record));
    if holds_now(e, record) {
        assert forall|j: int| 0 <= j < record.len() implies is_current(
            e,
            (#[trigger] record[j]).0,
            record[j].1,
        ) by {
            assert(record[j] == now[j]);
        }
    }
    if all_current(e, record) {
        assert forall|j: int| 0 <= j < record.len() implies record[j] == #[trigger] now[j] by {
            assert(is_current(e, record[j].0, record[j].1));
        }
        assert(record =~= now);
    }
}

proof fn lemma_matching_key(
    e: EnvironmentModel,
    records: Seq<(u64, Seq<(Seq<char>, Option<Seq<char>>)>)>,
    i: int,
)
    ensures
        (forall|k: int| 0 <= k < records.len() ==> !all_current(e, (#[trigger] records[k]).1))
            ==> matching_key(e, records) is None,
        0 <= i < records.len() && all_current(e, records[i].1) && (forall|k: int|
            0 <= k < i ==> !all_current(e, (#[trigger] records[k]).1)) ==> matching_key(e, records)
            == Some(records[i].0),
    decreases records.len(),
{
    if records.len() > 0 {
        lemma_holds_now(e, records[0].1);
        let rest = records.skip(1);
        lemma_matching_key(e, rest, i - 1);
        assert forall|k: int| 0 <= k < rest.len() implies rest[k] == #[trigger] records[k + 1] by {}
        if forall|k: int| 0 <= k < records.len() ==> !all_current(e, (#[trigger] records[k]).1) {
            assert forall|k: int| 0 <= k < rest.len() implies !all_current(
                e,
                (#[trigger] rest[k]).1,
            ) by {
                assert(!all_current(e, records[k + 1].1));
            }
            assert(!all_current(e, records[0].1));
        }
        if 0 < i < records.len() && all_current(e, records[i].1) && forall|k: int|
            0 <= k < i ==> !all_current(e, (#[trigger] records[k]).1) {
            assert(rest[i - 1] == records[i]);
            assert(!all_current(e, records[0].1));
            assert forall|k: int| 0 <= k < i - 1 implies !all_current(
                e,
                (#[trigger] rest[k]).1,
            ) by {
                assert(!all_current(e, records[k + 1].1));
            }
        }
    }
}

/// The branch of a build is that of the first record all of whose variables are
/// worth now what they were.
pub proof fn branch_is_that_of_the_first_current_record(
    e: EnvironmentModel,
    records: Seq<(u64, Seq<(Seq<char>, Option<Seq<char>>)>)>,
    i: int,
)
    requires
        ({
            let current = |record: Seq<(Seq<char>, Option<Seq<char>>)>|
                forall|j: int|
                    0 <= j < record.len() ==> match variable_value_of(
                        e,
                        (#[trigger] record[j]).0,
                    ) {
                        Some(bytes) => if valid_utf8(bytes) {
                            record[j].1 == Some(decode_utf8(bytes))
                        } else {
                            record[j].1 is None
                        },
                        None => record[j].1 is None,
                    };
            &&& 0 <= i < records.len()
            &&& current(records[i].1)
            &&& forall|k: int| 0 <= k < i ==> !current((#[trigger] records[k]).1)
        }),
    ensures
        selected_key(e, records) == records[i].0,
{
    assert(all_current(e, records[i].1));
    assert forall|k: int| 0 <= k < i implies !all_current(e, (#[trigger] records[k]).1) by {}
    lemma_matching_key(e, records, i);
}

/// Where no record is current, the branch is the one of what all recorded
/// variables are worth now: the plain one where none is recorded, and else that
/// of their names, each once and in order, with their values.
pub proof fn branch_of_no_record_is_that_of_the_values(
    e: EnvironmentModel,
    records: Seq<(u64, Seq<(Seq<char>, Option<Seq<char>>)>)>,
    names: Seq<Seq<char>>,
    values: Seq<(Seq<char>, Option<Seq<char>>)>,
)
    requires
        ({
            let worth = |name: Seq<char>|
                match variable_value_of(e, name) {
                    Some(bytes) => if valid_utf8(bytes) {
                        Some(decode_utf8(bytes))
                    } else {
                        None
                    },
                    None => None,
                };
            &&& forall|i: int|
                0 <= i < records.len() ==> exists|j: int|
                    0 <= j < (#[trigger] records[i]).1.len() && worth(
                        (#[trigger] records[i].1[j]).0,
                    ) != records[i].1[j].1
            &&& forall|i: int, j: int|
                0 <= i < j < names.len() ==> bytes_le(
                    encode_utf8(#[trigger] names[i]),
                    encode_utf8(#[trigger] names[j]),
                ) && names[i] != names[j]
            &&& forall|name: Seq<char>| #[trigger]
                names.contains(name) <==> exists|i: int, j: int|
                    0 <= i < records.len() && 0 <= j < records[i].1.len() && (
                    #[trigger] records[i].1[j]).0 == name
            &&& values.len() == names.len()
            &&& forall|i: int|
                0 <= i < names.len() ==> #[trigger] values[i] == (names[i], worth(names[i]))
        }),
    ensures
        selected_key(e, records) == if names.len() == 0 {
            0
        } else {
            stable_sip(variables_stream(values))
        },
{
    let le = |a: Seq<char>, b: Seq<char>| text_le(a, b);
    assert forall|i: int| 0 <= i < records.len() implies !all_current(
        e,
        (#[trigger] records[i]).1,
    ) by {
        let record = records[i].1;
        let j = choose|j: int|
            0 <= j < record.len() && as_text(variable_value_of(e, (#[trigger] record[j]).0))
                != record[j].1;
        assert(!is_current(e, record[j].0, record[j].1));
    }
    lemma_matching_key(e, records, 0);
    text_le_is_total_order();
    let all = all_names(records);
    let own = name_set(all);
    sorted_set_members(all, le);
    sorted_set_is_strictly_ranked(all, le);
    assert forall|name: Seq<char>| #[trigger] names.contains(name) <==> own.contains(name) by {
        lemma_all_names(records, name);
    }
    assert forall|i: int, j: int| 0 <= i < j < names.len() implies le(
        #[trigger] names[i],
        #[trigger] names[j],
    ) && !le(names[j], names[i]) by {
        assert(bytes_le(encode_utf8(names[i]), encode_utf8(names[j])));
        if le(names[j], names[i]) {
            assert(le(names[i], names[j]));
        }
    }
    strictly_ranked_unique(names, own, le);
    assert(values =~= text_values(e, own));
}

proof fn lemma_all_names(
    records: Seq<(u64, Seq<(Seq<char>, Option<Seq<char>>)>)>,
    name: Seq<char>,
)
    ensures
        all_names(records).contains(name) <==> exists|i: int, j: int|
            0 <= i < records.len() && 0 <= j < records[i].1.len() && (#[trigger] records[i].1[j]).0
                == name,
    decreases records.len(),
{
    if records.len() > 0 {
        let init = records.drop_last();
        let last = records.last().1;
        let n = records.len() - 1;
        lemma_all_names(init, name);
        let before = all_names(init);
        let all = all_names(records);
        assert(records[n] == records.last());
        if all.contains(name) {
            let x = choose|x: int| 0 <= x < all.len() && all[x] == name;
            if x < before.len() {
                assert(before[x] == name);
                let (i, j) = choose|i: int, j: int|
                    0 <= i < init.len() && 0 <= j < init[i].1.len() && (#[trigger] init[i].1[j]).0
                        == name;
                assert(records[i].1[j].0 == name);
            } else {
                assert(records[n].1[x - before.len()].0 == name);
            }
        }
        if exists|i: int, j: int|
            0 <= i < records.len() && 0 <= j < records[i].1.len() && (#[trigger] records[i].1[j]).0
                == name {
            let (i, j) = choose|i: int, j: int|
                0 <= i < records.len() && 0 <= j < records[i].1.len() && (
                #[trigger] records[i].1[j]).0 == name;
            if i < n {
                assert(init[i].1[j].0 == name);
                let x = choose|x: int| 0 <= x < before.len() && before[x] == name;
                assert(all[x] == name);
            } else {
                assert(names_of(last)[j] == name);
                assert(all[before.len() + j] == name);
            }
        }
    }
}

/// What a build leaves: where it has observed no variable, nothing is kept of the
/// unit; else a record with its key in the file name, which has the variables
/// observed, each once and in order, with what they are worth.
pub proof fn build_records_what_it_observed(
    v: BranchModel,
    e: EnvironmentModel,
    names: Seq<Seq<char>>,
    name: Seq<char>,
)
    ensures
        names.len() == 0 ==> recorded(v, e, names) == RecordedModel::Removed(v.registry_dir),
        names.len() > 0 ==> (recorded(v, e, names) matches RecordedModel::Written(path, record) && {
            &&& path == join(v.registry_dir, key_digits(v.key) + encode_utf8(".json"@))
            &&& forall|j: int|
                0 <= j < record.len() ==> match variable_value_of(e, (#[trigger] record[j]).0) {
                    Some(bytes) => if valid_utf8(bytes) {
                        record[j].1 == Some(decode_utf8(bytes))
                    } else {
                        record[j].1 is None
                    },
                    None => record[j].1 is None,
                }
            &&& names.contains(name) <==> exists|j: int|
                0 <= j < record.len() && (#[trigger] record[j]).0 == name
            &&& forall|i: int, j: int|
                0 <= i < j < record.len() ==> bytes_le(
                    encode_utf8((#[trigger] record[i]).0),
                    encode_utf8((#[trigger] record[j]).0),
                ) && record[i].0 != record[j].0
        }),
{
    let le = |a: Seq<char>, b: Seq<char>| text_le(a, b);
    text_le_is_total_order();
    let own = name_set(names);
    let record = text_values(e, own);
    sorted_set_members(names, le);
    sorted_set_is_strictly_ranked(names, le);
    if own.len() > 0 {
        assert(own.contains(own[0]));
        assert(names.contains(own[0]));
    }
    if names.len() > 0 {
        assert(names.contains(names[0]));
        assert(own.contains(names[0]));
        if names.contains(name) {
            assert(own.contains(name));
            let j = choose|j: int| 0 <= j < own.len() && own[j] == name;
            assert(record[j].0 == name);
        }
        if exists|j: int| 0 <= j < record.len() && (#[trigger] record[j]).0 == name {
            let j = choose|j: int| 0 <= j < record.len() && (#[trigger] record[j]).0 == name;
            assert(own.contains(own[j]));
        }
        assert forall|i: int, j: int| 0 <= i < j < record.len() implies bytes_le(
            encode_utf8((#[trigger] record[i]).0),
            encode_utf8((#[trigger] record[j]).0),
        ) && record[i].0 != record[j].0 by {
            assert(le(own[i], own[j]) && !le(own[j], own[i]));
        }
    }
}

/// The file is none of the records', or has a key for its name and can be read.
spec fn is_right(entry: (Seq<u8>, Option<Seq<(Seq<char>, Option<Seq<char>>)>>)) -> bool {
    is_json(entry.0) ==> file_key(entry.0) is Some && entry.1 is Some
}

/// Records are loaded exactly where every record file has a key for its name and
/// can be read. Else the first that does not is told, and for what.
pub proof fn first_wrong_record_is_told(entries: Seq<(Seq<u8>, Option<Seq<(Seq<char>, Option<Seq<char>>)>>)>)
    ensures
        loaded(entries) is Ok <==> forall|i: int|
            0 <= i < entries.len() && is_json((#[trigger] entries[i]).0) ==> file_key(
                entries[i].0,
            ) is Some && entries[i].1 is Some,
        loaded(entries) matches Err(fault) ==> exists|i: int|
            0 <= i < entries.len() && is_json((#[trigger] entries[i]).0) && (forall|j: int|
                0 <= j < i && is_json((#[trigger] entries[j]).0) ==> file_key(
                    entries[j].0,
                ) is Some && entries[j].1 is Some) && if file_key(entries[i].0) is None {
                fault == LoadFault::InvalidKey(entries[i].0)
            } else {
                entries[i].1 is None && fault == LoadFault::Unreadable(entries[i].0)
            },
    decreases entries.len(),
{
    if entries.len() > 0 {
        let init = entries.drop_last();
        let n = entries.len() - 1;
        first_wrong_record_is_told(init);
        assert(entries[n] == entries.last());
        assert forall|i: int| 0 <= i < n implies init[i] == #[trigger] entries[i] by {}
        if loaded(init) is Err {
            let fault = loaded(init)->Err_0;
            let i = choose|i: int|
                0 <= i < init.len() && is_json((#[trigger] init[i]).0) && (forall|j: int|
                    0 <= j < i && is_json((#[trigger] init[j]).0) ==> file_key(
                        init[j].0,
                    ) is Some && init[j].1 is Some) && if file_key(init[i].0) is None {
                    fault == LoadFault::InvalidKey(init[i].0)
                } else {
                    init[i].1 is None && fault == LoadFault::Unreadable(init[i].0)
                };
            assert(entries[i] == init[i]);
            assert forall|j: int| 0 <= j < i && is_json((#[trigger] entries[j]).0) implies file_key(
                entries[j].0,
            ) is Some && entries[j].1 is Some by {
                assert(init[j] == entries[j]);
            }
            assert(!is_right(entries[i]));
        } else {
            assert forall|j: int| 0 <= j < n && is_json((#[trigger] entries[j]).0) implies file_key(
                entries[j].0,
            ) is Some && entries[j].1 is Some by {
                assert(init[j] == entries[j]);
            }
            if is_json(entries[n].0) {
                assert(entry_fault(entries[n]) is None <==> is_right(entries[n]));
            }
        }
    }
}

/// All records of a directory are loaded, each under the key in its file's name.
pub proof fn every_record_is_loaded(entries: Seq<(Seq<u8>, Option<Seq<(Seq<char>, Option<Seq<char>>)>>)>, i: int)
    requires
        loaded(entries) is Ok,
        0 <= i < entries.len(),
        is_json(entries[i].0),
    ensures
        file_key(entries[i].0) matches Some(key) && entries[i].1 matches Some(record)
            && loaded(entries)->Ok_0.contains((key, record)),
    decreases entries.len(),
{
    let init = entries.drop_last();
    let before = loaded(init)->Ok_0;
    let list = loaded(entries)->Ok_0;
    if i < init.len() {
        assert(init[i] == entries[i]);
        every_record_is_loaded(init, i);
        let pair = (file_key(init[i].0)->0, init[i].1->0);
        let x = choose|x: int| 0 <= x < before.len() && before[x] == pair;
        assert(list[x] == pair);
    } else {
        assert(list[before.len() as int] == (file_key(entries[i].0)->0, entries[i].1->0));
    }
}

/// Nothing is loaded but the records of the directory.
pub proof fn only_records_are_loaded(entries: Seq<(Seq<u8>, Option<Seq<(Seq<char>, Option<Seq<char>>)>>)>, k: int)
    requires
        loaded(entries) is Ok,
        0 <= k < loaded(entries)->Ok_0.len(),
    ensures
        exists|i: int|
            0 <= i < entries.len() && is_json((#[trigger] entries[i]).0) && file_key(entries[i].0)
                == Some(loaded(entries)->Ok_0[k].0) && entries[i].1 == Some(
                loaded(entries)->Ok_0[k].1,
            ),
    decreases entries.len(),
{
    let init = entries.drop_last();
    let before = loaded(init)->Ok_0;
    let list = loaded(entries)->Ok_0;
    let n = entries.len() - 1;
    assert(entries[n] == entries.last());
    if k < before.len() {
        only_records_are_loaded(init, k);
        assert(list[k] == before[k]);
        let i = choose|i: int|
            0 <= i < init.len() && is_json((#[trigger] init[i]).0) && file_key(init[i].0) == Some(
                before[k].0,
            ) && init[i].1 == Some(before[k].1);
        assert(entries[i] == init[i]);
    } else {
        assert(is_json(entries[n].0));
    }
}

/// The plain branch writes nothing to a hasher; any other writes its key, so that
/// branches that write the same are one.
pub proof fn branches_are_told_apart(a: BranchModel, b: BranchModel)
    ensures
        branch_stream(a).len() == 0 <==> a.key == 0,
        a.key != 0 ==> branch_stream(a) == spec_u64_to_le_bytes(a.key),
        branch_stream(a) == branch_stream(b) ==> a.key == b.key,
{
    lemma_auto_spec_u64_to_from_le_bytes();
    assert(spec_u64_to_le_bytes(a.key).len() == 8);
}

/// The branches of a unit are kept below the build directory, in a directory that
/// is named by the unit's hash, so that units of one package never share one.
pub proof fn units_keep_their_branches_apart(
    build_root: Seq<u8>,
    package: Seq<char>,
    a: UnitHash,
    b: UnitHash,
)
    requires
        build_root.len() > 0,
        encode_utf8(package).len() > 0 ==> encode_utf8(package)[0] != 47,
    ensures
        components(build_root).is_prefix_of(
            components(registry_dir_of(build_root, package, a)),
        ),
        registry_dir_of(build_root, package, a) == registry_dir_of(build_root, package, b)
            ==> a.value == b.value,
{
    reveal_strlit(".build-env-variants");
    is_ascii_chars_encode_utf8(".build-env-variants"@);
    key_text_bytes(a.value);
    key_text_bytes(b.value);
    key_digits_len(a.value);
    key_digits_len(b.value);
    key_is_written_in_lower_case(a.value, 0);
    key_is_written_in_lower_case(b.value, 0);
    let top = join(build_root, encode_utf8(".build-env-variants"@));
    let dir = join(top, encode_utf8(package));
    let x = key_digits(a.value);
    let y = key_digits(b.value);
    assert(encode_utf8(".build-env-variants"@)[0] == 46);
    lemma_joined_below(build_root, encode_utf8(".build-env-variants"@));
    lemma_joined_below(top, encode_utf8(package));
    lemma_joined_below(dir, x);
    starts_with_is_partial_order(join(dir, x), dir, top);
    starts_with_is_partial_order(join(dir, x), top, build_root);
    if join(dir, x) == join(dir, y) {
        lemma_join_injective(dir, x, y);
        key_digits_injective(a.value, b.value);
    }
}

} // verus!
