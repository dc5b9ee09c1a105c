//! What variables are worth, told by the entries that set them.

use vstd::prelude::*;
use vstd::utf8::encode_utf8;

use crate::artifact_family::{
    command_value, edited_value, edits_of, first_unjoinable, joined, kept_names, kept_vars,
    lemma_with_values, own_vars, with_values, FamilyEnvironment,
};
use crate::environment::{
    encoded_vars, lemma_position, position, process_value, provisional_key_of, variable_value_of,
    visible_environment, visible_environment_keeps_last, visible_vars, EnvironmentModel,
};
use crate::order::{bytes_le, bytes_le_is_total_order, total_order};
use crate::sorted_map::{keys_ranked_unique, last_value, maps_to};
use crate::text::encode_utf8_injective;

verus! {

/// A variable of the process has the value of the first entry for its name.
pub proof fn process_value_is_the_first(vars: Seq<(Seq<u8>, Seq<u8>)>, name: Seq<u8>, k: int)
    ensures
        (forall|i: int| 0 <= i < vars.len() ==> (#[trigger] vars[i]).0 != name) ==> process_value(
            vars,
            name,
        ) is None,
        0 <= k < vars.len() && vars[k].0 == name && (forall|i: int|
            0 <= i < k ==> (#[trigger] vars[i]).0 != name) ==> process_value(vars, name) == Some(
            vars[k].1,
        ),
    decreases vars.len(),
{
    if vars.len() > 0 && vars[0].0 != name {
        let rest = vars.skip(1);
        process_value_is_the_first(rest, name, k - 1);
        assert forall|i: int| 0 <= i < rest.len() implies rest[i] == #[trigger] vars[i + 1] by {}
        if forall|i: int| 0 <= i < vars.len() ==> (#[trigger] vars[i]).0 != name {
            assert forall|i: int| 0 <= i < rest.len() implies (#[trigger] rest[i]).0 != name by {
                assert(vars[i + 1].0 != name);
            }
        }
        if 0 <= k < vars.len() && vars[k].0 == name && forall|i: int|
            0 <= i < k ==> (#[trigger] vars[i]).0 != name {
            assert(rest[k - 1] == vars[k]);
            assert forall|i: int| 0 <= i < k - 1 implies (#[trigger] rest[i]).0 != name by {
                assert(vars[i + 1].0 != name);
            }
        }
    }
}

/// The value of a variable: what is configured for it, and else what it is worth
/// in the process, where that is inherited.
pub proof fn configured_value_comes_first(e: EnvironmentModel, name: Seq<char>, k: int)
    requires
        forall|i: int, j: int|
            0 <= i < j < e.config.len() ==> (#[trigger] e.config[i]).0 != (
            #[trigger] e.config[j]).0,
    ensures
        0 <= k < e.config.len() && e.config[k].0 == name ==> variable_value_of(e, name) == Some(
            e.config[k].1,
        ),
        (forall|i: int| 0 <= i < e.config.len() ==> (#[trigger] e.config[i]).0 != name) ==> {
            &&& !e.inherit ==> variable_value_of(e, name) is None
            &&& e.inherit && (forall|i: int|
                0 <= i < e.process.len() ==> (#[trigger] e.process[i]).0 != encode_utf8(name))
                ==> variable_value_of(e, name) is None
            &&& e.inherit && 0 <= k < e.process.len() && e.process[k].0 == encode_utf8(name) && (
            forall|i: int|
                0 <= i < k ==> (#[trigger] e.process[i]).0 != encode_utf8(name))
                ==> variable_value_of(e, name) == Some(e.process[k].1)
        },
{
    lemma_position(e.config, name);
    if 0 <= k < e.config.len() && e.config[k].0 == name {
        let i = position(e.config, name)->0;
        assert(e.config[i].0 == e.config[k].0);
    }
    process_value_is_the_first(e.process, encode_utf8(name), k);
}

proof fn lemma_last_value(
    xs: Seq<(Seq<u8>, Seq<u8>)>,
    key: Seq<u8>,
    le: spec_fn(Seq<u8>, Seq<u8>) -> bool,
)
    requires
        total_order(le),
    ensures
        last_value(xs, key, le) is None ==> forall|i: int|
            0 <= i < xs.len() ==> (#[trigger] xs[i]).0 != key,
        last_value(xs, key, le) matches Some(v) ==> exists|k: int|
            0 <= k < xs.len() && #[trigger] xs[k] == (key, v) && forall|i: int|
                k < i < xs.len() ==> (#[trigger] xs[i]).0 != key,
    decreases xs.len(),
{
    if xs.len() > 0 {
        let init = xs.drop_last();
        let last = xs.last();
        lemma_last_value(init, key, le);
        assert(xs[xs.len() - 1] == last);
        assert((le(last.0, key) && le(key, last.0)) <==> last.0 == key) by {
            assert(le(key, key));
        }
        assert forall|i: int| 0 <= i < init.len() implies init[i] == #[trigger] xs[i] by {}
        if last.0 == key {
            assert(xs[xs.len() - 1] == (key, last.1));
        } else if last_value(init, key, le) is Some {
            let v = last_value(init, key, le)->0;
            let k = choose|k: int|
                0 <= k < init.len() && #[trigger] init[k] == (key, v) && forall|i: int|
                    k < i < init.len() ==> (#[trigger] init[i]).0 != key;
            assert(xs[k] == (key, v));
            assert forall|i: int| k < i < xs.len() implies (#[trigger] xs[i]).0 != key by {
                if i < init.len() {
                    assert(init[i].0 != key);
                }
            }
        } else {
            assert forall|i: int| 0 <= i < xs.len() implies (#[trigger] xs[i]).0 != key by {
                if i < init.len() {
                    assert(init[i].0 != key);
                }
            }
        }
    }
}

/// The environment that a build sees has each variable once, in the order of their
/// names: those configured, with their values, and of the others those of the
/// process, where these are inherited.
pub proof fn environment_shows_each_variable_once(
    e: EnvironmentModel,
    name: Seq<u8>,
    value: Seq<u8>,
)
    requires
        forall|i: int, j: int|
            0 <= i < j < e.config.len() ==> (#[trigger] e.config[i]).0 != (
            #[trigger] e.config[j]).0,
    ensures
        visible_environment(e).contains((name, value)) <==> {
            ||| exists|k: int|
                0 <= k < e.config.len() && encode_utf8((#[trigger] e.config[k]).0) == name
                    && e.config[k].1 == value
            ||| e.inherit && (forall|k: int|
                0 <= k < e.config.len() ==> encode_utf8((#[trigger] e.config[k]).0) != name)
                && exists|k: int|
                0 <= k < e.process.len() && #[trigger] e.process[k] == (name, value) && forall|
                    j: int,
                |
                    k < j < e.process.len() ==> (#[trigger] e.process[j]).0 != name
        },
        forall|i: int, j: int|
            0 <= i < j < visible_environment(e).len() ==> bytes_le(
                (#[trigger] visible_environment(e)[i]).0,
                (#[trigger] visible_environment(e)[j]).0,
            ) && visible_environment(e)[i].0 != visible_environment(e)[j].0,
{
    let le = |a: Seq<u8>, b: Seq<u8>| bytes_le(a, b);
    let all = visible_vars(e);
    let shown = visible_environment(e);
    let config = encoded_vars(e.config);
    let head = if e.inherit {
        e.process
    } else {
        Seq::empty()
    };
    assert(all == head + config);
    bytes_le_is_total_order();
    visible_environment_keeps_last(e);
    lemma_last_value(all, name, le);
    assert(le(name, name));
    assert(shown.contains((name, value)) <==> maps_to(shown, name, value, le)) by {
        if shown.contains((name, value)) {
            let k = choose|k: int| 0 <= k < shown.len() && shown[k] == (name, value);
            assert(le(shown[k].0, name) && le(name, shown[k].0));
        }
        if maps_to(shown, name, value, le) {
            let k = choose|k: int|
                0 <= k < shown.len() && le(#[trigger] shown[k].0, name) && le(name, shown[k].0)
                    && shown[k].1 == value;
            assert(shown[k] == (name, value));
        }
    }
    assert forall|i: int, j: int| 0 <= i < j < shown.len() implies bytes_le(
        (#[trigger] shown[i]).0,
        (#[trigger] shown[j]).0,
    ) && shown[i].0 != shown[j].0 by {
        assert(le(shown[i].0, shown[j].0) && !le(shown[j].0, shown[i].0));
    }
    assert forall|k: int| 0 <= k < config.len() implies all[head.len() + k] == (
        encode_utf8((#[trigger] e.config[k]).0),
        e.config[k].1,
    ) by {}
    if exists|k: int| 0 <= k < e.config.len() && encode_utf8((#[trigger] e.config[k]).0) == name {
        let k = choose|k: int|
            0 <= k < e.config.len() && encode_utf8((#[trigger] e.config[k]).0) == name;
        assert(all[head.len() + k].0 == name);
        let v = last_value(all, name, le)->0;
        let x = choose|x: int|
            0 <= x < all.len() && #[trigger] all[x] == (name, v) && forall|i: int|
                x < i < all.len() ==> (#[trigger] all[i]).0 != name;
        assert(x >= head.len() + k);
        let j = x - head.len();
        assert(all[head.len() + j] == (encode_utf8(e.config[j].0), e.config[j].1));
        encode_utf8_injective(e.config[k].0, e.config[j].0);
        assert(j == k);
        assert forall|i: int|
            0 <= i < e.config.len() && encode_utf8((#[trigger] e.config[i]).0) == name implies i
            == k by {
            encode_utf8_injective(e.config[i].0, e.config[k].0);
        }
    } else {
        assert forall|i: int| head.len() <= i < all.len() implies (#[trigger] all[i]).0 != name by {
            assert(all[head.len() + (i - head.len())] == (
                encode_utf8(e.config[i - head.len()].0),
                e.config[i - head.len()].1,
            ));
        }
        assert forall|i: int| 0 <= i < head.len() implies head[i] == #[trigger] all[i] by {}
        if last_value(all, name, le) is Some {
            let v = last_value(all, name, le)->0;
            let x = choose|x: int|
                0 <= x < all.len() && #[trigger] all[x] == (name, v) && forall|i: int|
                    x < i < all.len() ==> (#[trigger] all[i]).0 != name;
            assert(x < head.len());
            assert(e.process[x] == (name, v));
            assert forall|j: int| x < j < e.process.len() implies (#[trigger] e.process[j]).0
                != name by {
                assert(all[j] == e.process[j]);
            }
            if exists|k: int|
                0 <= k < e.process.len() && #[trigger] e.process[k] == (name, value) && forall|
                    j: int,
                |
                    k < j < e.process.len() ==> (#[trigger] e.process[j]).0 != name {
                let k = choose|k: int|
                    0 <= k < e.process.len() && #[trigger] e.process[k] == (name, value) && forall|
                        j: int,
                    |
                        k < j < e.process.len() ==> (#[trigger] e.process[j]).0 != name;
                assert(k == x);
            }
        } else {
            assert forall|k: int| 0 <= k < head.len() implies (#[trigger] head[k]).0 != name by {
                assert(all[k].0 != name);
            }
        }
    }
}

/// Builds that see the same variables with the same values share the key of the
/// whole environment, and no such key is that of the plain branch.
pub proof fn same_environment_has_one_key(a: EnvironmentModel, b: EnvironmentModel)
    requires
        forall|entry: (Seq<u8>, Seq<u8>)| #[trigger]
            visible_environment(a).contains(entry) <==> visible_environment(b).contains(entry),
    ensures
        provisional_key_of(a) == provisional_key_of(b),
        provisional_key_of(a) != 0,
{
    let le = |x: Seq<u8>, y: Seq<u8>| bytes_le(x, y);
    let x = visible_environment(a);
    let y = visible_environment(b);
    bytes_le_is_total_order();
    visible_environment_keeps_last(a);
    visible_environment_keeps_last(b);
    assert forall|key: Seq<u8>, value: Seq<u8>| #[trigger] maps_to(x, key, value, le) <==> maps_to(
        y,
        key,
        value,
        le,
    ) by {
        lemma_held(x, key, value, le);
        lemma_held(y, key, value, le);
    }
    keys_ranked_unique(x, y, le);
}

proof fn lemma_held(
    s: Seq<(Seq<u8>, Seq<u8>)>,
    key: Seq<u8>,
    value: Seq<u8>,
    le: spec_fn(Seq<u8>, Seq<u8>) -> bool,
)
    requires
        total_order(le),
    ensures
        maps_to(s, key, value, le) <==> s.contains((key, value)),
{
    assert(le(key, key));
    if s.contains((key, value)) {
        let k = choose|k: int| 0 <= k < s.len() && s[k] == (key, value);
        assert(le(s[k].0, key) && le(key, s[k].0));
    }
    if maps_to(s, key, value, le) {
        let k = choose|k: int|
            0 <= k < s.len() && le(#[trigger] s[k].0, key) && le(key, s[k].0) && s[k].1 == value;
        assert(s[k] == (key, value));
    }
}

/// Search paths are put one behind the other with a colon between two.
pub proof fn search_paths_are_joined_by_colons(paths: Seq<Seq<u8>>, more: Seq<u8>)
    ensures
        joined(Seq::empty()) == Seq::<u8>::empty(),
        joined(seq![more]) == more,
        paths.len() > 0 ==> joined(paths.push(more)) == joined(paths) + seq![58u8] + more,
{
    assert(paths.push(more).drop_last() =~= paths);
    if paths.len() > 0 {
        assert(joined(paths.push(more)) =~= joined(paths) + seq![58u8] + more);
    }
}

/// Search paths can be joined where none of them holds a colon, and else the first
/// that does is told.
pub proof fn first_path_with_a_colon_is_told(paths: Seq<Seq<u8>>)
    ensures
        first_unjoinable(paths) is None <==> forall|i: int|
            0 <= i < paths.len() ==> !(#[trigger] paths[i]).contains(58),
        first_unjoinable(paths) matches Some(p) ==> exists|i: int|
            0 <= i < paths.len() && #[trigger] paths[i] == p && p.contains(58) && forall|j: int|
                0 <= j < i ==> !(#[trigger] paths[j]).contains(58),
    decreases paths.len(),
{
    if paths.len() > 0 {
        let init = paths.drop_last();
        first_path_with_a_colon_is_told(init);
        assert forall|i: int| 0 <= i < init.len() implies init[i] == #[trigger] paths[i] by {}
        if first_unjoinable(init) is Some {
            let p = first_unjoinable(init)->0;
            let i = choose|i: int|
                0 <= i < init.len() && #[trigger] init[i] == p && p.contains(58) && forall|j: int|
                    0 <= j < i ==> !(#[trigger] init[j]).contains(58);
            assert(paths[i] == p);
            assert forall|j: int| 0 <= j < i implies !(#[trigger] paths[j]).contains(58) by {
                assert(!init[j].contains(58));
            }
        } else {
            assert forall|j: int| 0 <= j < init.len() implies !(#[trigger] paths[j]).contains(
                58,
            ) by {
                assert(!init[j].contains(58));
            }
            assert(paths[paths.len() - 1] == paths.last());
        }
    }
}

proof fn lemma_edited_at(edits: Seq<(Seq<char>, Seq<u8>)>, name: Seq<char>, k: int)
    requires
        0 <= k < edits.len(),
        edits[k].0 == name,
        forall|i: int| k < i < edits.len() ==> (#[trigger] edits[i]).0 != name,
    ensures
        edited_value(edits, name) == Some(edits[k].1),
    decreases edits.len(),
{
    if edits.last().0 != name {
        let init = edits.drop_last();
        assert(init[k] == edits[k]);
        assert forall|i: int| k < i < init.len() implies (#[trigger] init[i]).0 != name by {
            assert(edits[i].0 != name);
        }
        lemma_edited_at(init, name, k);
    } else {
        assert(edits[edits.len() - 1] == edits.last());
    }
}

proof fn lemma_unedited(edits: Seq<(Seq<char>, Seq<u8>)>, name: Seq<char>)
    requires
        forall|i: int| 0 <= i < edits.len() ==> (#[trigger] edits[i]).0 != name,
    ensures
        edited_value(edits, name) is None,
    decreases edits.len(),
{
    if edits.len() > 0 {
        let init = edits.drop_last();
        assert forall|i: int| 0 <= i < init.len() implies (#[trigger] init[i]).0 != name by {
            assert(edits[i].0 != name);
        }
        lemma_unedited(init, name);
        assert(edits[edits.len() - 1] == edits.last());
    }
}

proof fn lemma_kept(process: Seq<(Seq<u8>, Seq<u8>)>, names: Seq<Seq<char>>, name: Seq<char>)
    ensures
        ({
            let kept = kept_vars(process, names);
            &&& edited_value(kept, name) == if names.contains(name) {
                process_value(process, encode_utf8(name))
            } else {
                None
            }
        }),
    decreases names.len(),
{
    if names.len() > 0 {
        let init = names.drop_last();
        lemma_kept(process, init, name);
        let before = kept_vars(process, init);
        let kept = kept_vars(process, names);
        assert(names[names.len() - 1] == names.last());
        assert(names.contains(name) <==> init.contains(name) || names.last() == name) by {
            if init.contains(name) {
                let i = choose|i: int| 0 <= i < init.len() && init[i] == name;
                assert(names[i] == name);
            }
            if names.contains(name) && names.last() != name {
                let i = choose|i: int| 0 <= i < names.len() && names[i] == name;
                assert(init[i] == name);
            }
        }
        if process_value(process, encode_utf8(names.last())) is Some {
            assert(kept.drop_last() =~= before);
        }
    }
}

proof fn lemma_edited_behind(
    a: Seq<(Seq<char>, Seq<u8>)>,
    b: Seq<(Seq<char>, Seq<u8>)>,
    name: Seq<char>,
)
    ensures
        edited_value(a + b, name) == match edited_value(b, name) {
            Some(value) => Some(value),
            None => edited_value(a, name),
        },
    decreases b.len(),
{
    if b.len() == 0 {
        assert(a + b =~= a);
    } else {
        assert((a + b).drop_last() =~= a + b.drop_last());
        lemma_edited_behind(a, b.drop_last(), name);
    }
}

/// What a variable is worth to a command that is run for a family. What the family
/// sets counts before all; then, for `PATH`, its search paths, where it has some.
/// Else the variable is worth what it is in the process, unless the family
/// clears the environment and the variable is not among the four that are kept.
pub proof fn command_sees_the_family_first(
    e: FamilyEnvironment,
    process: Seq<(Seq<u8>, Seq<u8>)>,
    name: Seq<char>,
    k: int,
)
    requires
        forall|i: int, j: int|
            0 <= i < j < e.set.len() ==> (#[trigger] e.set[i]).0 != (#[trigger] e.set[j]).0,
    ensures
        ({
            let seen = command_value(e.clear_inherited, edits_of(e, process), process, name);
            let set = exists|i: int| 0 <= i < e.set.len() && (#[trigger] e.set[i]).0 == name;
            &&& 0 <= k < e.set.len() && e.set[k].0 == name ==> seen == Some(encode_utf8(e.set[k].1))
            &&& !set && name == "PATH"@ && e.path.len() > 0 ==> seen == Some(joined(e.path))
            &&& !set && !(name == "PATH"@ && e.path.len() > 0) ==> seen == if !e.clear_inherited
                || name == "HOME"@ || name == "SCCACHE_DIR"@ || name == "TERM"@ || name
                == "TMPDIR"@ {
                process_value(process, encode_utf8(name))
            } else {
                None
            }
        }),
{
    let kept = if e.clear_inherited {
        kept_vars(process, kept_names())
    } else {
        Seq::empty()
    };
    let path = if e.path.len() > 0 {
        seq![("PATH"@, joined(e.path))]
    } else {
        Seq::empty()
    };
    let own = own_vars(e);
    let edits = edits_of(e, process);
    assert(edits == kept + path + own);
    lemma_edited_behind(kept + path, own, name);
    lemma_edited_behind(kept, path, name);
    if e.clear_inherited {
        lemma_kept(process, kept_names(), name);
        let four = kept_names();
        assert(four.contains(name) <==> name == "HOME"@ || name == "SCCACHE_DIR"@ || name
            == "TERM"@ || name == "TMPDIR"@) by {
            assert(four[0] == "HOME"@ && four[1] == "SCCACHE_DIR"@ && four[2] == "TERM"@ && four[3]
                == "TMPDIR"@);
        }
    } else {
        lemma_unedited(kept, name);
    }
    if path.len() > 0 && name == "PATH"@ {
        assert(path[0] == ("PATH"@, joined(e.path)));
        lemma_edited_at(path, name, 0);
    } else {
        lemma_unedited(path, name);
    }
    if exists|i: int| 0 <= i < e.set.len() && (#[trigger] e.set[i]).0 == name {
        let i = choose|i: int| 0 <= i < e.set.len() && (#[trigger] e.set[i]).0 == name;
        assert(own[i].0 == name);
        assert forall|j: int| i < j < own.len() implies (#[trigger] own[j]).0 != name by {
            assert(e.set[i].0 != e.set[j].0);
        }
        lemma_edited_at(own, name, i);
        assert forall|j: int| 0 <= j < e.set.len() && (#[trigger] e.set[j]).0 == name implies j
            == i by {}
    } else {
        assert forall|j: int| 0 <= j < own.len() implies (#[trigger] own[j]).0 != name by {
            assert(e.set[j].0 != name);
        }
        lemma_unedited(own, name);
    }
}

/// What a variable is worth among the inputs of a family's units: what the family
/// sets, and else, where the family does not clear the environment, what is
/// configured for it, and else what it is in the process.
pub proof fn inputs_see_the_family_first(
    e: FamilyEnvironment,
    configured: Seq<(Seq<char>, Seq<u8>)>,
    process: Seq<(Seq<u8>, Seq<u8>)>,
    name: Seq<char>,
)
    requires
        forall|i: int, j: int|
            0 <= i < j < configured.len() ==> (#[trigger] configured[i]).0 != (
            #[trigger] configured[j]).0,
    ensures
        ({
            let edits = edits_of(e, process);
            let base = if e.clear_inherited {
                Seq::empty()
            } else {
                configured
            };
            let seen = variable_value_of(
                EnvironmentModel {
                    config: with_values(base, edits),
                    process,
                    inherit: !e.clear_inherited,
                },
                name,
            );
            seen == match edited_value(edits, name) {
                Some(value) => Some(value),
                None => if e.clear_inherited {
                    None
                } else {
                    variable_value_of(
                        EnvironmentModel { config: configured, process, inherit: true },
                        name,
                    )
                },
            }
        }),
{
    let base = if e.clear_inherited {
        Seq::empty()
    } else {
        configured
    };
    lemma_with_values(base, edits_of(e, process), name);
    if e.clear_inherited {
        lemma_position(base, name);
    }
}

} // verus!
