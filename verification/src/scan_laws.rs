//! What is found and measured in directories, told by their entries, and what a
//! cleaning command needs.

use vstd::prelude::*;
use vstd::utf8::{encode_utf8, is_ascii_chars_encode_utf8};

use crate::clean::variant_locks_of;
use crate::clean_command::{missing, plan_of, ArgsModel, Required};
use crate::path::{
    components, extension_behind_last_dot, extension_of_name, file_name, join, stem_len,
};
use crate::walk::{
    capped, directories, file_lengths, is_json, json_entries, node_size, sum, Entry, PathNode,
};

verus! {

/// Sizes add up one by one. A total that cannot be counted counts as the largest
/// number there is.
pub proof fn sizes_add_up(sizes: Seq<u64>, more: u64, n: nat)
    ensures
        sum(Seq::empty()) == 0,
        sum(sizes.push(more)) == sum(sizes) + more,
        n <= u64::MAX ==> capped(n) == n,
        n > u64::MAX ==> capped(n) == u64::MAX,
{
    assert(sizes.push(more).drop_last() =~= sizes);
}

/// The size of what is at a path: nothing where there is nothing, a length where
/// it is no directory, and else the lengths of all files in the directory's
/// tree. One more entry adds its length where it is a file, and else nothing.
pub proof fn size_is_that_of_all_files(entries: Seq<Entry>, more: Entry, node: PathNode)
    ensures
        node is Missing ==> node_size(node) == 0,
        node matches PathNode::Leaf { len } ==> node_size(node) == len,
        node matches PathNode::Directory { entries } ==> node_size(node) == capped(
            sum(file_lengths(entries@)),
        ),
        sum(file_lengths(Seq::empty())) == 0,
        sum(file_lengths(entries.push(more))) == sum(file_lengths(entries)) + if more.is_file {
            more.len as nat
        } else {
            0
        },
{
    assert(entries.push(more).drop_last() =~= entries);
    let before = file_lengths(entries);
    assert(before.push(more.len).drop_last() =~= before);
}

/// A directory is entered exactly where an entry says that it is one.
pub proof fn directories_are_entered(entries: Seq<(Seq<u8>, bool)>, path: Seq<u8>)
    ensures
        directories(entries).contains(path) <==> exists|k: int|
            0 <= k < entries.len() && #[trigger] entries[k] == (path, true),
    decreases entries.len(),
{
    if entries.len() > 0 {
        let init = entries.drop_last();
        directories_are_entered(init, path);
        let before = directories(init);
        let all = directories(entries);
        let n = entries.len() - 1;
        assert(entries[n] == entries.last());
        if all.contains(path) {
            let x = choose|x: int| 0 <= x < all.len() && all[x] == path;
            if x < before.len() {
                assert(before[x] == path);
                let k = choose|k: int| 0 <= k < init.len() && #[trigger] init[k] == (path, true);
                assert(entries[k] == (path, true));
            } else {
                assert(entries[n] == (path, true));
            }
        }
        if exists|k: int| 0 <= k < entries.len() && #[trigger] entries[k] == (path, true) {
            let k = choose|k: int| 0 <= k < entries.len() && #[trigger] entries[k] == (path, true);
            if k < n {
                assert(init[k] == (path, true));
                let x = choose|x: int| 0 <= x < before.len() && before[x] == path;
                assert(all[x] == path);
            } else {
                assert(all[before.len() as int] == path);
            }
        }
    }
}

/// A file is taken for a record exactly where an entry says that it is no directory
/// and it is a JSON file.
pub proof fn record_files_are_taken(entries: Seq<(Seq<u8>, bool)>, path: Seq<u8>)
    ensures
        json_entries(entries).contains(path) <==> (exists|k: int|
            0 <= k < entries.len() && #[trigger] entries[k] == (path, false)) && is_json(path),
    decreases entries.len(),
{
    if entries.len() > 0 {
        let init = entries.drop_last();
        record_files_are_taken(init, path);
        let before = json_entries(init);
        let all = json_entries(entries);
        let n = entries.len() - 1;
        assert(entries[n] == entries.last());
        if all.contains(path) {
            let x = choose|x: int| 0 <= x < all.len() && all[x] == path;
            if x < before.len() {
                assert(before[x] == path);
                let k = choose|k: int| 0 <= k < init.len() && #[trigger] init[k] == (path, false);
                assert(entries[k] == (path, false));
            } else {
                assert(entries[n] == (path, false));
            }
        }
        if (exists|k: int| 0 <= k < entries.len() && #[trigger] entries[k] == (path, false))
            && is_json(path) {
            let k = choose|k: int|
                0 <= k < entries.len() && #[trigger] entries[k] == (path, false);
            if k < n {
                assert(init[k] == (path, false));
                let x = choose|x: int| 0 <= x < before.len() && before[x] == path;
                assert(all[x] == path);
            } else {
                assert(all[before.len() as int] == path);
            }
        }
    }
}

proof fn lemma_stem_len(name: Seq<u8>, i: int)
    requires
        -1 <= i < name.len(),
    ensures
        stem_len(name, i) == name.len() || (0 < stem_len(name, i) <= i && name[stem_len(name, i)]
            == 46),
    decreases i + 1,
{
    if i > 0 && name[i] != 46 {
        lemma_stem_len(name, i - 1);
    }
}

/// A path is that of a JSON file exactly where its last component ends in `.json`,
/// behind at least one byte more.
pub proof fn json_file_is_told_by_its_end(path: Seq<u8>)
    ensures
        ({
            let c = components(path);
            is_json(path) <==> c.len() > 0 && c.last().len() > 5 && c.last().skip(
                c.last().len() - 5,
            ) == seq![46u8, 106u8, 115u8, 111u8, 110u8]
        }),
{
    let c = components(path);
    let end = seq![46u8, 106u8, 115u8, 111u8, 110u8];
    let ext = encode_utf8("json"@);
    reveal_strlit("json");
    is_ascii_chars_encode_utf8("json"@);
    assert(ext =~= seq![106u8, 115u8, 111u8, 110u8]);
    if is_json(path) {
        let name = file_name(path)->0;
        let k = stem_len(name, name.len() - 1);
        lemma_stem_len(name, name.len() - 1);
        assert(extension_of_name(name) == Some(ext));
        assert(name.skip(k + 1) == ext);
        assert(k == name.len() - 5);
        assert(name.skip(k) =~= end) by {
            assert forall|x: int| 0 < x < 5 implies name.skip(k)[x] == end[x] by {
                assert(name.skip(k + 1)[x - 1] == name[k + x]);
            }
        }
    }
    if c.len() > 0 && c.last().len() > 5 && c.last().skip(c.last().len() - 5) == end {
        let name = c.last();
        let n = name.len() - 5;
        assert(file_name(path) == Some(name)) by {
            assert(seq![47u8].len() == 1 && seq![46u8].len() == 1 && seq![46u8, 46u8].len() == 2);
        }
        assert forall|x: int| 0 <= x < 5 implies #[trigger] name[n + x] == end[x] by {
            assert(name.skip(n)[x] == name[n + x]);
        }
        assert(name =~= name.take(n) + seq![46u8] + ext) by {
            assert forall|x: int| n <= x < name.len() implies name[x] == (name.take(n) + seq![46u8]
                + ext)[x] by {
                assert(name[n + (x - n)] == end[x - n]);
            }
        }
        extension_behind_last_dot(name.take(n), ext);
    }
}

/// A cleaning command needs both directories and a limit of age or of size. What
/// it lacks is told all at once, each once and in that order.
pub proof fn command_tells_all_that_it_lacks(args: ArgsModel)
    ensures
        missing(args).contains(Required::BuildDir) <==> args.build_dir is None,
        missing(args).contains(Required::TargetDir) <==> args.target_dir is None,
        missing(args).contains(Required::Retention) <==> args.max_age is None
            && args.max_size is None,
        missing(args).len() == (if args.build_dir is None {
            1int
        } else {
            0
        }) + (if args.target_dir is None {
            1int
        } else {
            0
        }) + (if args.max_age is None && args.max_size is None {
            1int
        } else {
            0
        }),
        args.build_dir is None ==> missing(args)[0] == Required::BuildDir,
        args.max_age is None && args.max_size is None ==> missing(args).last()
            == Required::Retention,
{
    let all = missing(args);
    if args.build_dir is None {
        assert(all[0] == Required::BuildDir);
    }
    if args.target_dir is None {
        let i: int = if args.build_dir is None {
            1
        } else {
            0
        };
        assert(all[i] == Required::TargetDir);
    }
    if args.max_age is None && args.max_size is None {
        assert(all[all.len() - 1] == Required::Retention);
    }
}

/// What a complete command does: it cleans the directories given, each below the
/// current one unless it is absolute, by the limits given. It holds a lock in the
/// build directory, and one in the target directory where that is another place.
pub proof fn command_cleans_what_it_was_given(args: ArgsModel, current_dir: Seq<u8>)
    requires
        args.build_dir is Some,
        args.target_dir is Some,
    ensures
        ({
            let plan = plan_of(args, current_dir);
            let place = |p: Seq<u8>|
                if p.len() > 0 && p[0] == 47 {
                    p
                } else {
                    join(current_dir, p)
                };
            let lock = encode_utf8(".cargo-input-variants-lock"@);
            &&& plan.build_root == place(args.build_dir->0)
            &&& plan.target_root == place(args.target_dir->0)
            &&& plan.max_age == args.max_age
            &&& plan.max_size == args.max_size
            &&& plan.dry_run == args.dry_run
            &&& plan.locks.len() == if components(plan.build_root) == components(plan.target_root) {
                1int
            } else {
                2
            }
            &&& plan.locks[0] == join(plan.build_root, lock)
            &&& components(plan.build_root) != components(plan.target_root) ==> plan.locks[1]
                == join(plan.target_root, lock)
        }),
{
    assert(variant_locks_of(
        plan_of(args, current_dir).build_root,
        plan_of(args, current_dir).target_root,
    ) == plan_of(args, current_dir).locks);
}

} // verus!
