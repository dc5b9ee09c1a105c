//! The command that cleans retained variants: what it has to be given, and the
//! run that it leads to.

use vstd::prelude::*;

use crate::clean::{
    clean, less, outputs_root, start, variant_locks, variant_locks_of, Cleaner, Request,
    RequestModel,
};
use crate::order::views;
use crate::path::join;
use crate::path_buf::PathBuf;
use crate::path_set::optional_path;

verus! {

/// What the command was given. Ages are in seconds, sizes in bytes.
#[derive(Debug)]
pub struct CleanArgs {
    pub build_dir: Option<PathBuf>,
    pub target_dir: Option<PathBuf>,
    pub max_age: Option<u64>,
    pub max_size: Option<u64>,
    pub dry_run: bool,
}

/// What the command was given.
#[verifier::ext_equal]
pub struct ArgsModel {
    pub build_dir: Option<Seq<u8>>,
    pub target_dir: Option<Seq<u8>>,
    pub max_age: Option<u64>,
    pub max_size: Option<u64>,
    pub dry_run: bool,
}

impl View for CleanArgs {
    type V = ArgsModel;

    open spec fn view(&self) -> ArgsModel {
        ArgsModel {
            build_dir: optional_path(self.build_dir),
            target_dir: optional_path(self.target_dir),
            max_age: self.max_age,
            max_size: self.max_size,
            dry_run: self.dry_run,
        }
    }
}

/// What the command cannot do without: the two directories, and a limit on age
/// or on size. Both limits may be given.
#[derive(Clone, Copy, Debug, PartialEq, Eq, Structural)]
pub enum Required {
    BuildDir,
    TargetDir,
    Retention,
}

/// What is required and was not given.
pub open spec fn missing(args: ArgsModel) -> Seq<Required> {
    (if args.build_dir is None {
        seq![Required::BuildDir]
    } else {
        Seq::empty()
    }) + (if args.target_dir is None {
        seq![Required::TargetDir]
    } else {
        Seq::empty()
    }) + (if args.max_age is None && args.max_size is None {
        seq![Required::Retention]
    } else {
        Seq::empty()
    })
}

/// What the command is to do: the directories to clean, the locks to hold
/// meanwhile, in order, and the limits.
#[derive(Debug)]
pub struct CleanPlan {
    pub build_root: PathBuf,
    pub target_root: PathBuf,
    pub locks: Vec<PathBuf>,
    pub max_age: Option<u64>,
    pub max_size: Option<u64>,
    pub dry_run: bool,
}

/// What the command is to do.
#[verifier::ext_equal]
pub struct PlanModel {
    pub build_root: Seq<u8>,
    pub target_root: Seq<u8>,
    pub locks: Seq<Seq<u8>>,
    pub max_age: Option<u64>,
    pub max_size: Option<u64>,
    pub dry_run: bool,
}

impl View for CleanPlan {
    type V = PlanModel;

    open spec fn view(&self) -> PlanModel {
        PlanModel {
            build_root: self.build_root@,
            target_root: self.target_root@,
            locks: views(self.locks@),
            max_age: self.max_age,
            max_size: self.max_size,
            dry_run: self.dry_run,
        }
    }
}

/// The plan for arguments of which none is missing, given in this directory.
pub open spec fn plan_of(args: ArgsModel, current_dir: Seq<u8>) -> PlanModel {
    let build_root = join(current_dir, args.build_dir->0);
    let target_root = join(current_dir, args.target_dir->0);
    PlanModel {
        build_root,
        target_root,
        locks: variant_locks_of(build_root, target_root),
        max_age: args.max_age,
        max_size: args.max_size,
        dry_run: args.dry_run,
    }
}

/// Plans what the command is to do, or says what it was not given.
pub fn clean_variants(args: &CleanArgs, current_dir: &PathBuf) -> (r: Result<
    CleanPlan,
    Vec<Required>,
>)
    ensures
        r is Ok <==> missing(args@).len() == 0,
        r matches Ok(plan) ==> plan@ == plan_of(args@, current_dir@),
        r matches Err(names) ==> names@ == missing(args@),
{
    let mut names: Vec<Required> = Vec::new();
    if args.build_dir.is_none() {
        names.push(Required::BuildDir);
    }
    if args.target_dir.is_none() {
        names.push(Required::TargetDir);
    }
    if args.max_age.is_none() && args.max_size.is_none() {
        names.push(Required::Retention);
    }
    assert(names@ =~= missing(args@));
    if names.len() > 0 {
        return Err(names);
    }
    match (&args.build_dir, &args.target_dir) {
        (Some(build_dir), Some(target_dir)) => {
            let build_root = current_dir.join(build_dir);
            let target_root = current_dir.join(target_dir);
            let locks = variant_locks(&build_root, &target_root);
            Ok(
                CleanPlan {
                    build_root,
                    target_root,
                    locks,
                    max_age: args.max_age,
                    max_size: args.max_size,
                    dry_run: args.dry_run,
                },
            )
        },
        _ => Err(names),
    }
}

impl CleanPlan {
    /// Starts the run, once the locks are held.
    pub fn begin(&self, now: u64) -> (r: (Cleaner, Request))
        ensures
            r.0.well_formed(),
            r.0@ == start(
                self@.build_root,
                self@.target_root,
                match self@.max_age {
                    Some(age) => Some(less(now, age)),
                    None => None,
                },
                self@.max_size,
                self@.dry_run,
            ),
            r.1@ == RequestModel::List(outputs_root(self@.build_root)),
    {
        clean(
            &self.build_root,
            &self.target_root,
            now,
            self.max_age,
            self.max_size,
            self.dry_run,
        )
    }

    /// What is said of the paths in the report.
    pub fn action(&self) -> (r: &'static str)
        ensures
            r@ == if self@.dry_run {
                "Would remove"@
            } else {
                "Removed"@
            },
    {
        if self.dry_run {
            "Would remove"
        } else {
            "Removed"
        }
    }
}

} // verus!
