use vstd::prelude::*;

use crate::args::{ArgsView, RmxArgs};
use crate::engine::{Policy, PARALLEL_THRESHOLD};

verus! {

/// What to do with one path given on the command line.
#[derive(Debug, Clone, Copy, PartialEq, Eq, Structural)]
pub enum Plan {
    /// The path does not exist, and force lets that go.
    Skip,
    /// The path does not exist: report it and stop.
    Missing,
    /// A directory was given without asking for recursion or for empty directories.
    IsDirectory,
    /// Remove the file, asking first when interactive.
    RemoveFile { interactive: bool },
    /// Remove the directory tree, asking first when interactive.
    RemoveTree { interactive: bool },
    /// Remove the directory, which must be empty.
    RemoveEmptyDir,
}

pub open spec fn planned(exists: bool, is_dir: bool, a: ArgsView) -> Plan {
    if !exists {
        if a.force {
            Plan::Skip
        } else {
            Plan::Missing
        }
    } else if is_dir {
        if a.recursive {
            Plan::RemoveTree { interactive: a.interactive }
        } else if a.dir {
            Plan::RemoveEmptyDir
        } else {
            Plan::IsDirectory
        }
    } else {
        Plan::RemoveFile { interactive: a.interactive }
    }
}

/// Chooses the operation for a path, from whether it exists, whether it is
/// a directory, and the options given.
pub fn plan_for(exists: bool, is_dir: bool, args: &RmxArgs) -> (r: Plan)
    ensures
        r == planned(exists, is_dir, args@),
{
    if !exists {
        if args.force {
            Plan::Skip
        } else {
            Plan::Missing
        }
    } else if is_dir {
        if args.recursive {
            Plan::RemoveTree { interactive: args.interactive }
        } else if args.dir {
            Plan::RemoveEmptyDir
        } else {
            Plan::IsDirectory
        }
    } else {
        Plan::RemoveFile { interactive: args.interactive }
    }
}

impl RmxArgs {
    /// The removal policy the options ask for.
    pub fn policy(&self) -> (r: Policy)
        ensures
            r == (Policy {
                verbose: self.verbose,
                force: self.force,
                parallel_threshold: PARALLEL_THRESHOLD,
            }),
    {
        Policy::new(self.verbose, self.force)
    }
}

} // verus!
