//! Renumbering of files whose names begin with a numeric identifier.
//!
//! The library has two components: a directory walker over an in-memory
//! model of a directory tree, and a renumbering engine that, per directory,
//! detects files sharing the same leading number and plans renames that move
//! the losing files to the next free number at or above a configured floor.
use vstd::prelude::*;

pub mod numbers;
pub mod parameters;
pub mod renumber;
pub mod walker;

use crate::renumber::PlanError;
use crate::renumber::RenameStep;
use crate::renumber::compute_plan;
use crate::renumber::plan_matches;
use crate::renumber::plan_ok;
use crate::walker::FileWalker;
use crate::walker::entries_model;
use crate::walker::spec_walk;
use crate::walker::clone_strings;

verus! {

/// One directory's outcome: its path and its rename plan, or the error for
/// that directory alone.
pub struct DirectoryPlan {
    /// Path components from the walk's root to the directory.
    pub path: Vec<String>,
    /// The directory's rename plan, or why none could be built there.
    pub plan: Result<Vec<RenameStep>, PlanError>,
}

/// Plan the renames for every directory of the tree, each from that
/// directory's own files alone: entry `k` of the result is exactly the plan
/// of `compute_plan` on the files that the walk reports for directory `k`,
/// under the same floor and keep-file, whatever any other directory holds.
/// A directory whose numbers are exhausted carries its error; the plans of
/// the other directories stand.
pub fn plan_tree(walker: &FileWalker, start: u32, keep_file: &Option<String>) -> (r: Vec<
    DirectoryPlan,
>)
    ensures
        ({
            let reports = spec_walk(seq![walker.root.name@], walker.root);
            let kv = keep_file.deep_view();
            &&& r@.len() == reports.len()
            &&& forall|k: int|
                0 <= k < reports.len() ==> {
                    &&& (#[trigger] r@[k]).path.deep_view() == reports[k].0
                    &&& (r@[k].plan is Ok <==> plan_ok(reports[k].2, kv, start as nat))
                    &&& (r@[k].plan matches Ok(p) ==> plan_matches(
                        p@,
                        reports[k].2,
                        kv,
                        start as nat,
                    ))
                }
        }),
{
    let ghost reports = spec_walk(seq![walker.root.name@], walker.root);
    let ghost kv = keep_file.deep_view();
    let entries = walker.walk();
    let mut r: Vec<DirectoryPlan> = Vec::new();
    let mut i: usize = 0;
    while i < entries.len()
        invariant
            entries_model(entries@) =~= reports,
            kv == keep_file.deep_view(),
            entries@.len() == reports.len(),
            0 <= i <= entries@.len(),
            r@.len() == i,
            forall|k: int|
                0 <= k < i ==> {
                    &&& (#[trigger] r@[k]).path.deep_view() == reports[k].0
                    &&& (r@[k].plan is Ok <==> plan_ok(reports[k].2, kv, start as nat))
                    &&& (r@[k].plan matches Ok(p) ==> plan_matches(
                        p@,
                        reports[k].2,
                        kv,
                        start as nat,
                    ))
                },
        decreases entries@.len() - i,
    {
        let e = &entries[i];
        proof {
            assert(entries_model(entries@)[i as int] == e.model());
        }
        let plan = compute_plan(&e.files, start, keep_file);
        let path = clone_strings(&e.path);
        proof {
            assert(path.deep_view() =~= e.path.deep_view());
        }
        r.push(DirectoryPlan { path, plan });
        i = i + 1;
    }
    r
}

} // verus!
