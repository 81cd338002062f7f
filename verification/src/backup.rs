//! The job orchestrator: sizes the shared progress indicator with the
//! counting pre-pass, then runs one copy-engine walk per configured job.
//!
//! Each job's outcome is a function of that job's own input alone, so jobs
//! are independent units of work: a shell may run them concurrently, and one
//! job's failure (a missing source root, a conflicting destination entry)
//! never disturbs a sibling job's outcome. A failed job is reported in its
//! outcome and does not fail the orchestration as a whole.

use vstd::prelude::*;

use crate::tree::tree_view;
use crate::utils::{
    count_files, copy_recursive, dest_view, err_view, job_leaf_count, outcome_view, sync_model,
    total_leaf_count, ErrView, SyncError, SyncJob, SyncOutcome, SyncPlan,
};

verus! {

/// Ghost model of one job's run: a missing source root fails the job with
/// `SourceMissing` before anything is walked or ticked; otherwise the copy
/// engine walks the source root against the destination root.
pub open spec fn job_model(job: SyncJob, ex: Seq<Seq<Seq<char>>>) -> SyncPlan {
    match job.source {
        None => SyncPlan {
            dest: dest_view(job.dest),
            steps: Seq::empty(),
            error: Some(ErrView::SourceMissing { path: job.source_path.deep_view() }),
        },
        Some(src) => sync_model(
            tree_view(src),
            job.source_path.deep_view(),
            job.dest_path.deep_view().last(),
            job.overwrite,
            ex,
            dest_view(job.dest),
        ),
    }
}

/// Runs one backup job: fails it when its source root is missing, and
/// otherwise hands the root to the copy engine. Returns exactly what
/// `job_model` describes for this job alone, whatever its siblings do.
pub fn backup_to_ssd(job: SyncJob, exclude: &Vec<Vec<String>>) -> (r: SyncOutcome)
    requires
        job.source_path@.len() >= 1,
        job.dest_path@.len() >= 1,
    ensures
        outcome_view(r) == job_model(job, exclude.deep_view()),
{
    let ghost jm = job_model(job, exclude.deep_view());
    let SyncJob { source_path, dest_path, overwrite, source, dest } = job;
    match source {
        None => {
            let r = SyncOutcome {
                dest,
                actions: Vec::new(),
                error: Some(SyncError::SourceMissing { path: source_path }),
            };
            proof {
                assert(outcome_view(r) =~= jm);
            }
            r
        },
        Some(src) => {
            let dest_name = &dest_path[dest_path.len() - 1];
            let r = copy_recursive(&src, &source_path, dest_name, overwrite, exclude, dest);
            proof {
                assert(dest_path.deep_view().last() == dest_path@[dest_path@.len() - 1]@);
            }
            r
        },
    }
}

/// What one orchestration returns: the progress ceiling computed by the
/// counting pre-pass, and one outcome per job, in the jobs' order.
#[derive(Debug, PartialEq, Eq)]
pub struct BackupReport {
    pub total: u64,
    pub outcomes: Vec<SyncOutcome>,
}

/// Runs every configured backup job against one shared exclusion list.
/// The counting pre-pass sizes the progress ceiling first; each job is then
/// an independent unit whose outcome depends on its own input alone. A job's
/// failure is recorded in its outcome and aborts nothing else: the report
/// always carries one outcome per job.
pub fn execute_backup(jobs: Vec<SyncJob>, exclude: &Vec<Vec<String>>) -> (r: BackupReport)
    requires
        total_leaf_count(jobs@) <= u64::MAX,
        forall|k: int| #![trigger jobs@[k]] 0 <= k < jobs@.len() ==> jobs@[k].source_path@.len()
            >= 1 && jobs@[k].dest_path@.len() >= 1,
    ensures
        r.total == total_leaf_count(jobs@),
        r.outcomes@.len() == jobs@.len(),
        forall|k: int| #![trigger r.outcomes@[k]] 0 <= k < jobs@.len() ==> outcome_view(
            r.outcomes@[k],
        ) == job_model(jobs@[k], exclude.deep_view()),
{
    let total = count_files(&jobs);
    let ghost jobs0 = jobs@;
    let mut rem = jobs;
    let mut outcomes: Vec<SyncOutcome> = Vec::new();
    while rem.len() > 0
        invariant
            outcomes@.len() + rem@.len() == jobs0.len(),
            rem@ == jobs0.subrange(outcomes@.len() as int, jobs0.len() as int),
            forall|k: int| #![trigger jobs0[k]] 0 <= k < jobs0.len() ==> jobs0[k].source_path@.len()
                >= 1 && jobs0[k].dest_path@.len() >= 1,
            forall|k: int| #![trigger outcomes@[k]] 0 <= k < outcomes@.len() ==> outcome_view(
                outcomes@[k],
            ) == job_model(jobs0[k], exclude.deep_view()),
        decreases rem@.len(),
    {
        let ghost i = outcomes@.len() as int;
        let job = rem.remove(0);
        proof {
            assert(job == jobs0[i]);
        }
        let o = backup_to_ssd(job, exclude);
        outcomes.push(o);
        proof {
            assert(rem@ =~= jobs0.subrange(outcomes@.len() as int, jobs0.len() as int));
        }
    }
    BackupReport { total, outcomes }
}

} // verus!
