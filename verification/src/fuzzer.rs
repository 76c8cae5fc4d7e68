//! What is kept with each case of the corpus, and the checks and schedule
//! of a fuzzing run.
use std::collections::HashSet;
use vstd::prelude::*;

use crate::coverage::Coverages;
use crate::state_tracker::StateTrackers;

verus! {

/// What is kept with a case: its coverage, its state traces, whether it
/// passed, and the pcs its mutations touched, if recorded.
#[derive(Clone, Debug)]
pub struct CaseMetadata {
    pub covers: Coverages,
    pub state_trackers: StateTrackers,
    pub is_passed: bool,
    pub mutated_pcs: Option<HashSet<u64>>,
}

/// Why a fuzzing run was refused before it started.
#[derive(Clone, Copy, Debug, PartialEq, Eq, Structural)]
pub enum RunConfigError {
    ZeroIterations,
    ZeroCheckpointInterval,
    InitAndResume,
    NoInitNorResume,
}

/// A run needs iterations, a nonzero checkpoint interval if any, and
/// exactly one of an initial case and a session to resume.
pub fn check_run_config(
    max_iters: u64,
    checkpoint_interval: Option<u64>,
    has_init_case: bool,
    has_resume: bool,
) -> (r: Result<(), RunConfigError>)
    ensures
        r == (if max_iters == 0 {
            Err(RunConfigError::ZeroIterations)
        } else if checkpoint_interval == Some(0u64) {
            Err(RunConfigError::ZeroCheckpointInterval)
        } else if has_init_case && has_resume {
            Err(RunConfigError::InitAndResume)
        } else if !has_init_case && !has_resume {
            Err(RunConfigError::NoInitNorResume)
        } else {
            Ok(())
        }),
{
    if max_iters == 0 {
        return Err(RunConfigError::ZeroIterations);
    }
    if checkpoint_interval == Some(0u64) {
        return Err(RunConfigError::ZeroCheckpointInterval);
    }
    if has_init_case && has_resume {
        return Err(RunConfigError::InitAndResume);
    }
    if !has_init_case && !has_resume {
        return Err(RunConfigError::NoInitNorResume);
    }
    Ok(())
}

/// The count after one more completed iteration, and whether a checkpoint
/// is due after it.
pub open spec fn iteration_step(completed: int, interval: int) -> (int, bool) {
    (completed + 1, (completed + 1) % interval == 0)
}

/// One more completed iteration, and whether a checkpoint is due after
/// it; `None` when the count would overflow.
pub fn complete_iteration(completed_iters: u64, interval: u64) -> (r: Option<(u64, bool)>)
    requires
        interval > 0,
    ensures
        completed_iters == u64::MAX ==> r is None,
        completed_iters < u64::MAX ==> (r matches Some((n, due)) && n == iteration_step(
            completed_iters as int,
            interval as int,
        ).0 && due == iteration_step(completed_iters as int, interval as int).1),
{
    match completed_iters.checked_add(1) {
        None => None,
        Some(n) => Some((n, n % interval == 0)),
    }
}

/// The count after `k` iterations from `start`, one `iteration_step` each,
/// and the counts after which a checkpoint was due, in the order they came.
pub open spec fn run_schedule(start: int, k: nat, interval: int) -> (int, Seq<int>)
    decreases k,
{
    if k == 0 {
        (start, Seq::empty())
    } else {
        let prev = run_schedule(start, (k - 1) as nat, interval);
        let step = iteration_step(prev.0, interval);
        (step.0, if step.1 {
            prev.1.push(step.0)
        } else {
            prev.1
        })
    }
}

/// A run of `k` iterations from `start` completes `start + k` iterations,
/// and a checkpoint is due after exactly those counts in `(start, start + k]`
/// that are multiples of the interval, once each and in increasing order.
pub proof fn lemma_run_schedule(start: int, k: nat, interval: int)
    requires
        interval > 0,
    ensures
        run_schedule(start, k, interval).0 == start + k,
        forall|n: int|
            #![trigger run_schedule(start, k, interval).1.contains(n)]
            run_schedule(start, k, interval).1.contains(n) <==> (start < n <= start + k && n
                % interval == 0),
        forall|i: int, j: int|
            0 <= i < j < run_schedule(start, k, interval).1.len() ==> run_schedule(
                start,
                k,
                interval,
            ).1[i] < run_schedule(start, k, interval).1[j],
    decreases k,
{
    if k > 0 {
        let km = (k - 1) as nat;
        lemma_run_schedule(start, km, interval);
        let prev = run_schedule(start, km, interval).1;
        let cur = run_schedule(start, k, interval).1;
        let n_new = start + k;
        assert forall|i: int| 0 <= i < prev.len() implies #[trigger] prev[i] < n_new by {
            assert(prev.contains(prev[i]));
        }
        if n_new % interval == 0 {
            assert(cur == prev.push(n_new));
            assert forall|n: int| #[trigger] cur.contains(n) <==> (start < n <= start + k && n
                % interval == 0) by {
                if cur.contains(n) {
                    let idx = choose|idx: int| 0 <= idx < cur.len() && cur[idx] == n;
                    if idx < prev.len() {
                        assert(prev[idx] == n);
                        assert(prev.contains(n));
                    }
                }
                if start < n <= start + k && n % interval == 0 {
                    if n == n_new {
                        assert(cur[prev.len() as int] == n);
                    } else {
                        assert(prev.contains(n));
                        let idx = choose|idx: int| 0 <= idx < prev.len() && prev[idx] == n;
                        assert(cur[idx] == n);
                    }
                }
            }
        } else {
            assert(cur == prev);
            assert forall|n: int| #[trigger] cur.contains(n) <==> (start < n <= start + k && n
                % interval == 0) by {
                if n == n_new {
                    assert(!prev.contains(n)) by {
                        if prev.contains(n) {
                            let idx = choose|idx: int| 0 <= idx < prev.len() && prev[idx] == n;
                            assert(prev[idx] < n_new);
                        }
                    }
                }
            }
        }
    }
}

} // verus!
