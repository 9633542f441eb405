//! The batch executor: running one shell command across a filtered
//! repository set, sequentially, optionally under an atomic transaction
//! that snapshots first and rolls back on the first failure.
//!
//! The engine decides; the embedding program performs.  It asks
//! [`BatchRun::next_project`] where to run next, runs the command there,
//! and hands the outcome back through [`BatchRun::record`]; in atomic mode
//! the run halts itself at the first failure.

use vstd::prelude::*;
use crate::clock::now_timestamp;
use crate::project::{filter_projects_by_tag, filter_view, spec_tag_pass, ProjectInfo};
use crate::snapshot::RestoreReport;
use crate::text::push_char;

verus! {

/// What happened when the command was attempted in one project.
pub enum CommandOutcome {
    /// The project path does not exist; nothing was run.
    MissingPath,
    /// The command ran to completion, successfully or not.
    Finished { success: bool, stdout: String, stderr: String },
    /// The command could not be launched at all.
    LaunchFailed { error: String },
}

/// The recorded result for one project of a batch run.
pub enum BatchItemResult {
    Ran { project: String, success: bool, stdout: String, stderr: String },
    Failed { project: String, error: String },
}

/// Whether an outcome counts as a success.
pub open spec fn outcome_success(oc: CommandOutcome) -> bool {
    match oc {
        CommandOutcome::Finished { success, .. } => success,
        _ => false,
    }
}

/// The project a recorded result speaks of.
pub open spec fn item_project(r: BatchItemResult) -> Seq<char> {
    match r {
        BatchItemResult::Ran { project, .. } => project@,
        BatchItemResult::Failed { project, .. } => project@,
    }
}

/// Whether a recorded result counts as a success.
pub open spec fn item_success(r: BatchItemResult) -> bool {
    match r {
        BatchItemResult::Ran { success, .. } => success,
        BatchItemResult::Failed { .. } => false,
    }
}

/// One batch run over the filtered project set, resolved once up front.
/// Projects are attempted in order; in atomic mode the run halts at the
/// first failure so that later projects are never attempted.
pub struct BatchRun {
    pub command: String,
    pub projects: Vec<ProjectInfo>,
    pub atomic: bool,
    pub results: Vec<BatchItemResult>,
    pub has_failure: bool,
    pub halted: bool,
}

impl BatchRun {
    /// The internal consistency of a run: one result per attempted project
    /// in order, the failure flag summarizing them, and fail-fast halting
    /// exactly in failed atomic runs.
    pub open spec fn wf(self) -> bool {
        &&& self.results@.len() <= self.projects@.len()
        &&& forall|k: int|
            0 <= k < self.results@.len() ==> item_project(#[trigger] self.results@[k])
                == self.projects@[k].name@
        &&& self.has_failure == exists|k: int|
            0 <= k < self.results@.len() && !item_success(#[trigger] self.results@[k])
        &&& self.halted == (self.atomic && self.has_failure)
    }

    /// Starts a batch run: resolves the tag-filtered project set once, with
    /// nothing attempted yet.
    pub fn new(
        command: String,
        projects: &Vec<ProjectInfo>,
        tag_filter: Option<&String>,
        atomic: bool,
    ) -> (r: BatchRun)
        ensures
            r.wf(),
            r.command@ == command@,
            r.atomic == atomic,
            r.results@.len() == 0,
            !r.has_failure,
            !r.halted,
            r.projects@.len() == projects@.filter(
                |p: ProjectInfo| spec_tag_pass(p.tags@, filter_view(tag_filter)),
            ).len(),
            forall|k: int|
                0 <= k < r.projects@.len() ==> {
                    let q = projects@.filter(
                        |p: ProjectInfo| spec_tag_pass(p.tags@, filter_view(tag_filter)),
                    )[k];
                    &&& (#[trigger] r.projects@[k]).name@ == q.name@
                    &&& r.projects@[k].path@ == q.path@
                    &&& r.projects@[k].tags@ == q.tags@
                },
    {
        let filtered = filter_projects_by_tag(projects, tag_filter);
        BatchRun {
            command,
            projects: filtered,
            atomic,
            results: Vec::new(),
            has_failure: false,
            halted: false,
        }
    }

    /// The name and path of the next project to run the command in, or
    /// `None` when the run is over: every project attempted, or halted by
    /// an atomic failure.
    pub fn next_project(&self) -> (r: Option<(String, String)>)
        requires
            self.wf(),
        ensures
            match r {
                Some(np) => {
                    &&& !self.halted
                    &&& self.results@.len() < self.projects@.len()
                    &&& np.0@ == self.projects@[self.results@.len() as int].name@
                    &&& np.1@ == self.projects@[self.results@.len() as int].path@
                },
                None => self.halted || self.results@.len() == self.projects@.len(),
            },
    {
        if self.halted || self.results.len() >= self.projects.len() {
            None
        } else {
            let p = &self.projects[self.results.len()];
            Some((p.name.clone(), p.path.clone()))
        }
    }

    /// Records the outcome of the current project and advances.  A missing
    /// path or a launch failure is recorded as a failure with its message;
    /// a finished command is recorded with its streams.  In atomic mode a
    /// failure halts the run.
    pub fn record(&mut self, outcome: CommandOutcome)
        requires
            old(self).wf(),
            !old(self).halted,
            old(self).results@.len() < old(self).projects@.len(),
        ensures
            final(self).wf(),
            final(self).command == old(self).command,
            final(self).projects == old(self).projects,
            final(self).atomic == old(self).atomic,
            final(self).results@.len() == old(self).results@.len() + 1,
            final(self).results@.take(old(self).results@.len() as int) == old(self).results@,
            final(self).has_failure == (old(self).has_failure || !outcome_success(outcome)),
            final(self).halted == (old(self).atomic && final(self).has_failure),
            ({
                let item = final(self).results@.last();
                let pname = old(self).projects@[old(self).results@.len() as int].name@;
                match outcome {
                    CommandOutcome::MissingPath => item matches BatchItemResult::Failed {
                        project,
                        error,
                    } && project@ == pname && error@ == "Path does not exist"@,
                    CommandOutcome::Finished { success, stdout, stderr } => item matches
                        BatchItemResult::Ran {
                        project,
                        success: rs,
                        stdout: ro,
                        stderr: re,
                    } && project@ == pname && rs == success && ro@ == stdout@ && re@ == stderr@,
                    CommandOutcome::LaunchFailed { error } => item matches
                        BatchItemResult::Failed {
                        project,
                        error: rerr,
                    } && project@ == pname && rerr@ == error@,
                }
            }),
    {
        let ghost r0 = self.results@;
        let name = self.projects[self.results.len()].name.clone();
        let failed = !matches!(&outcome, CommandOutcome::Finished { success: true, .. });
        let item = match outcome {
            CommandOutcome::MissingPath => BatchItemResult::Failed {
                project: name,
                error: "Path does not exist".to_owned(),
            },
            CommandOutcome::Finished { success, stdout, stderr } => BatchItemResult::Ran {
                project: name,
                success,
                stdout,
                stderr,
            },
            CommandOutcome::LaunchFailed { error } => BatchItemResult::Failed {
                project: name,
                error,
            },
        };
        self.results.push(item);
        if failed {
            self.has_failure = true;
        }
        if self.atomic && self.has_failure {
            self.halted = true;
        }
        proof {
            assert(self.results@.take(r0.len() as int) =~= r0);
            assert forall|k: int|
                0 <= k < self.results@.len() implies item_project(#[trigger] self.results@[k])
                == self.projects@[k].name@ by {
                if k < r0.len() {
                    assert(self.results@[k] == r0[k]);
                }
            }
            if self.has_failure {
                if old(self).has_failure {
                    let k = choose|k: int|
                        0 <= k < r0.len() && !item_success(#[trigger] r0[k]);
                    assert(!item_success(self.results@[k]));
                } else {
                    assert(!item_success(self.results@.last()));
                }
            } else {
                assert forall|k: int|
                    0 <= k < self.results@.len() implies item_success(
                    #[trigger] self.results@[k],
                ) by {
                    if k < r0.len() {
                        assert(self.results@[k] == r0[k]);
                        if !item_success(r0[k]) {
                            assert(old(self).has_failure);
                        }
                    }
                }
            }
        }
    }

    /// Whether the run must be rolled back: it was atomic and something
    /// failed.
    pub fn needs_rollback(&self) -> (r: bool)
        ensures
            r == (self.atomic && self.has_failure),
    {
        self.atomic && self.has_failure
    }

    /// Closes the run into its report.  `rollback` is the restore report of
    /// the pre-batch snapshot, present exactly when the run needed a
    /// rollback.
    pub fn finish(self, rollback: Option<RestoreReport>) -> (r: BatchReport)
        requires
            self.wf(),
            (rollback is Some) <==> (self.atomic && self.has_failure),
        ensures
            r.command == self.command,
            r.results == self.results,
            r.has_failure == self.has_failure,
            r.rolled_back == (self.atomic && self.has_failure),
            r.rollback_result == rollback,
    {
        let rolled_back = rollback.is_some();
        BatchReport {
            command: self.command,
            results: self.results,
            has_failure: self.has_failure,
            rolled_back,
            rollback_result: rollback,
        }
    }
}

/// What a batch run reports: the per-project outcomes in attempt order,
/// whether anything failed, and whether (and how) a rollback ran.  A
/// failed rollback is reported distinctly from a rollback never attempted:
/// `rolled_back` with its result says how it went; `rolled_back` false
/// means none was attempted.
pub struct BatchReport {
    pub command: String,
    pub results: Vec<BatchItemResult>,
    pub has_failure: bool,
    pub rolled_back: bool,
    pub rollback_result: Option<RestoreReport>,
}

/// The decimal spelling of a non-negative number.
pub open spec fn dec_str(n: int) -> Seq<char>
    decreases n,
{
    if n < 10 {
        seq![((48 + if 0 <= n { n } else { 0 }) as u8) as char]
    } else {
        dec_str(n / 10).push(((48 + n % 10) as u8) as char)
    }
}

/// The decimal spelling of an integer, minus sign included.
pub open spec fn dec_str_signed(n: int) -> Seq<char> {
    if n < 0 {
        seq!['-'] + dec_str(-n)
    } else {
        dec_str(n)
    }
}

/// The name of the automatic pre-batch snapshot taken at second `ts`.
pub open spec fn spec_batch_snapshot_name(ts: int) -> Seq<char> {
    "atomic-batch-"@ + dec_str_signed(ts)
}

/// The decimal spelling of `m`.
fn format_u64(m: u64) -> (r: String)
    ensures
        r@ == dec_str(m as int),
    decreases m,
{
    if m < 10 {
        let mut s = String::new();
        push_char(&mut s, ((48 + m) as u8) as char);
        proof {
            assert(s@ =~= dec_str(m as int));
        }
        s
    } else {
        let mut s = format_u64(m / 10);
        push_char(&mut s, ((48 + (m % 10)) as u8) as char);
        s
    }
}

/// The decimal spelling of `n`, minus sign included.
fn format_i64(n: i64) -> (r: String)
    ensures
        r@ == dec_str_signed(n as int),
{
    if n >= 0 {
        format_u64(n as u64)
    } else {
        let mag: u64 = ((-(n + 1)) as u64) + 1;
        proof {
            assert(mag == -(n as int));
        }
        let mut s = String::new();
        push_char(&mut s, '-');
        let digits = format_u64(mag);
        let r = s.concat(digits.as_str());
        proof {
            assert(s@ =~= seq!['-']);
            assert(r@ =~= seq!['-'] + dec_str(mag as int));
        }
        r
    }
}

/// A fresh name for the automatic snapshot taken before an atomic batch:
/// `atomic-batch-` followed by the current Unix timestamp.
pub fn fresh_batch_snapshot_name() -> (r: String)
    ensures
        exists|ts: int| r@ == #[trigger] spec_batch_snapshot_name(ts),
{
    let ts = now_timestamp();
    let suffix = format_i64(ts);
    let r = "atomic-batch-".to_owned().concat(suffix.as_str());
    proof {
        assert(r@ == spec_batch_snapshot_name(ts as int));
    }
    r
}

} // verus!
