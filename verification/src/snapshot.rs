//! The snapshot store: point-in-time records of every repository's branch,
//! commit and dirtiness, the naming rules for their files, and the
//! per-project restore decisions.
//!
//! Reading and writing snapshot files, like running git itself, is left to
//! the embedding program; everything here works on plain values.

use vstd::prelude::*;
use crate::clock::now_rfc3339;
use crate::project::views;
use crate::text::{chars_of, str_eq, string_of};

verus! {

/// What one project looked like when a snapshot was taken.
pub struct ProjectSnapshot {
    pub name: String,
    pub path: String,
    pub branch: String,
    pub commit: String,
    pub is_dirty: bool,
}

/// One snapshot: a named, timestamped record of every project with a
/// working copy.
pub struct SnapshotRecord {
    pub name: String,
    pub created_at: String,
    pub description: Option<String>,
    pub meta_dir: String,
    pub projects: Vec<ProjectSnapshot>,
}

/// The lightweight index view of a snapshot: what listing reports.
pub struct SnapshotIndexEntry {
    pub name: String,
    pub created_at: String,
    pub description: Option<String>,
    pub projects_count: usize,
}

/// The raw git facts gathered for one project while taking a snapshot.
pub struct SnapshotProbe {
    pub name: String,
    pub path: String,
    /// Whether the project path exists and holds a `.git` directory.
    pub has_git: bool,
    pub branch: Option<String>,
    pub commit: Option<String>,
    pub status: Option<String>,
}

/// One character of a snapshot name, made safe for a file name.
pub open spec fn sanitize_char(c: char) -> char {
    if c == '/' || c == '\\' || c == ' ' {
        '_'
    } else {
        c
    }
}

/// A snapshot name with `/`, `\` and spaces replaced by `_`.
pub open spec fn spec_sanitize(s: Seq<char>) -> Seq<char> {
    s.map_values(|c: char| sanitize_char(c))
}

/// The filesystem-safe form of a snapshot name.
pub fn sanitize_snapshot_name(name: &str) -> (r: String)
    ensures
        r@ == spec_sanitize(name@),
{
    let cs = chars_of(name);
    let mut out: Vec<char> = Vec::new();
    let mut i: usize = 0;
    while i < cs.len()
        invariant
            i <= cs@.len(),
            cs@ == name@,
            out@ == spec_sanitize(name@.take(i as int)),
        decreases cs@.len() - i,
    {
        let c = cs[i];
        let sc: char = if c == '/' || c == '\\' || c == ' ' {
            '_'
        } else {
            c
        };
        out.push(sc);
        proof {
            assert(out@ =~= spec_sanitize(name@.take(i + 1 as int)));
        }
        i = i + 1;
    }
    proof {
        assert(name@.take(name@.len() as int) =~= name@);
    }
    string_of(&out)
}

/// The file name a snapshot is stored under: its sanitized name plus the
/// `.json` extension.
pub fn snapshot_file_name(name: &str) -> (r: String)
    ensures
        r@ == spec_sanitize(name@) + ".json"@,
{
    let s = sanitize_snapshot_name(name);
    s.concat(".json")
}

/// Whether `name` collides with a distinct existing snapshot name: the two
/// differ but sanitize to the same file name, so storing would silently
/// overwrite.  Callers reject or warn on such names instead of writing.
pub fn snapshot_name_collides(name: &str, existing: &Vec<String>) -> (r: bool)
    ensures
        r == exists|i: int|
            0 <= i < existing@.len() && spec_sanitize((#[trigger] existing@[i])@) == spec_sanitize(
                name@,
            ) && existing@[i]@ != name@,
{
    let sn = sanitize_snapshot_name(name);
    let mut i: usize = 0;
    while i < existing.len()
        invariant
            i <= existing@.len(),
            sn@ == spec_sanitize(name@),
            forall|k: int|
                0 <= k < i ==> !(spec_sanitize((#[trigger] existing@[k])@) == spec_sanitize(name@)
                    && existing@[k]@ != name@),
        decreases existing@.len() - i,
    {
        let se = sanitize_snapshot_name(existing[i].as_str());
        if str_eq(se.as_str(), sn.as_str()) && !str_eq(existing[i].as_str(), name) {
            return true;
        }
        i = i + 1;
    }
    false
}

/// Whether a probe enters the snapshot, and the recorded fields when it
/// does: only projects with a working copy are recorded; a failed branch or
/// commit probe records `unknown`, and a failed status probe records a
/// clean tree.
pub open spec fn probe_recorded(p: SnapshotProbe) -> bool {
    p.has_git
}

pub open spec fn probe_branch(p: SnapshotProbe) -> Seq<char> {
    match p.branch {
        Some(b) => b@,
        None => "unknown"@,
    }
}

pub open spec fn probe_commit(p: SnapshotProbe) -> Seq<char> {
    match p.commit {
        Some(c) => c@,
        None => "unknown"@,
    }
}

pub open spec fn probe_dirty(p: SnapshotProbe) -> bool {
    match p.status {
        Some(st) => st@.len() > 0,
        None => false,
    }
}

/// Assembles a snapshot record from the per-project probe results.
///
/// Projects without a working copy are silently excluded.  The creation
/// timestamp is read from the clock, so nothing is stated about it.
pub fn create_snapshot_record(
    name: &str,
    description: Option<&String>,
    meta_dir: &str,
    probes: &Vec<SnapshotProbe>,
) -> (r: SnapshotRecord)
    ensures
        r.name@ == name@,
        r.meta_dir@ == meta_dir@,
        match description {
            Some(d) => r.description matches Some(rd) && rd@ == d@,
            None => r.description is None,
        },
        r.projects@.len() == probes@.filter(|p: SnapshotProbe| probe_recorded(p)).len(),
        forall|k: int|
            0 <= k < r.projects@.len() ==> {
                let q = probes@.filter(|p: SnapshotProbe| probe_recorded(p))[k];
                &&& (#[trigger] r.projects@[k]).name@ == q.name@
                &&& r.projects@[k].path@ == q.path@
                &&& r.projects@[k].branch@ == probe_branch(q)
                &&& r.projects@[k].commit@ == probe_commit(q)
                &&& r.projects@[k].is_dirty == probe_dirty(q)
            },
{
    let ghost f = |p: SnapshotProbe| probe_recorded(p);
    let mut recorded: Vec<ProjectSnapshot> = Vec::new();
    let mut i: usize = 0;
    while i < probes.len()
        invariant
            i <= probes@.len(),
            f == (|p: SnapshotProbe| probe_recorded(p)),
            recorded@.len() == probes@.take(i as int).filter(f).len(),
            forall|k: int|
                0 <= k < recorded@.len() ==> {
                    let q = probes@.take(i as int).filter(f)[k];
                    &&& (#[trigger] recorded@[k]).name@ == q.name@
                    &&& recorded@[k].path@ == q.path@
                    &&& recorded@[k].branch@ == probe_branch(q)
                    &&& recorded@[k].commit@ == probe_commit(q)
                    &&& recorded@[k].is_dirty == probe_dirty(q)
                },
        decreases probes@.len() - i,
    {
        let p = &probes[i];
        proof {
            assert(probes@.take(i + 1 as int).drop_last() =~= probes@.take(i as int));
            assert(probes@.take(i + 1 as int).last() == probes@[i as int]);
            reveal(Seq::filter);
        }
        if p.has_git {
            let branch: String = match &p.branch {
                Some(b) => b.clone(),
                None => "unknown".to_owned(),
            };
            let commit: String = match &p.commit {
                Some(c) => c.clone(),
                None => "unknown".to_owned(),
            };
            let is_dirty: bool = match &p.status {
                Some(st) => !st.as_str().is_empty(),
                None => false,
            };
            recorded.push(ProjectSnapshot {
                name: p.name.clone(),
                path: p.path.clone(),
                branch,
                commit,
                is_dirty,
            });
            proof {
                assert(probes@.take(i + 1 as int).filter(f) =~= probes@.take(i as int).filter(
                    f,
                ).push(probes@[i as int]));
            }
        } else {
            proof {
                assert(probes@.take(i + 1 as int).filter(f) =~= probes@.take(i as int).filter(f));
            }
        }
        i = i + 1;
    }
    proof {
        assert(probes@.take(probes@.len() as int) =~= probes@);
    }
    SnapshotRecord {
        name: name.to_owned(),
        created_at: now_rfc3339(),
        description: match description {
            Some(d) => Some(d.clone()),
            None => None,
        },
        meta_dir: meta_dir.to_owned(),
        projects: recorded,
    }
}

/// The index view of one snapshot record.
pub fn snapshot_index_entry(rec: &SnapshotRecord) -> (r: SnapshotIndexEntry)
    ensures
        r.name@ == rec.name@,
        r.created_at@ == rec.created_at@,
        match rec.description {
            Some(ref d) => r.description matches Some(rd) && rd@ == d@,
            None => r.description is None,
        },
        r.projects_count == rec.projects@.len(),
{
    SnapshotIndexEntry {
        name: rec.name.clone(),
        created_at: rec.created_at.clone(),
        description: match &rec.description {
            Some(d) => Some(d.clone()),
            None => None,
        },
        projects_count: rec.projects.len(),
    }
}

/// The index view of a list of snapshot records, in order.
pub fn snapshot_index(recs: &Vec<SnapshotRecord>) -> (r: Vec<SnapshotIndexEntry>)
    ensures
        r@.len() == recs@.len(),
        forall|k: int|
            0 <= k < r@.len() ==> {
                &&& (#[trigger] r@[k]).name@ == recs@[k].name@
                &&& r@[k].created_at@ == recs@[k].created_at@
                &&& match recs@[k].description {
                    Some(d) => r@[k].description matches Some(rd) && rd@ == d@,
                    None => r@[k].description is None,
                }
                &&& r@[k].projects_count == recs@[k].projects@.len()
            },
{
    let mut r: Vec<SnapshotIndexEntry> = Vec::new();
    let mut i: usize = 0;
    while i < recs.len()
        invariant
            i <= recs@.len(),
            r@.len() == i,
            forall|k: int|
                0 <= k < i ==> {
                    &&& (#[trigger] r@[k]).name@ == recs@[k].name@
                    &&& r@[k].created_at@ == recs@[k].created_at@
                    &&& match recs@[k].description {
                        Some(d) => r@[k].description matches Some(rd) && rd@ == d@,
                        None => r@[k].description is None,
                    }
                    &&& r@[k].projects_count == recs@[k].projects@.len()
                },
        decreases recs@.len() - i,
    {
        r.push(snapshot_index_entry(&recs[i]));
        i = i + 1;
    }
    r
}

/// What to do for one recorded project during a restore.
#[derive(Debug, PartialEq, Eq, Structural, Clone, Copy)]
pub enum RestorePlan {
    /// The project path no longer exists; record a failure, touch nothing.
    FailPathMissing,
    /// The working copy has uncommitted changes and force was not given.
    FailDirty,
    /// Check out the recorded branch and hard-reset to the recorded commit,
    /// after a best-effort safety stash when the tree is dirty.
    Proceed { stash: bool },
}

/// The restore decision for one project, from its live facts.
pub open spec fn spec_plan(path_exists: bool, is_dirty: bool, force: bool) -> RestorePlan {
    if !path_exists {
        RestorePlan::FailPathMissing
    } else if is_dirty && !force {
        RestorePlan::FailDirty
    } else {
        RestorePlan::Proceed { stash: is_dirty }
    }
}

/// Decides what to do for one recorded project: a missing path or a dirty
/// unforced working copy is recorded as a failure and skipped; otherwise
/// the restore proceeds, stashing first exactly when the tree is dirty.
pub fn plan_project_restore(path_exists: bool, is_dirty: bool, force: bool) -> (r: RestorePlan)
    ensures
        r == spec_plan(path_exists, is_dirty, force),
{
    if !path_exists {
        RestorePlan::FailPathMissing
    } else if is_dirty && !force {
        RestorePlan::FailDirty
    } else {
        RestorePlan::Proceed { stash: is_dirty }
    }
}

/// How the git side of one project's restore went, as the embedding
/// program reports it.  A failed safety stash is not fatal and is not
/// reported here.
pub enum GitRestoreOutcome {
    CheckoutFailed(String),
    ResetFailed(String),
    Restored,
}

/// The recorded outcome for one project of a restore.
pub enum ProjectRestoreResult {
    Restored { name: String },
    Failed { name: String, error: String },
}

/// The project a restore outcome speaks of.
pub open spec fn result_name(r: ProjectRestoreResult) -> Seq<char> {
    match r {
        ProjectRestoreResult::Restored { name } => name@,
        ProjectRestoreResult::Failed { name, .. } => name@,
    }
}

/// Turns one project's plan and git outcome into its recorded result.
pub fn finish_project_restore(
    name: &String,
    plan: &RestorePlan,
    git: &Option<GitRestoreOutcome>,
) -> (r: ProjectRestoreResult)
    requires
        (*plan matches RestorePlan::Proceed { .. }) <==> (git is Some),
    ensures
        result_name(r) == name@,
        match plan {
            RestorePlan::FailPathMissing => r matches ProjectRestoreResult::Failed {
                name: _,
                error,
            } && error@ == "Path does not exist"@,
            RestorePlan::FailDirty => r matches ProjectRestoreResult::Failed { name: _, error }
                && error@ == "Has uncommitted changes (use force=true to override)"@,
            RestorePlan::Proceed { .. } => match git {
                Some(GitRestoreOutcome::CheckoutFailed(e)) => r matches
                    ProjectRestoreResult::Failed { name: _, error } && error@ == (
                "Failed to checkout: "@ + e@),
                Some(GitRestoreOutcome::ResetFailed(e)) => r matches ProjectRestoreResult::Failed {
                    name: _,
                    error,
                } && error@ == ("Failed to reset: "@ + e@),
                Some(GitRestoreOutcome::Restored) => r matches ProjectRestoreResult::Restored {
                    name: _,
                },
                None => false,
            },
        },
{
    match plan {
        RestorePlan::FailPathMissing => ProjectRestoreResult::Failed {
            name: name.clone(),
            error: "Path does not exist".to_owned(),
        },
        RestorePlan::FailDirty => ProjectRestoreResult::Failed {
            name: name.clone(),
            error: "Has uncommitted changes (use force=true to override)".to_owned(),
        },
        RestorePlan::Proceed { .. } => match git {
            Some(GitRestoreOutcome::CheckoutFailed(e)) => ProjectRestoreResult::Failed {
                name: name.clone(),
                error: "Failed to checkout: ".to_owned().concat(e.as_str()),
            },
            Some(GitRestoreOutcome::ResetFailed(e)) => ProjectRestoreResult::Failed {
                name: name.clone(),
                error: "Failed to reset: ".to_owned().concat(e.as_str()),
            },
            Some(GitRestoreOutcome::Restored) => ProjectRestoreResult::Restored {
                name: name.clone(),
            },
            None => ProjectRestoreResult::Restored { name: name.clone() },
        },
    }
}

/// The names restored so far, in order.
pub open spec fn restored_names(rs: Seq<ProjectRestoreResult>) -> Seq<Seq<char>>
    decreases rs.len(),
{
    if rs.len() == 0 {
        Seq::empty()
    } else {
        restored_names(rs.drop_last()) + match rs.last() {
            ProjectRestoreResult::Restored { .. } => seq![result_name(rs.last())],
            ProjectRestoreResult::Failed { .. } => Seq::empty(),
        }
    }
}

/// The name/error pairs of the failures, in order.
pub open spec fn failed_pairs(rs: Seq<ProjectRestoreResult>) -> Seq<(Seq<char>, Seq<char>)>
    decreases rs.len(),
{
    if rs.len() == 0 {
        Seq::empty()
    } else {
        failed_pairs(rs.drop_last()) + match rs.last() {
            ProjectRestoreResult::Restored { .. } => Seq::empty(),
            ProjectRestoreResult::Failed { name, error } => seq![(name@, error@)],
        }
    }
}

/// The overall outcome of a restore.
#[derive(Debug, PartialEq, Eq, Structural, Clone, Copy)]
pub enum RestoreStatus {
    Success,
    Partial,
}

/// What a restore reports: which projects were restored, which failed and
/// why, and whether every recorded project was restored.
pub struct RestoreReport {
    pub status: RestoreStatus,
    pub restored: Vec<String>,
    pub failed: Vec<(String, String)>,
    pub restored_count: usize,
    pub failed_count: usize,
}

/// Aggregates the per-project outcomes of a restore.  The status is
/// `Success` exactly when no project failed; restore is not atomic across
/// projects, so earlier successes stand whatever failed later.
pub fn restore_report(outcomes: &Vec<ProjectRestoreResult>) -> (r: RestoreReport)
    ensures
        views(r.restored@) == restored_names(outcomes@),
        r.failed@.map_values(|p: (String, String)| (p.0@, p.1@)) == failed_pairs(outcomes@),
        r.restored_count == r.restored@.len(),
        r.failed_count == r.failed@.len(),
        (r.status == RestoreStatus::Success) <==> failed_pairs(outcomes@).len() == 0,
        r.restored_count + r.failed_count == outcomes@.len(),
{
    proof {
        lemma_restore_partition(outcomes@);
    }
    let mut restored: Vec<String> = Vec::new();
    let mut failed: Vec<(String, String)> = Vec::new();
    let mut i: usize = 0;
    while i < outcomes.len()
        invariant
            i <= outcomes@.len(),
            views(restored@) == restored_names(outcomes@.take(i as int)),
            failed@.map_values(|p: (String, String)| (p.0@, p.1@)) == failed_pairs(
                outcomes@.take(i as int),
            ),
        decreases outcomes@.len() - i,
    {
        proof {
            assert(outcomes@.take(i + 1 as int).drop_last() =~= outcomes@.take(i as int));
            assert(outcomes@.take(i + 1 as int).last() == outcomes@[i as int]);
        }
        match &outcomes[i] {
            ProjectRestoreResult::Restored { name } => {
                let ghost r0 = views(restored@);
                restored.push(name.clone());
                proof {
                    assert(views(restored@) =~= r0.push(name@));
                    assert(views(restored@) =~= restored_names(outcomes@.take(i + 1 as int)));
                    assert(failed@.map_values(|p: (String, String)| (p.0@, p.1@)) =~= failed_pairs(
                        outcomes@.take(i + 1 as int),
                    ));
                }
            },
            ProjectRestoreResult::Failed { name, error } => {
                let ghost f0 = failed@.map_values(|p: (String, String)| (p.0@, p.1@));
                failed.push((name.clone(), error.clone()));
                proof {
                    assert(failed@.map_values(|p: (String, String)| (p.0@, p.1@)) =~= f0.push(
                        (name@, error@),
                    ));
                    assert(failed@.map_values(|p: (String, String)| (p.0@, p.1@)) =~= failed_pairs(
                        outcomes@.take(i + 1 as int),
                    ));
                    assert(views(restored@) =~= restored_names(outcomes@.take(i + 1 as int)));
                }
            },
        }
        i = i + 1;
    }
    proof {
        assert(outcomes@.take(outcomes@.len() as int) =~= outcomes@);
    }
    let status = if failed.len() == 0 {
        RestoreStatus::Success
    } else {
        RestoreStatus::Partial
    };
    proof {
        if failed@.len() == 0 {
            assert(failed@.map_values(|p: (String, String)| (p.0@, p.1@)).len() == 0);
        }
    }
    let rc = restored.len();
    let fc = failed.len();
    RestoreReport { status, restored, failed, restored_count: rc, failed_count: fc }
}

/// Every outcome is counted exactly once: a restore's report partitions
/// the recorded projects into the restored and the failed.
pub proof fn lemma_restore_partition(rs: Seq<ProjectRestoreResult>)
    ensures
        restored_names(rs).len() + failed_pairs(rs).len() == rs.len(),
    decreases rs.len(),
{
    if rs.len() > 0 {
        lemma_restore_partition(rs.drop_last());
    }
}

/// Restoring a snapshot onto an untouched workspace succeeds in full: for
/// every recorded project the plan is to proceed without stashing
/// (`spec_plan(true, false, force)` is `Proceed { stash: false }` by
/// definition), and when every git outcome is `Restored`, the aggregated
/// report fails nothing and restores every recorded project in order, so
/// its status is `Success` and each project keeps the recorded branch and
/// commit it was snapshotted with.
pub proof fn lemma_restore_round_trip(outcomes: Seq<ProjectRestoreResult>)
    requires
        forall|k: int|
            0 <= k < outcomes.len() ==> (#[trigger] outcomes[k]) matches
                ProjectRestoreResult::Restored { .. },
    ensures
        failed_pairs(outcomes).len() == 0,
        restored_names(outcomes).len() == outcomes.len(),
        forall|k: int|
            0 <= k < outcomes.len() ==> #[trigger] restored_names(outcomes)[k] == result_name(
                outcomes[k],
            ),
    decreases outcomes.len(),
{
    if outcomes.len() > 0 {
        let pre = outcomes.drop_last();
        lemma_restore_round_trip(pre);
        assert(restored_names(outcomes) == restored_names(pre) + seq![
            result_name(outcomes.last()),
        ]);
        assert forall|k: int| 0 <= k < outcomes.len() implies #[trigger] restored_names(
            outcomes,
        )[k] == result_name(outcomes[k]) by {
            if k < outcomes.len() - 1 {
                assert(restored_names(outcomes)[k] == restored_names(pre)[k]);
                assert(pre[k] == outcomes[k]);
            }
        }
    }
}

} // verus!
