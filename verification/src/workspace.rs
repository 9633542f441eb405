//! The workspace-state summary: counts and histograms over the live facts
//! of every project with a working copy.

use vstd::prelude::*;
use crate::graph::count_str;
use crate::project::views;
use crate::text::str_eq;

verus! {

/// The raw facts gathered for one project while summarizing the workspace;
/// the embedding program passes one probe per project whose path exists.
pub struct RepoProbe {
    pub tags: Vec<String>,
    /// Whether the status probe succeeded, and whether it showed changes.
    pub dirty: Option<bool>,
    /// The branch, when that probe succeeded.
    pub branch: Option<String>,
    /// Ahead/behind counts, when that probe succeeded.
    pub ahead_behind: Option<(u32, u32)>,
}

/// What the summary reports.
pub struct WorkspaceStateSummary {
    pub total_projects: usize,
    pub dirty_projects: usize,
    pub clean_projects: usize,
    pub ahead_of_remote: usize,
    pub behind_remote: usize,
    pub projects_by_branch: Vec<(String, u64)>,
    pub projects_by_tag: Vec<(String, u64)>,
}

pub open spec fn probe_is_dirty(p: RepoProbe) -> bool {
    p.dirty == Some(true)
}

pub open spec fn probe_is_ahead(p: RepoProbe) -> bool {
    match p.ahead_behind {
        Some(ab) => ab.0 > 0,
        None => false,
    }
}

pub open spec fn probe_is_behind(p: RepoProbe) -> bool {
    match p.ahead_behind {
        Some(ab) => ab.1 > 0,
        None => false,
    }
}

/// How many probes reported a dirty working copy.
pub open spec fn count_dirty(probes: Seq<RepoProbe>) -> nat
    decreases probes.len(),
{
    if probes.len() == 0 {
        0
    } else {
        count_dirty(probes.drop_last()) + if probe_is_dirty(probes.last()) {
            1nat
        } else {
            0nat
        }
    }
}

/// How many probes reported commits ahead of the upstream.
pub open spec fn count_ahead(probes: Seq<RepoProbe>) -> nat
    decreases probes.len(),
{
    if probes.len() == 0 {
        0
    } else {
        count_ahead(probes.drop_last()) + if probe_is_ahead(probes.last()) {
            1nat
        } else {
            0nat
        }
    }
}

/// How many probes reported commits behind the upstream.
pub open spec fn count_behind(probes: Seq<RepoProbe>) -> nat
    decreases probes.len(),
{
    if probes.len() == 0 {
        0
    } else {
        count_behind(probes.drop_last()) + if probe_is_behind(probes.last()) {
            1nat
        } else {
            0nat
        }
    }
}

/// How many probes reported branch `b`.
pub open spec fn count_branch(probes: Seq<RepoProbe>, b: Seq<char>) -> nat
    decreases probes.len(),
{
    if probes.len() == 0 {
        0
    } else {
        count_branch(probes.drop_last(), b) + match probes.last().branch {
            Some(br) => if br@ == b {
                1nat
            } else {
                0nat
            },
            None => 0nat,
        }
    }
}

/// How many times tag `t` occurs across all probes, with multiplicity.
pub open spec fn count_tag(probes: Seq<RepoProbe>, t: Seq<char>) -> nat
    decreases probes.len(),
{
    if probes.len() == 0 {
        0
    } else {
        count_tag(probes.drop_last(), t) + count_str(views(probes.last().tags@), t)
    }
}

/// The total number of tag occurrences across all probes.
pub open spec fn total_tags(probes: Seq<RepoProbe>) -> nat
    decreases probes.len(),
{
    if probes.len() == 0 {
        0
    } else {
        total_tags(probes.drop_last()) + probes.last().tags@.len()
    }
}

/// Whether the histogram keys are pairwise distinct.
pub open spec fn hist_unique(m: Seq<(String, u64)>) -> bool {
    forall|i: int, j: int| 0 <= i < j < m.len() ==> (#[trigger] m[i]).0@ != (#[trigger] m[j]).0@
}

/// Whether the histogram holds key `k`.
pub open spec fn hist_has(m: Seq<(String, u64)>, k: Seq<char>) -> bool {
    exists|i: int| 0 <= i < m.len() && (#[trigger] m[i]).0@ == k
}

/// The count stored under key `k`, zero when absent.
pub open spec fn hist_val(m: Seq<(String, u64)>, k: Seq<char>) -> int {
    if hist_has(m, k) {
        m[choose|i: int| 0 <= i < m.len() && (#[trigger] m[i]).0@ == k].1 as int
    } else {
        0
    }
}

proof fn lemma_hist_index(m: Seq<(String, u64)>, k: Seq<char>)
    requires
        hist_unique(m),
        hist_has(m, k),
    ensures
        ({
            let i = choose|i: int| 0 <= i < m.len() && (#[trigger] m[i]).0@ == k;
            &&& 0 <= i < m.len()
            &&& m[i].0@ == k
            &&& forall|j: int| 0 <= j < m.len() && (#[trigger] m[j]).0@ == k ==> j == i
        }),
{
}

/// The position of `key` in the histogram, if present.
fn hist_find(m: &Vec<(String, u64)>, key: &String) -> (r: Option<usize>)
    ensures
        match r {
            Some(i) => i < m@.len() && m@[i as int].0@ == key@,
            None => !hist_has(m@, key@),
        },
{
    let mut idx: usize = 0;
    while idx < m.len()
        invariant
            idx <= m@.len(),
            forall|k: int| 0 <= k < idx ==> (#[trigger] m@[k]).0@ != key@,
        decreases m@.len() - idx,
    {
        if str_eq(m[idx].0.as_str(), key.as_str()) {
            return Some(idx);
        }
        idx = idx + 1;
    }
    None
}

/// Adds one occurrence of `key` to the histogram.
fn hist_add(m: &mut Vec<(String, u64)>, key: &String)
    requires
        hist_unique(old(m)@),
        hist_val(old(m)@, key@) < 0xffff_ffff_ffff_ffff,
    ensures
        hist_unique(final(m)@),
        forall|d: Seq<char>| #[trigger] hist_has(final(m)@, d) <==> hist_has(old(m)@, d) || d == key@,
        forall|d: Seq<char>|
            #[trigger] hist_val(final(m)@, d) == hist_val(old(m)@, d) + if d == key@ {
                1int
            } else {
                0int
            },
{
    let ghost m0 = m@;
    let found = hist_find(m, key);
    match found {
        Some(i) => {
            proof {
                lemma_hist_index(m0, key@);
            }
            let pair = m.remove(i);
            let count = pair.1 + 1;
            m.insert(i, (pair.0, count));
            proof {
                let ii = i as int;
                assert(m@ =~= m0.update(ii, m@[ii]));
                assert(m@[ii].0@ == key@);
                assert(m@[ii].1 == m0[ii].1 + 1);
                assert(hist_unique(m@)) by {
                    assert(forall|k: int| 0 <= k < m@.len() ==> (#[trigger] m@[k]).0@ == m0[k].0@);
                }
                assert forall|d: Seq<char>| #[trigger] hist_has(m@, d) <==> hist_has(m0, d) || d
                    == key@ by {
                    if hist_has(m@, d) {
                        let w = choose|w: int| 0 <= w < m@.len() && (#[trigger] m@[w]).0@ == d;
                        assert(m0[w].0@ == d);
                    }
                    if hist_has(m0, d) {
                        let w = choose|w: int| 0 <= w < m0.len() && (#[trigger] m0[w]).0@ == d;
                        assert(m@[w].0@ == d);
                    }
                    if d == key@ {
                        assert(m@[ii].0@ == d);
                    }
                }
                assert forall|d: Seq<char>|
                    #[trigger] hist_val(m@, d) == hist_val(m0, d) + if d == key@ {
                        1int
                    } else {
                        0int
                    } by {
                    if d == key@ {
                        lemma_hist_index(m@, d);
                        assert((choose|w: int|
                            0 <= w < m@.len() && (#[trigger] m@[w]).0@ == d) == ii);
                    } else {
                        if hist_has(m0, d) {
                            lemma_hist_index(m0, d);
                            lemma_hist_index(m@, d);
                            let w = choose|w: int| 0 <= w < m0.len() && (#[trigger] m0[w]).0@ == d;
                            assert(w != ii);
                            assert(m@[w].0@ == d);
                            assert(m@[w].1 == m0[w].1);
                        } else {
                            assert(!hist_has(m@, d));
                        }
                    }
                }
            }
        },
        None => {
            m.push((key.clone(), 1));
            proof {
                let ii = m0.len() as int;
                assert(m@ =~= m0.push(m@[ii]));
                assert(m@[ii].0@ == key@);
                assert(m@[ii].1 == 1);
                assert(!hist_has(m0, key@));
                assert(hist_unique(m@)) by {
                    assert forall|p: int, q: int| 0 <= p < q < m@.len() implies (
                    #[trigger] m@[p]).0@ != (#[trigger] m@[q]).0@ by {
                        if q < ii {
                            assert(m0[p].0@ != m0[q].0@);
                        } else {
                            assert(m@[q].0@ == key@);
                            assert(m0[p].0@ != key@);
                        }
                    }
                }
                assert forall|d: Seq<char>| #[trigger] hist_has(m@, d) <==> hist_has(m0, d) || d
                    == key@ by {
                    if hist_has(m@, d) {
                        let w = choose|w: int| 0 <= w < m@.len() && (#[trigger] m@[w]).0@ == d;
                        if w < ii {
                            assert(m0[w].0@ == d);
                        }
                    }
                    if hist_has(m0, d) {
                        let w = choose|w: int| 0 <= w < m0.len() && (#[trigger] m0[w]).0@ == d;
                        assert(m@[w].0@ == d);
                    }
                    if d == key@ {
                        assert(m@[ii].0@ == d);
                    }
                }
                assert forall|d: Seq<char>|
                    #[trigger] hist_val(m@, d) == hist_val(m0, d) + if d == key@ {
                        1int
                    } else {
                        0int
                    } by {
                    if d == key@ {
                        lemma_hist_index(m@, d);
                        assert((choose|w: int|
                            0 <= w < m@.len() && (#[trigger] m@[w]).0@ == d) == ii);
                        assert(hist_val(m@, d) == 1);
                        assert(hist_val(m0, d) == 0);
                    } else {
                        if hist_has(m0, d) {
                            lemma_hist_index(m0, d);
                            lemma_hist_index(m@, d);
                            let w = choose|w: int| 0 <= w < m0.len() && (#[trigger] m0[w]).0@ == d;
                            assert(m@[w].0@ == d);
                            assert(m@[w].1 == m0[w].1);
                        } else {
                            assert(!hist_has(m@, d));
                        }
                    }
                }
            }
        },
    }
}

proof fn lemma_count_branch_le(probes: Seq<RepoProbe>, b: Seq<char>)
    ensures
        count_branch(probes, b) <= probes.len(),
    decreases probes.len(),
{
    if probes.len() > 0 {
        lemma_count_branch_le(probes.drop_last(), b);
    }
}

proof fn lemma_count_tag_le(probes: Seq<RepoProbe>, t: Seq<char>)
    ensures
        count_tag(probes, t) <= total_tags(probes),
    decreases probes.len(),
{
    if probes.len() > 0 {
        lemma_count_tag_le(probes.drop_last(), t);
        lemma_count_str_le(views(probes.last().tags@), t);
    }
}

proof fn lemma_count_str_le(s: Seq<Seq<char>>, t: Seq<char>)
    ensures
        count_str(s, t) <= s.len(),
    decreases s.len(),
{
    if s.len() > 0 {
        lemma_count_str_le(s.drop_last(), t);
    }
}

proof fn lemma_total_tags_take(probes: Seq<RepoProbe>, i: int)
    requires
        0 <= i <= probes.len(),
    ensures
        total_tags(probes.take(i)) <= total_tags(probes),
    decreases probes.len() - i,
{
    if i < probes.len() {
        assert(probes.take(i + 1).drop_last() =~= probes.take(i));
        assert(probes.take(i + 1).last() == probes[i]);
        lemma_total_tags_take(probes, i + 1);
    } else {
        assert(probes.take(i) =~= probes);
    }
}

/// Summarizes the live state of the workspace from the per-project probes:
/// totals, dirty and divergence counts, and histograms of projects per
/// branch and per tag.  The bound on `total_tags` reflects that each tag
/// occurrence increments a 64-bit counter.
pub fn summarize_workspace(probes: &Vec<RepoProbe>) -> (r: WorkspaceStateSummary)
    requires
        total_tags(probes@) < 0xffff_ffff_ffff_ffff,
    ensures
        r.total_projects == probes@.len(),
        r.dirty_projects == count_dirty(probes@),
        r.clean_projects == probes@.len() - count_dirty(probes@),
        r.ahead_of_remote == count_ahead(probes@),
        r.behind_remote == count_behind(probes@),
        hist_unique(r.projects_by_branch@),
        forall|b: Seq<char>|
            #[trigger] hist_val(r.projects_by_branch@, b) == count_branch(probes@, b),
        forall|b: Seq<char>|
            #[trigger] hist_has(r.projects_by_branch@, b) ==> count_branch(probes@, b) > 0,
        hist_unique(r.projects_by_tag@),
        forall|t: Seq<char>| #[trigger] hist_val(r.projects_by_tag@, t) == count_tag(probes@, t),
        forall|t: Seq<char>| #[trigger] hist_has(r.projects_by_tag@, t) ==> count_tag(probes@, t) > 0,
{
    let mut dirty: usize = 0;
    let mut ahead: usize = 0;
    let mut behind: usize = 0;
    let mut by_branch: Vec<(String, u64)> = Vec::new();
    let mut by_tag: Vec<(String, u64)> = Vec::new();
    let mut i: usize = 0;
    while i < probes.len()
        invariant
            i <= probes@.len(),
            total_tags(probes@) < 0xffff_ffff_ffff_ffff,
            dirty == count_dirty(probes@.take(i as int)),
            ahead == count_ahead(probes@.take(i as int)),
            behind == count_behind(probes@.take(i as int)),
            dirty <= i && ahead <= i && behind <= i,
            hist_unique(by_branch@),
            forall|b: Seq<char>|
                #[trigger] hist_val(by_branch@, b) == count_branch(probes@.take(i as int), b),
            forall|b: Seq<char>|
                #[trigger] hist_has(by_branch@, b) ==> count_branch(probes@.take(i as int), b) > 0,
            hist_unique(by_tag@),
            forall|t: Seq<char>|
                #[trigger] hist_val(by_tag@, t) == count_tag(probes@.take(i as int), t),
            forall|t: Seq<char>|
                #[trigger] hist_has(by_tag@, t) ==> count_tag(probes@.take(i as int), t) > 0,
        decreases probes@.len() - i,
    {
        let p = &probes[i];
        proof {
            assert(probes@.take(i + 1 as int).drop_last() =~= probes@.take(i as int));
            assert(probes@.take(i + 1 as int).last() == probes@[i as int]);
            lemma_count_dirty_le(probes@.take(i as int));
        }
        match &p.dirty {
            Some(true) => {
                dirty = dirty + 1;
            },
            _ => {},
        }
        match &p.ahead_behind {
            Some(ab) => {
                if ab.0 > 0 {
                    ahead = ahead + 1;
                }
                if ab.1 > 0 {
                    behind = behind + 1;
                }
            },
            None => {},
        }
        match &p.branch {
            Some(br) => {
                proof {
                    lemma_count_branch_le(probes@.take(i as int), br@);
                }
                hist_add(&mut by_branch, br);
                proof {
                    assert forall|b: Seq<char>|
                        #[trigger] hist_val(by_branch@, b) == count_branch(
                            probes@.take(i + 1 as int),
                            b,
                        ) by {}
                }
            },
            None => {},
        }
        let mut j: usize = 0;
        let ghost outer = probes@.take(i as int);
        while j < p.tags.len()
            invariant
                j <= p.tags@.len(),
                i < probes@.len(),
                p == &probes@[i as int],
                outer == probes@.take(i as int),
                total_tags(probes@) < 0xffff_ffff_ffff_ffff,
                hist_unique(by_tag@),
                forall|t: Seq<char>|
                    #[trigger] hist_val(by_tag@, t) == count_tag(outer, t) + count_str(
                        views(p.tags@).take(j as int),
                        t,
                    ),
                forall|t: Seq<char>|
                    #[trigger] hist_has(by_tag@, t) ==> count_tag(outer, t) + count_str(
                        views(p.tags@).take(j as int),
                        t,
                    ) > 0,
            decreases p.tags@.len() - j,
        {
            let tg = &p.tags[j];
            proof {
                lemma_count_tag_le(outer, tg@);
                lemma_total_tags_take(probes@, i as int);
                lemma_count_str_le(views(p.tags@).take(j as int), tg@);
                assert(probes@.take(i + 1 as int).drop_last() =~= outer);
                assert(probes@.take(i + 1 as int).last() == probes@[i as int]);
                assert(total_tags(probes@.take(i + 1 as int)) == total_tags(outer)
                    + p.tags@.len());
                lemma_total_tags_take(probes@, i + 1 as int);
                assert(hist_val(by_tag@, tg@) < 0xffff_ffff_ffff_ffff);
            }
            hist_add(&mut by_tag, tg);
            proof {
                let tv = views(p.tags@);
                assert(tv.take(j + 1 as int) =~= tv.take(j as int).push(tv[j as int]));
                assert forall|t: Seq<char>|
                    #[trigger] hist_val(by_tag@, t) == count_tag(outer, t) + count_str(
                        tv.take(j + 1 as int),
                        t,
                    ) by {
                    crate::graph::lemma_count_str_push(tv.take(j as int), tv[j as int], t);
                }
                assert forall|t: Seq<char>|
                    #[trigger] hist_has(by_tag@, t) implies count_tag(outer, t) + count_str(
                    tv.take(j + 1 as int),
                    t,
                ) > 0 by {
                    crate::graph::lemma_count_str_push(tv.take(j as int), tv[j as int], t);
                }
            }
            j = j + 1;
        }
        proof {
            assert(views(p.tags@).take(p.tags@.len() as int) =~= views(p.tags@));
            assert forall|t: Seq<char>|
                #[trigger] hist_val(by_tag@, t) == count_tag(probes@.take(i + 1 as int), t) by {}
        }
        i = i + 1;
    }
    proof {
        assert(probes@.take(probes@.len() as int) =~= probes@);
        lemma_count_dirty_le(probes@);
    }
    let total: usize = probes.len();
    let clean: usize = total - dirty;
    WorkspaceStateSummary {
        total_projects: total,
        dirty_projects: dirty,
        clean_projects: clean,
        ahead_of_remote: ahead,
        behind_remote: behind,
        projects_by_branch: by_branch,
        projects_by_tag: by_tag,
    }
}

proof fn lemma_count_dirty_le(probes: Seq<RepoProbe>)
    ensures
        count_dirty(probes) <= probes.len(),
        count_ahead(probes) <= probes.len(),
        count_behind(probes) <= probes.len(),
    decreases probes.len(),
{
    if probes.len() > 0 {
        lemma_count_dirty_le(probes.drop_last());
    }
}

} // verus!
