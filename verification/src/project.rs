//! Project descriptors: the projects declared in the workspace manifest,
//! locating the manifest directory, and tag-based filtering.

use vstd::prelude::*;
use crate::text::str_eq;

verus! {

/// One project as declared in the workspace manifest.
pub struct ProjectInfo {
    /// Unique key of the project in the manifest.
    pub name: String,
    /// Path of the working copy, relative to the workspace root.
    pub path: String,
    /// Where the repository is cloned from.
    pub repo: String,
    /// Caller-defined labels used for filtering.
    pub tags: Vec<String>,
}

/// A project together with its declared dependency relations.  The
/// manifest format itself declares no relations, so they reach the engine
/// only through callers that know them; the graph is built from whatever
/// stands in `provides` and `depends_on` here.
pub struct ExtendedProjectInfo {
    pub name: String,
    pub path: String,
    pub repo: String,
    pub tags: Vec<String>,
    /// Names this project makes available to others.
    pub provides: Vec<String>,
    /// Names of the projects this one depends on, order-preserving.
    pub depends_on: Vec<String>,
}

/// The character sequences of a sequence of strings.
pub open spec fn views(v: Seq<String>) -> Seq<Seq<char>> {
    v.map_values(|s: String| s@)
}

/// Whether some string in `v` holds the characters `x`.
pub open spec fn contains_str(v: Seq<String>, x: Seq<char>) -> bool {
    exists|i: int| 0 <= i < v.len() && v[i]@ == x
}

/// Whether some string in `v` holds the characters `x`, decided by scanning.
pub fn vec_contains_str(v: &Vec<String>, x: &str) -> (r: bool)
    ensures
        r == contains_str(v@, x@),
{
    let mut i: usize = 0;
    while i < v.len()
        invariant
            i <= v@.len(),
            forall|k: int| 0 <= k < i ==> v@[k]@ != x@,
        decreases v@.len() - i,
    {
        if str_eq(v[i].as_str(), x) {
            return true;
        }
        i = i + 1;
    }
    false
}

/// A copy of each string in `v`.
pub fn clone_strings(v: &Vec<String>) -> (r: Vec<String>)
    ensures
        r@ == v@,
{
    let mut r: Vec<String> = Vec::new();
    let mut i: usize = 0;
    while i < v.len()
        invariant
            i <= v@.len(),
            r@ == v@.take(i as int),
        decreases v@.len() - i,
    {
        r.push(v[i].clone());
        proof {
            assert(r@ =~= v@.take(i + 1 as int));
        }
        i = i + 1;
    }
    proof {
        assert(r@ =~= v@);
    }
    r
}

/// A copy of one project descriptor.
pub fn clone_project(p: &ProjectInfo) -> (r: ProjectInfo)
    ensures
        r.name@ == p.name@,
        r.path@ == p.path@,
        r.repo@ == p.repo@,
        r.tags@ == p.tags@,
{
    ProjectInfo {
        name: p.name.clone(),
        path: p.path.clone(),
        repo: p.repo.clone(),
        tags: clone_strings(&p.tags),
    }
}

/// One directory on the walk from the starting directory up to the
/// filesystem root, together with whether it holds a workspace manifest
/// under one of the recognized file names.
pub struct AncestorProbe {
    pub path: String,
    pub has_manifest: bool,
}

/// The file names under which the workspace manifest is recognized.
///
/// The caller probes each ancestor directory for these names and reports
/// the outcome in an [`AncestorProbe`].
pub fn manifest_file_names() -> (r: Vec<String>)
    ensures
        views(r@) =~= seq![".meta"@, ".meta.yaml"@, ".meta.yml"@],
{
    let mut r: Vec<String> = Vec::new();
    r.push(".meta".to_owned());
    r.push(".meta.yaml".to_owned());
    r.push(".meta.yml".to_owned());
    r
}

/// The workspace root: the first directory, walking upward from the
/// starting directory, that holds a manifest file.
///
/// `probes` lists the starting directory and its ancestors, nearest first.
/// Returns the path of the first probe that found a manifest, or `None`
/// when none of them did.
pub fn find_meta_dir(probes: &Vec<AncestorProbe>) -> (r: Option<String>)
    ensures
        match r {
            Some(p) => exists|i: int|
                0 <= i < probes@.len() && probes@[i].has_manifest && p@ == probes@[i].path@
                    && (forall|k: int| 0 <= k < i ==> !probes@[k].has_manifest),
            None => forall|k: int| 0 <= k < probes@.len() ==> !probes@[k].has_manifest,
        },
{
    let mut i: usize = 0;
    while i < probes.len()
        invariant
            i <= probes@.len(),
            forall|k: int| 0 <= k < i ==> !probes@[k].has_manifest,
        decreases probes@.len() - i,
    {
        if probes[i].has_manifest {
            return Some(probes[i].path.clone());
        }
        i = i + 1;
    }
    None
}

/// Extends plain project descriptors with empty dependency relations.
///
/// This is a deliberate decision, not an accident: the manifest format
/// carries no `provides`/`depends_on` declarations, so the extended
/// descriptors start with empty relation lists, and relations enter the
/// engine only through callers that fill them in before building the
/// graph.  Extending the manifest schema to declare relations would be a
/// format change, out of scope here.
pub fn load_projects_extended(projects: &Vec<ProjectInfo>) -> (r: Vec<ExtendedProjectInfo>)
    ensures
        r@.len() == projects@.len(),
        forall|i: int| 0 <= i < r@.len() ==> {
            &&& (#[trigger] r@[i]).name@ == projects@[i].name@
            &&& r@[i].path@ == projects@[i].path@
            &&& r@[i].repo@ == projects@[i].repo@
            &&& r@[i].tags@ == projects@[i].tags@
            &&& r@[i].provides@.len() == 0
            &&& r@[i].depends_on@.len() == 0
        },
{
    let mut r: Vec<ExtendedProjectInfo> = Vec::new();
    let mut i: usize = 0;
    while i < projects.len()
        invariant
            i <= projects@.len(),
            r@.len() == i,
            forall|k: int| 0 <= k < i ==> {
                &&& (#[trigger] r@[k]).name@ == projects@[k].name@
                &&& r@[k].path@ == projects@[k].path@
                &&& r@[k].repo@ == projects@[k].repo@
                &&& r@[k].tags@ == projects@[k].tags@
                &&& r@[k].provides@.len() == 0
                &&& r@[k].depends_on@.len() == 0
            },
        decreases projects@.len() - i,
    {
        let p = &projects[i];
        r.push(ExtendedProjectInfo {
            name: p.name.clone(),
            path: p.path.clone(),
            repo: p.repo.clone(),
            tags: clone_strings(&p.tags),
            provides: Vec::new(),
            depends_on: Vec::new(),
        });
        i = i + 1;
    }
    r
}

/// Whether project `p` carries tag `t`.
pub open spec fn spec_has_tag(tags: Seq<String>, t: Seq<char>) -> bool {
    contains_str(tags, t)
}

/// Whether a project passes an optional tag filter.
pub open spec fn spec_tag_pass(tags: Seq<String>, filter: Option<Seq<char>>) -> bool {
    match filter {
        Some(t) => spec_has_tag(tags, t),
        None => true,
    }
}

/// The view of an optional tag filter.
pub open spec fn filter_view(filter: Option<&String>) -> Option<Seq<char>> {
    match filter {
        Some(t) => Some(t@),
        None => None,
    }
}

/// The projects that pass the tag filter, in declaration order.
pub fn filter_projects_by_tag(projects: &Vec<ProjectInfo>, filter: Option<&String>) -> (r: Vec<
    ProjectInfo,
>)
    ensures
        r@.len() == projects@.filter(
            |p: ProjectInfo| spec_tag_pass(p.tags@, filter_view(filter)),
        ).len(),
        forall|k: int|
            0 <= k < r@.len() ==> {
                let q = projects@.filter(
                    |p: ProjectInfo| spec_tag_pass(p.tags@, filter_view(filter)),
                )[k];
                &&& (#[trigger] r@[k]).name@ == q.name@
                &&& r@[k].path@ == q.path@
                &&& r@[k].repo@ == q.repo@
                &&& r@[k].tags@ == q.tags@
            },
{
    let ghost f = |p: ProjectInfo| spec_tag_pass(p.tags@, filter_view(filter));
    let mut r: Vec<ProjectInfo> = Vec::new();
    let mut i: usize = 0;
    while i < projects.len()
        invariant
            i <= projects@.len(),
            r@.len() == projects@.take(i as int).filter(f).len(),
            f == (|p: ProjectInfo| spec_tag_pass(p.tags@, filter_view(filter))),
            forall|k: int|
                0 <= k < r@.len() ==> {
                    let q = projects@.take(i as int).filter(f)[k];
                    &&& (#[trigger] r@[k]).name@ == q.name@
                    &&& r@[k].path@ == q.path@
                    &&& r@[k].repo@ == q.repo@
                    &&& r@[k].tags@ == q.tags@
                },
        decreases projects@.len() - i,
    {
        let keep = match filter {
            Some(t) => vec_contains_str(&projects[i].tags, t.as_str()),
            None => true,
        };
        proof {
            assert(projects@.take(i + 1 as int).drop_last() =~= projects@.take(i as int));
            assert(projects@.take(i + 1 as int).last() == projects@[i as int]);
            reveal(Seq::filter);
        }
        if keep {
            r.push(clone_project(&projects[i]));
            proof {
                assert(projects@.take(i + 1 as int).filter(f) =~= projects@.take(
                    i as int,
                ).filter(f).push(projects@[i as int]));
            }
        } else {
            proof {
                assert(projects@.take(i + 1 as int).filter(f) =~= projects@.take(
                    i as int,
                ).filter(f));
            }
        }
        i = i + 1;
    }
    proof {
        assert(projects@.take(projects@.len() as int) =~= projects@);
    }
    r
}

} // verus!
