//! The engine facade: one value holding the resolved workspace root, with
//! the engine's entry points as methods.  Each method is a thin door to the
//! verified logic of the other modules and carries the same contract.

use vstd::prelude::*;
use crate::graph::{
    distinct_names, has_cycle, spec_edge, spec_topo_order, stuck_set, CycleError, DependencyGraph,
};
use crate::project::{
    filter_view, spec_tag_pass, views, AncestorProbe, ExtendedProjectInfo, ProjectInfo,
};
use crate::query::{cond_views, spec_ahead_behind, spec_parse_query, AheadBehindError};

verus! {

/// The workspace-state engine, bound to one workspace root (when one was
/// found).  The transport layer that speaks the protocol lives outside the
/// engine and hands these methods plain values.
pub struct McpServer {
    /// The resolved workspace root, when a manifest was found.
    pub meta_dir: Option<String>,
}

impl McpServer {
    /// An engine for the workspace rooted at `meta_dir`.
    pub fn new(meta_dir: Option<String>) -> (r: McpServer)
        ensures
            match (&r.meta_dir, &meta_dir) {
                (Some(a), Some(b)) => a@ == b@,
                (None, None) => true,
                _ => false,
            },
    {
        McpServer { meta_dir }
    }

    /// The workspace root: the first directory, walking upward from the
    /// starting directory, whose probe found a manifest file.
    pub fn find_meta_dir(probes: &Vec<AncestorProbe>) -> (r: Option<String>)
        ensures
            match r {
                Some(p) => exists|i: int|
                    0 <= i < probes@.len() && probes@[i].has_manifest && p@ == probes@[i].path@
                        && (forall|k: int| 0 <= k < i ==> !probes@[k].has_manifest),
                None => forall|k: int| 0 <= k < probes@.len() ==> !probes@[k].has_manifest,
            },
    {
        crate::project::find_meta_dir(probes)
    }

    /// Parses a query string into its condition list; see
    /// [`crate::query::parse_query`].
    pub fn parse_query(&self, query_str: &str) -> (r: Vec<(String, String)>)
        ensures
            cond_views(r@) == spec_parse_query(query_str@),
    {
        crate::query::parse_query(query_str)
    }

    /// Derives ahead/behind counts from the raw git probe results; see
    /// [`crate::query::get_ahead_behind`].
    pub fn get_ahead_behind(&self, tracking: &Option<String>, counts: &Option<String>) -> (r:
        Result<(u32, u32), AheadBehindError>)
        ensures
            match tracking {
                None => r == Ok::<(u32, u32), AheadBehindError>((0u32, 0u32)),
                Some(tr) => {
                    if tr@.len() == 0 {
                        r == Ok::<(u32, u32), AheadBehindError>((0u32, 0u32))
                    } else {
                        match counts {
                            None => r == Err::<(u32, u32), AheadBehindError>(
                                AheadBehindError::CountsUnavailable,
                            ),
                            Some(out) => r == Ok::<(u32, u32), AheadBehindError>(
                                spec_ahead_behind(out@),
                            ),
                        }
                    }
                },
            },
    {
        crate::query::get_ahead_behind(tracking, counts)
    }

    /// Extends plain project descriptors with empty dependency relations;
    /// see [`crate::project::load_projects_extended`].
    pub fn load_projects_extended(&self, projects: &Vec<ProjectInfo>) -> (r: Vec<
        ExtendedProjectInfo,
    >)
        ensures
            r@.len() == projects@.len(),
            forall|i: int| 0 <= i < r@.len() ==> {
                &&& (#[trigger] r@[i]).name@ == projects@[i].name@
                &&& r@[i].path@ == projects@[i].path@
                &&& r@[i].repo@ == projects@[i].repo@
                &&& r@[i].tags@ == projects@[i].tags@
                &&& r@[i].provides@.len() == 0
                &&& r@[i].depends_on@.len() == 0
            },
    {
        crate::project::load_projects_extended(projects)
    }

    /// Builds the dependency graph over the given projects; see
    /// [`crate::graph::build_dependency_graph`].
    pub fn build_dependency_graph(&self, projects: &Vec<ExtendedProjectInfo>) -> (g:
        DependencyGraph)
        requires
            distinct_names(projects@),
        ensures
            g.wf(),
            g.nodes@.len() == projects@.len(),
            forall|i: int| 0 <= i < projects@.len() ==> {
                &&& (#[trigger] g.nodes@[i]).name@ == projects@[i].name@
                &&& g.nodes@[i].path@ == projects@[i].path@
                &&& g.nodes@[i].tags@ == projects@[i].tags@
                &&& g.nodes@[i].depends_on@ == projects@[i].depends_on@
            },
    {
        crate::graph::build_dependency_graph(projects)
    }

    /// A dependency-respecting execution order, or the set of projects a
    /// cycle makes unorderable; see [`crate::graph::topological_sort`].
    pub fn topological_sort(&self, graph: &DependencyGraph, tag_filter: Option<&String>) -> (r:
        Result<Vec<String>, CycleError>)
        requires
            graph.wf(),
        ensures
            match r {
                Ok(order) => {
                    &&& !has_cycle(*graph)
                    &&& views(order@).no_duplicates()
                    &&& forall|j: int|
                        0 <= j < graph.nodes@.len() ==> (spec_tag_pass(
                            (#[trigger] graph.nodes@[j]).tags@,
                            filter_view(tag_filter),
                        ) <==> views(order@).contains(graph.nodes@[j].name@))
                    &&& forall|k: int|
                        0 <= k < order@.len() ==> graph.is_node(#[trigger] views(order@)[k])
                    &&& views(order@) == spec_topo_order(*graph, filter_view(tag_filter))
                    &&& forall|pa: int, pb: int|
                        0 <= pa < order@.len() && 0 <= pb < order@.len() && #[trigger] spec_edge(
                            *graph,
                            views(order@)[pa],
                            views(order@)[pb],
                        ) ==> pb < pa
                },
                Err(e) => {
                    &&& has_cycle(*graph)
                    &&& views(e.projects@).no_duplicates()
                    &&& views(e.projects@).len() > 0
                    &&& stuck_set(*graph, views(e.projects@).to_set())
                    &&& forall|s: Set<Seq<char>>|
                        #[trigger] stuck_set(*graph, s) ==> s.subset_of(
                            views(e.projects@).to_set(),
                        )
                },
            },
    {
        crate::graph::topological_sort(graph, tag_filter)
    }
}

} // verus!
