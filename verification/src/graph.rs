//! The dependency graph over declared project relations: construction,
//! impact analysis (the forward closure of dependents) and a
//! dependency-respecting execution order.

use vstd::prelude::*;
use crate::project::{views, ExtendedProjectInfo};
use crate::project::{clone_strings, contains_str, filter_view, spec_tag_pass, vec_contains_str};
use crate::text::str_eq;

verus! {

/// A directed graph over the declared projects.
///
/// `edges` maps each project name to its `depends_on` list, order-preserving;
/// `reverse_edges` is the exact transpose: it maps a name to the projects
/// that depend on it.  A `depends_on` entry naming a project that is not in
/// `nodes` (a dangling dependency) is retained in both maps; it simply never
/// produces a node to visit.
pub struct DependencyGraph {
    pub nodes: Vec<ExtendedProjectInfo>,
    pub edges: Vec<(String, Vec<String>)>,
    pub reverse_edges: Vec<(String, Vec<String>)>,
}

/// How many strings in `s` hold exactly the characters `x`.
pub open spec fn count_str(s: Seq<Seq<char>>, x: Seq<char>) -> nat
    decreases s.len(),
{
    if s.len() == 0 {
        0
    } else {
        count_str(s.drop_last(), x) + if s.last() == x {
            1nat
        } else {
            0nat
        }
    }
}

pub proof fn lemma_count_str_push(s: Seq<Seq<char>>, y: Seq<char>, x: Seq<char>)
    ensures
        count_str(s.push(y), x) == count_str(s, x) + if y == x {
            1nat
        } else {
            0nat
        },
{
    assert(s.push(y).drop_last() =~= s);
}

pub proof fn lemma_count_str_contains(s: Seq<Seq<char>>, x: Seq<char>)
    ensures
        count_str(s, x) > 0 <==> s.contains(x),
    decreases s.len(),
{
    if s.len() > 0 {
        lemma_count_str_contains(s.drop_last(), x);
        if s.drop_last().contains(x) {
            let i = choose|i: int| 0 <= i < s.drop_last().len() && s.drop_last()[i] == x;
            assert(s[i] == x);
        }
        if s.contains(x) && s.last() != x {
            let i = choose|i: int| 0 <= i < s.len() && s[i] == x;
            assert(s.drop_last()[i] == x);
        }
    }
}

/// Whether the keys of the association list are pairwise distinct.
pub open spec fn unique_keys(m: Seq<(String, Vec<String>)>) -> bool {
    forall|i: int, j: int| 0 <= i < j < m.len() ==> (#[trigger] m[i]).0@ != (#[trigger] m[j]).0@
}

/// Whether the association list holds an entry for key `k`.
pub open spec fn has_key(m: Seq<(String, Vec<String>)>, k: Seq<char>) -> bool {
    exists|i: int| 0 <= i < m.len() && (#[trigger] m[i]).0@ == k
}

/// An index at which the association list holds key `k`.
pub open spec fn key_index(m: Seq<(String, Vec<String>)>, k: Seq<char>) -> int {
    choose|i: int| 0 <= i < m.len() && (#[trigger] m[i]).0@ == k
}

/// The list stored under key `k`, or the empty sequence when `k` is absent.
pub open spec fn lookup(m: Seq<(String, Vec<String>)>, k: Seq<char>) -> Seq<Seq<char>> {
    if has_key(m, k) {
        views(m[key_index(m, k)].1@)
    } else {
        Seq::empty()
    }
}

pub proof fn lemma_key_index(m: Seq<(String, Vec<String>)>, k: Seq<char>)
    requires
        unique_keys(m),
        has_key(m, k),
    ensures
        0 <= key_index(m, k) < m.len(),
        m[key_index(m, k)].0@ == k,
        forall|i: int| 0 <= i < m.len() && (#[trigger] m[i]).0@ == k ==> i == key_index(m, k),
{
}

/// How many of the first `up_to` projects named `a` list `d` among their
/// dependencies, counted with multiplicity.
pub open spec fn dep_count(projects: Seq<ExtendedProjectInfo>, d: Seq<char>, a: Seq<char>) -> nat
    decreases projects.len(),
{
    if projects.len() == 0 {
        0
    } else {
        dep_count(projects.drop_last(), d, a) + if projects.last().name@ == a {
            count_str(views(projects.last().depends_on@), d)
        } else {
            0nat
        }
    }
}

/// Whether some project in `projects` lists `d` among its dependencies.
pub open spec fn mentions_dep(projects: Seq<ExtendedProjectInfo>, d: Seq<char>) -> bool {
    exists|i: int|
        0 <= i < projects.len() && views((#[trigger] projects[i]).depends_on@).contains(d)
}

/// Whether `a` is the name of some project in `projects`.
pub open spec fn is_project_name(projects: Seq<ExtendedProjectInfo>, a: Seq<char>) -> bool {
    exists|i: int| 0 <= i < projects.len() && (#[trigger] projects[i]).name@ == a
}

/// Whether the declared project names are pairwise distinct.
pub open spec fn distinct_names(projects: Seq<ExtendedProjectInfo>) -> bool {
    forall|i: int, j: int|
        0 <= i < j < projects.len() ==> (#[trigger] projects[i]).name@ != (
        #[trigger] projects[j]).name@
}

impl DependencyGraph {
    /// The names of the graph's nodes, in declaration order.
    pub open spec fn names(self) -> Seq<Seq<char>> {
        self.nodes@.map_values(|p: ExtendedProjectInfo| p.name@)
    }

    /// Whether `a` names a node of the graph.
    pub open spec fn is_node(self, a: Seq<char>) -> bool {
        is_project_name(self.nodes@, a)
    }

    /// The dependents recorded for name `d`: the list under `d` in
    /// `reverse_edges`, empty when no project depends on `d`.
    pub open spec fn rev_list(self, d: Seq<char>) -> Seq<Seq<char>> {
        lookup(self.reverse_edges@, d)
    }

    /// Whether `b` is recorded as a dependent of `a`.
    pub open spec fn rev_adj(self, a: Seq<char>, b: Seq<char>) -> bool {
        self.rev_list(a).contains(b)
    }

    /// The internal consistency of the graph: `edges` mirrors the nodes'
    /// `depends_on` lists and `reverse_edges` is their exact transpose,
    /// counted with multiplicity.
    pub open spec fn wf(self) -> bool {
        &&& distinct_names(self.nodes@)
        &&& self.edges@.len() == self.nodes@.len()
        &&& forall|i: int|
            0 <= i < self.nodes@.len() ==> (#[trigger] self.edges@[i]).0@ == self.nodes@[i].name@
                && views(self.edges@[i].1@) == views(self.nodes@[i].depends_on@)
        &&& unique_keys(self.reverse_edges@)
        &&& forall|d: Seq<char>| #[trigger] has_key(self.reverse_edges@, d) <==> mentions_dep(self.nodes@, d)
        &&& forall|d: Seq<char>, a: Seq<char>|
            #[trigger] count_str(self.rev_list(d), a) == dep_count(self.nodes@, d, a)
        &&& forall|d: Seq<char>, b: Seq<char>|
            #[trigger] self.rev_adj(d, b) ==> self.is_node(b)
    }
}

/// The position of key `key` in the association list, if present.
fn find_key(m: &Vec<(String, Vec<String>)>, key: &str) -> (r: Option<usize>)
    ensures
        match r {
            Some(i) => i < m@.len() && m@[i as int].0@ == key@,
            None => !has_key(m@, key@),
        },
{
    let mut idx: usize = 0;
    while idx < m.len()
        invariant
            idx <= m@.len(),
            forall|k: int| 0 <= k < idx ==> (#[trigger] m@[k]).0@ != key@,
        decreases m@.len() - idx,
    {
        if str_eq(m[idx].0.as_str(), key) {
            return Some(idx);
        }
        idx = idx + 1;
    }
    None
}

/// Records one more dependent `val` under key `key` in a reverse-edge map.
fn rev_add(m: &mut Vec<(String, Vec<String>)>, key: &String, val: &String)
    requires
        unique_keys(old(m)@),
    ensures
        unique_keys(final(m)@),
        forall|d: Seq<char>|
            #[trigger] has_key(final(m)@, d) <==> has_key(old(m)@, d) || d == key@,
        forall|d: Seq<char>, a: Seq<char>|
            #[trigger] count_str(lookup(final(m)@, d), a) == count_str(lookup(old(m)@, d), a)
                + if d == key@ && a == val@ {
                1nat
            } else {
                0nat
            },
        forall|d: Seq<char>, b: Seq<char>|
            lookup(final(m)@, d).contains(b) ==> lookup(old(m)@, d).contains(b) || b == val@,
{
    let ghost m0 = m@;
    let found = find_key(m, key.as_str());
    if let Some(idx) = found {
        proof {
            lemma_key_index(m0, key@);
        }
        let mut pair = m.remove(idx);
        pair.1.push(val.clone());
        let ghost newpair = pair;
        m.insert(idx, pair);
        proof {
            let i = idx as int;
            assert(m@ =~= m0.update(i, newpair));
            assert(newpair.0@ == key@);
            assert(views(newpair.1@) =~= views(m0[i].1@).push(val@));
            assert forall|d: Seq<char>| #[trigger] has_key(m@, d) implies has_key(m0, d) || d
                == key@ by {
                let w = choose|w: int| 0 <= w < m@.len() && (#[trigger] m@[w]).0@ == d;
                if w != i {
                    assert(m0[w].0@ == d);
                }
            }
            assert forall|d: Seq<char>| has_key(m0, d) || d == key@ implies #[trigger] has_key(
                m@,
                d,
            ) by {
                if has_key(m0, d) {
                    let w = choose|w: int| 0 <= w < m0.len() && (#[trigger] m0[w]).0@ == d;
                    if w == i {
                        assert(m@[i].0@ == d);
                    } else {
                        assert(m@[w].0@ == d);
                    }
                } else {
                    assert(m@[i].0@ == d);
                }
            }
            assert(unique_keys(m@)) by {
                assert(forall|k: int| 0 <= k < m@.len() ==> (#[trigger] m@[k]).0@ == m0[k].0@);
            }
            assert forall|d: Seq<char>, a: Seq<char>|
                #[trigger] count_str(lookup(m@, d), a) == count_str(lookup(m0, d), a) + if d
                == key@ && a == val@ {
                1nat
            } else {
                0nat
            } by {
                if d == key@ {
                    lemma_key_index(m@, d);
                    assert(key_index(m@, d) == i);
                    assert(lookup(m@, d) == views(newpair.1@));
                    assert(key_index(m0, d) == i);
                    assert(lookup(m0, d) == views(m0[i].1@));
                    lemma_count_str_push(views(m0[i].1@), val@, a);
                } else {
                    if has_key(m0, d) {
                        lemma_key_index(m0, d);
                        lemma_key_index(m@, d);
                        let w = key_index(m0, d);
                        assert(w != i);
                        assert(m@[w].0@ == d);
                        assert(key_index(m@, d) == w);
                        assert(lookup(m@, d) == views(m0[w].1@));
                    } else {
                        assert(!has_key(m@, d));
                    }
                }
            }
            assert forall|d: Seq<char>, b: Seq<char>|
                lookup(m@, d).contains(b) implies lookup(m0, d).contains(b) || b == val@ by {
                if d == key@ {
                    lemma_key_index(m@, d);
                    assert(key_index(m@, d) == i);
                    assert(lookup(m@, d) =~= lookup(m0, d).push(val@));
                    let w = choose|w: int|
                        0 <= w < lookup(m@, d).len() && lookup(m@, d)[w] == b;
                    if w < lookup(m0, d).len() {
                        assert(lookup(m0, d)[w] == b);
                    }
                } else {
                    if has_key(m@, d) {
                        lemma_key_index(m0, d);
                        lemma_key_index(m@, d);
                        assert(lookup(m@, d) == lookup(m0, d));
                    }
                }
            }
        }
    } else {
        let mut l: Vec<String> = Vec::new();
        l.push(val.clone());
        let ghost newlist = l;
        m.push((key.clone(), l));
        proof {
            let i = m0.len() as int;
            assert(m@ =~= m0.push((m@[i].0, newlist)));
            assert(m@[i].0@ == key@);
            assert(!has_key(m0, key@));
            assert(views(newlist@) =~= Seq::empty().push(val@));
            assert forall|d: Seq<char>| #[trigger] has_key(m@, d) implies has_key(m0, d) || d
                == key@ by {
                let w = choose|w: int| 0 <= w < m@.len() && (#[trigger] m@[w]).0@ == d;
                if w < i {
                    assert(m0[w].0@ == d);
                }
            }
            assert forall|d: Seq<char>| has_key(m0, d) || d == key@ implies #[trigger] has_key(
                m@,
                d,
            ) by {
                if has_key(m0, d) {
                    let w = choose|w: int| 0 <= w < m0.len() && (#[trigger] m0[w]).0@ == d;
                    assert(m@[w].0@ == d);
                } else {
                    assert(m@[i].0@ == d);
                }
            }
            assert(unique_keys(m@)) by {
                assert forall|p: int, q: int| 0 <= p < q < m@.len() implies (#[trigger] m@[p]).0@
                    != (#[trigger] m@[q]).0@ by {
                    if q < i {
                        assert(m0[p].0@ != m0[q].0@);
                    } else {
                        assert(q == i);
                        assert(m@[q].0@ == key@);
                        assert(m0[p].0@ != key@);
                    }
                }
            }
            assert forall|d: Seq<char>, a: Seq<char>|
                #[trigger] count_str(lookup(m@, d), a) == count_str(lookup(m0, d), a) + if d
                == key@ && a == val@ {
                1nat
            } else {
                0nat
            } by {
                if d == key@ {
                    lemma_key_index(m@, d);
                    assert(key_index(m@, d) == i);
                    assert(lookup(m@, d) == views(newlist@));
                    assert(lookup(m0, d) == Seq::<Seq<char>>::empty());
                    lemma_count_str_push(Seq::empty(), val@, a);
                    assert(count_str(Seq::empty(), a) == 0);
                } else {
                    if has_key(m0, d) {
                        lemma_key_index(m0, d);
                        lemma_key_index(m@, d);
                        let w = key_index(m0, d);
                        assert(m@[w].0@ == d);
                        assert(key_index(m@, d) == w);
                        assert(lookup(m@, d) == views(m0[w].1@));
                    } else {
                        assert(!has_key(m@, d));
                    }
                }
            }
            assert forall|d: Seq<char>, b: Seq<char>|
                lookup(m@, d).contains(b) implies lookup(m0, d).contains(b) || b == val@ by {
                if d == key@ {
                    lemma_key_index(m@, d);
                    assert(lookup(m@, d) =~= Seq::empty().push(val@));
                    let w = choose|w: int|
                        0 <= w < lookup(m@, d).len() && lookup(m@, d)[w] == b;
                    assert(w == 0);
                } else {
                    if has_key(m@, d) {
                        lemma_key_index(m0, d);
                        lemma_key_index(m@, d);
                        assert(lookup(m@, d) == lookup(m0, d));
                    }
                }
            }
        }
    }
}

/// A copy of one extended project descriptor.
fn clone_extended(p: &ExtendedProjectInfo) -> (r: ExtendedProjectInfo)
    ensures
        r.name@ == p.name@,
        r.path@ == p.path@,
        r.repo@ == p.repo@,
        r.tags@ == p.tags@,
        r.provides@ == p.provides@,
        r.depends_on@ == p.depends_on@,
{
    ExtendedProjectInfo {
        name: p.name.clone(),
        path: p.path.clone(),
        repo: p.repo.clone(),
        tags: clone_strings(&p.tags),
        provides: clone_strings(&p.provides),
        depends_on: clone_strings(&p.depends_on),
    }
}

/// Builds the dependency graph over the given projects.
///
/// `edges` maps each project to its `depends_on` list and `reverse_edges` is
/// the transpose.  Dangling dependency names are retained without error.
pub fn build_dependency_graph(projects: &Vec<ExtendedProjectInfo>) -> (g: DependencyGraph)
    requires
        distinct_names(projects@),
    ensures
        g.wf(),
        g.nodes@.len() == projects@.len(),
        forall|i: int|
            0 <= i < projects@.len() ==> {
                &&& (#[trigger] g.nodes@[i]).name@ == projects@[i].name@
                &&& g.nodes@[i].path@ == projects@[i].path@
                &&& g.nodes@[i].repo@ == projects@[i].repo@
                &&& g.nodes@[i].tags@ == projects@[i].tags@
                &&& g.nodes@[i].provides@ == projects@[i].provides@
                &&& g.nodes@[i].depends_on@ == projects@[i].depends_on@
            },
{
    let mut nodes: Vec<ExtendedProjectInfo> = Vec::new();
    let mut edges: Vec<(String, Vec<String>)> = Vec::new();
    let mut rev: Vec<(String, Vec<String>)> = Vec::new();
    let mut i: usize = 0;
    while i < projects.len()
        invariant
            i <= projects@.len(),
            distinct_names(projects@),
            nodes@.len() == i,
            edges@.len() == i,
            forall|k: int|
                0 <= k < i ==> {
                    &&& (#[trigger] nodes@[k]).name@ == projects@[k].name@
                    &&& nodes@[k].path@ == projects@[k].path@
                    &&& nodes@[k].repo@ == projects@[k].repo@
                    &&& nodes@[k].tags@ == projects@[k].tags@
                    &&& nodes@[k].provides@ == projects@[k].provides@
                    &&& nodes@[k].depends_on@ == projects@[k].depends_on@
                },
            forall|k: int|
                0 <= k < i ==> (#[trigger] edges@[k]).0@ == projects@[k].name@ && views(
                    edges@[k].1@,
                ) == views(projects@[k].depends_on@),
            unique_keys(rev@),
            forall|d: Seq<char>| #[trigger] has_key(rev@, d) <==> mentions_dep(projects@.take(i as int), d),
            forall|d: Seq<char>, a: Seq<char>|
                #[trigger] count_str(lookup(rev@, d), a) == dep_count(projects@.take(i as int), d, a),
            forall|d: Seq<char>, b: Seq<char>|
                lookup(rev@, d).contains(b) ==> is_project_name(projects@.take(i as int), b),
        decreases projects@.len() - i,
    {
        let p = &projects[i];
        nodes.push(clone_extended(p));
        edges.push((p.name.clone(), clone_strings(&p.depends_on)));
        let ghost outer = projects@.take(i as int);
        let mut j: usize = 0;
        while j < p.depends_on.len()
            invariant
                j <= p.depends_on@.len(),
                i < projects@.len(),
                p == &projects@[i as int],
                outer == projects@.take(i as int),
                unique_keys(rev@),
                forall|d: Seq<char>|
                    #[trigger] has_key(rev@, d) <==> mentions_dep(outer, d) || views(
                        p.depends_on@,
                    ).take(j as int).contains(d),
                forall|d: Seq<char>, a: Seq<char>|
                    #[trigger] count_str(lookup(rev@, d), a) == dep_count(outer, d, a) + if p.name@
                        == a {
                        count_str(views(p.depends_on@).take(j as int), d)
                    } else {
                        0nat
                    },
                forall|d: Seq<char>, b: Seq<char>|
                    lookup(rev@, d).contains(b) ==> is_project_name(outer, b) || b == p.name@,
            decreases p.depends_on@.len() - j,
        {
            let ghost rev0 = rev@;
            rev_add(&mut rev, &p.depends_on[j], &p.name);
            proof {
                let dv = p.depends_on@[j as int]@;
                assert(views(p.depends_on@).take(j + 1 as int) =~= views(p.depends_on@).take(
                    j as int,
                ).push(dv));
                assert forall|d: Seq<char>, a: Seq<char>|
                    #[trigger] count_str(lookup(rev@, d), a) == dep_count(outer, d, a) + if p.name@
                        == a {
                        count_str(views(p.depends_on@).take(j + 1 as int), d)
                    } else {
                        0nat
                    } by {
                    lemma_count_str_push(views(p.depends_on@).take(j as int), dv, d);
                }
                assert forall|d: Seq<char>|
                    #[trigger] has_key(rev@, d) <==> mentions_dep(outer, d) || views(
                        p.depends_on@,
                    ).take(j + 1 as int).contains(d) by {
                    if has_key(rev@, d) && !has_key(rev0, d) {
                        assert(d == dv);
                        assert(views(p.depends_on@).take(j + 1 as int).last() == dv);
                    }
                    if views(p.depends_on@).take(j + 1 as int).contains(d) && !views(
                        p.depends_on@,
                    ).take(j as int).contains(d) {
                        let s = views(p.depends_on@).take(j + 1 as int);
                        let w = choose|w: int| 0 <= w < s.len() && #[trigger] s[w] == d;
                        assert(w == j);
                        assert(d == dv);
                    }
                }
            }
            j = j + 1;
        }
        proof {
            let iplus = i + 1 as int;
            assert(projects@.take(iplus).drop_last() =~= projects@.take(i as int));
            assert(projects@.take(iplus).last() == projects@[i as int]);
            assert(views(p.depends_on@).take(p.depends_on@.len() as int) =~= views(
                p.depends_on@,
            ));
            assert forall|d: Seq<char>, a: Seq<char>|
                #[trigger] count_str(lookup(rev@, d), a) == dep_count(projects@.take(iplus), d, a)
                by {
                assert(dep_count(projects@.take(iplus), d, a) == dep_count(
                    projects@.take(i as int),
                    d,
                    a,
                ) + if projects@[i as int].name@ == a {
                    count_str(views(projects@[i as int].depends_on@), d)
                } else {
                    0nat
                });
            }
            assert forall|d: Seq<char>|
                #[trigger] has_key(rev@, d) <==> mentions_dep(projects@.take(iplus), d) by {
                if mentions_dep(projects@.take(iplus), d) && !mentions_dep(
                    projects@.take(i as int),
                    d,
                ) {
                    let w = choose|w: int|
                        0 <= w < projects@.take(iplus).len() && views(
                            (#[trigger] projects@.take(iplus)[w]).depends_on@,
                        ).contains(d);
                    if w < i {
                        assert(views(projects@.take(i as int)[w].depends_on@).contains(d));
                    } else {
                        assert(views(projects@[i as int].depends_on@).contains(d));
                    }
                }
                if mentions_dep(projects@.take(i as int), d) {
                    let w = choose|w: int|
                        0 <= w < projects@.take(i as int).len() && views(
                            (#[trigger] projects@.take(i as int)[w]).depends_on@,
                        ).contains(d);
                    assert(views(projects@.take(iplus)[w].depends_on@).contains(d));
                }
                if views(p.depends_on@).contains(d) {
                    assert(views(projects@.take(iplus)[i as int].depends_on@).contains(d));
                }
            }
            assert forall|d: Seq<char>, b: Seq<char>|
                lookup(rev@, d).contains(b) implies is_project_name(projects@.take(iplus), b) by {
                if is_project_name(projects@.take(i as int), b) {
                    let w = choose|w: int|
                        0 <= w < projects@.take(i as int).len() && (#[trigger] projects@.take(
                            i as int,
                        )[w]).name@ == b;
                    assert(projects@.take(iplus)[w].name@ == b);
                } else {
                    assert(b == p.name@);
                    assert(projects@.take(iplus)[i as int].name@ == b);
                }
            }
        }
        i = i + 1;
    }
    proof {
        assert(projects@.take(projects@.len() as int) =~= projects@);
    }
    let g = DependencyGraph { nodes, edges, reverse_edges: rev };
    proof {
        assert(distinct_names(g.nodes@)) by {
            assert forall|a: int, b: int| 0 <= a < b < g.nodes@.len() implies (
            #[trigger] g.nodes@[a]).name@ != (#[trigger] g.nodes@[b]).name@ by {
                assert(projects@[a].name@ != projects@[b].name@);
            }
        }
        assert forall|d: Seq<char>| #[trigger] has_key(g.reverse_edges@, d) <==> mentions_dep(
            g.nodes@,
            d,
        ) by {
            assert(g.nodes@.len() == projects@.len());
            if mentions_dep(projects@, d) {
                let w = choose|w: int|
                    0 <= w < projects@.len() && views(
                        (#[trigger] projects@[w]).depends_on@,
                    ).contains(d);
                assert(views(g.nodes@[w].depends_on@).contains(d));
            }
            if mentions_dep(g.nodes@, d) {
                let w = choose|w: int|
                    0 <= w < g.nodes@.len() && views(
                        (#[trigger] g.nodes@[w]).depends_on@,
                    ).contains(d);
                assert(views(projects@[w].depends_on@).contains(d));
            }
        }
        assert forall|d: Seq<char>, a: Seq<char>|
            #[trigger] count_str(g.rev_list(d), a) == dep_count(g.nodes@, d, a) by {
            lemma_dep_count_congruent(projects@, g.nodes@, d, a);
        }
        assert forall|d: Seq<char>, b: Seq<char>| #[trigger] g.rev_adj(d, b) implies g.is_node(
            b,
        ) by {
            assert(is_project_name(projects@, b));
            let w = choose|w: int|
                0 <= w < projects@.len() && (#[trigger] projects@[w]).name@ == b;
            assert(g.nodes@[w].name@ == b);
        }
    }
    g
}

/// The outcome of impact analysis for one project name: who depends on it,
/// directly and transitively, and the scalar impact score.
pub struct ImpactReport {
    pub project: String,
    pub direct_dependents: Vec<String>,
    pub transitive_dependents: Vec<String>,
    pub total_affected: usize,
}

/// Whether `p` is a walk along reverse-dependency edges starting at `from`.
pub open spec fn is_rev_path(g: DependencyGraph, from: Seq<char>, p: Seq<Seq<char>>) -> bool {
    &&& p.len() >= 1
    &&& g.rev_adj(from, p[0])
    &&& forall|i: int| 0 <= i < p.len() - 1 ==> g.rev_adj(#[trigger] p[i], p[i + 1])
}

/// Whether `to` can be reached from `from` along one or more reverse edges;
/// the dependents of `from`, their dependents, and so on.
pub open spec fn reachable(g: DependencyGraph, from: Seq<char>, to: Seq<char>) -> bool {
    exists|p: Seq<Seq<char>>| is_rev_path(g, from, p) && p.last() == to
}

/// All names reachable from `from` along one or more reverse edges.
pub open spec fn reach_set(g: DependencyGraph, from: Seq<char>) -> Set<Seq<char>> {
    Set::new(|y: Seq<char>| reachable(g, from, y))
}

pub proof fn lemma_reachable_one(g: DependencyGraph, x: Seq<char>, b: Seq<char>)
    requires
        g.rev_adj(x, b),
    ensures
        reachable(g, x, b),
{
    let p: Seq<Seq<char>> = seq![b];
    assert(is_rev_path(g, x, p) && p.last() == b);
}

pub proof fn lemma_reachable_step(g: DependencyGraph, x: Seq<char>, v: Seq<char>, b: Seq<char>)
    requires
        reachable(g, x, v),
        g.rev_adj(v, b),
    ensures
        reachable(g, x, b),
{
    let p = choose|p: Seq<Seq<char>>| is_rev_path(g, x, p) && p.last() == v;
    let q = p.push(b);
    assert forall|i: int| 0 <= i < q.len() - 1 implies g.rev_adj(#[trigger] q[i], q[i + 1]) by {
        if i < p.len() - 1 {
            assert(g.rev_adj(p[i], p[i + 1]));
        } else {
            assert(q[i] == p.last());
        }
    }
    assert(is_rev_path(g, x, q) && q.last() == b);
}

/// Along a well-formed graph's reverse edges only node names are reached.
pub proof fn lemma_reachable_is_node(g: DependencyGraph, x: Seq<char>, y: Seq<char>)
    requires
        g.wf(),
        reachable(g, x, y),
    ensures
        g.is_node(y),
{
    let p = choose|p: Seq<Seq<char>>| is_rev_path(g, x, p) && p.last() == y;
    if p.len() == 1 {
        assert(g.rev_adj(x, p[0]));
    } else {
        assert(g.rev_adj(p[p.len() - 2], p[p.len() - 1]));
    }
}

/// A sequence of distinct node names is no longer than the node list.
proof fn lemma_visited_bound(g: DependencyGraph, v: Seq<Seq<char>>)
    requires
        v.no_duplicates(),
        forall|k: int| 0 <= k < v.len() ==> g.is_node(#[trigger] v[k]),
    ensures
        v.len() <= g.nodes@.len(),
{
    broadcast use vstd::seq_lib::seq_to_set_is_finite;

    let names = g.names();
    assert(v.to_set().subset_of(names.to_set())) by {
        assert forall|y: Seq<char>| v.to_set().contains(y) implies names.to_set().contains(y) by {
            let k = choose|k: int| 0 <= k < v.len() && v[k] == y;
            assert(g.is_node(v[k]));
            let w = choose|w: int|
                0 <= w < g.nodes@.len() && (#[trigger] g.nodes@[w]).name@ == y;
            assert(names[w] == y);
            assert(names.contains(y));
        }
    }
    v.unique_seq_to_set();
    names.lemma_cardinality_of_set();
    vstd::set_lib::lemma_len_subset(v.to_set(), names.to_set());
}

proof fn lemma_no_dup_push(s: Seq<Seq<char>>, c: Seq<char>)
    requires
        s.no_duplicates(),
        !s.contains(c),
    ensures
        s.push(c).no_duplicates(),
{
    let t = s.push(c);
    assert forall|i: int, j: int| 0 <= i < j < t.len() implies t[i] != t[j] by {
        if j < s.len() {
            assert(s[i] != s[j]);
        } else {
            assert(t[j] == c);
            assert(s[i] == t[i]);
            if t[i] == c {
                assert(s.contains(c));
            }
        }
    }
}

/// Membership survives appending an element.
pub proof fn lemma_contains_push<A>(s: Seq<A>, c: A, b: A)
    requires
        s.contains(b),
    ensures
        s.push(c).contains(b),
{
    let w = choose|w: int| 0 <= w < s.len() && s[w] == b;
    assert(s.push(c)[w] == b);
}

/// Membership in an extended sequence comes from the prefix or the new element.
pub proof fn lemma_contains_push_inv<A>(s: Seq<A>, c: A, b: A)
    requires
        s.push(c).contains(b),
    ensures
        s.contains(b) || b == c,
{
    let w = choose|w: int| 0 <= w < s.push(c).len() && s.push(c)[w] == b;
    if w < s.len() {
        assert(s[w] == b);
    }
}

pub proof fn lemma_contains_str_views(v: Seq<String>, x: Seq<char>)
    ensures
        contains_str(v, x) <==> views(v).contains(x),
{
    if contains_str(v, x) {
        let i = choose|i: int| 0 <= i < v.len() && v[i]@ == x;
        assert(views(v)[i] == x);
    }
    if views(v).contains(x) {
        let i = choose|i: int| 0 <= i < views(v).len() && views(v)[i] == x;
        assert(v[i]@ == x);
    }
}

/// In a name sequence closed under reverse adjacency and holding all direct
/// dependents of `x`, every name reachable from `x` occurs.
proof fn lemma_path_in_closed(
    g: DependencyGraph,
    x: Seq<char>,
    vs: Seq<Seq<char>>,
    p: Seq<Seq<char>>,
    i: int,
)
    requires
        is_rev_path(g, x, p),
        0 <= i < p.len(),
        forall|b: Seq<char>| #[trigger] g.rev_adj(x, b) ==> vs.contains(b),
        forall|v: Seq<char>, b: Seq<char>|
            vs.contains(v) && #[trigger] g.rev_adj(v, b) ==> vs.contains(b),
    ensures
        vs.contains(p[i]),
    decreases i,
{
    if i == 0 {
        assert(g.rev_adj(x, p[0]));
    } else {
        lemma_path_in_closed(g, x, vs, p, i - 1);
        assert(g.rev_adj(p[i - 1], p[i]));
    }
}

/// Analyzes the impact of a change to `project_name`: its direct dependents,
/// the dependents of those (transitively), and the count of all distinct
/// affected projects.
///
/// An unknown name yields an empty impact report rather than an error, and
/// cycles among the dependents are traversed without revisiting a node.
pub fn analyze_project_impact(project_name: &str, graph: &DependencyGraph) -> (r: ImpactReport)
    requires
        graph.wf(),
    ensures
        r.project@ == project_name@,
        views(r.direct_dependents@) == graph.rev_list(project_name@),
        views(r.transitive_dependents@).no_duplicates(),
        forall|y: Seq<char>|
            #[trigger] views(r.transitive_dependents@).contains(y) <==> reachable(
                *graph,
                project_name@,
                y,
            ) && !graph.rev_list(project_name@).contains(y) && y != project_name@,
        r.total_affected == reach_set(*graph, project_name@).len(),
{
    let ghost x = project_name@;
    let ghost g = *graph;
    let direct: Vec<String> = match find_key(&graph.reverse_edges, project_name) {
        Some(ri) => {
            proof {
                lemma_key_index(g.reverse_edges@, x);
            }
            clone_strings(&graph.reverse_edges[ri].1)
        },
        None => Vec::new(),
    };
    proof {
        assert(views(direct@) =~= g.rev_list(x));
    }
    let mut queue: Vec<String> = clone_strings(&direct);
    let mut visited: Vec<String> = Vec::new();
    proof {
        assert forall|k: int| 0 <= k < queue@.len() implies reachable(
            g,
            x,
            #[trigger] views(queue@)[k],
        ) by {
            assert(g.rev_list(x).contains(views(queue@)[k]));
            lemma_reachable_one(g, x, views(queue@)[k]);
        }
        assert forall|b: Seq<char>| #[trigger] g.rev_adj(x, b) implies views(queue@).contains(
            b,
        ) by {
            let w = choose|w: int| 0 <= w < g.rev_list(x).len() && #[trigger] g.rev_list(x)[w] == b;
            assert(views(queue@)[w] == b);
        }
    }
    while queue.len() > 0
        invariant
            g == *graph,
            g.wf(),
            x == project_name@,
            views(visited@).no_duplicates(),
            forall|k: int|
                0 <= k < visited@.len() ==> g.is_node(#[trigger] views(visited@)[k]) && reachable(
                    g,
                    x,
                    views(visited@)[k],
                ),
            forall|k: int| 0 <= k < queue@.len() ==> reachable(g, x, #[trigger] views(queue@)[k]),
            forall|b: Seq<char>|
                #[trigger] g.rev_adj(x, b) ==> views(visited@).contains(b) || views(
                    queue@,
                ).contains(b),
            forall|v: Seq<char>, b: Seq<char>|
                views(visited@).contains(v) && #[trigger] g.rev_adj(v, b) ==> views(
                    visited@,
                ).contains(b) || views(queue@).contains(b),
            views(visited@).len() <= g.nodes@.len(),
        decreases g.nodes@.len() - views(visited@).len(), queue@.len(),
    {
        let ghost q0 = views(queue@);
        let ghost v0 = views(visited@);
        let cur: String = queue.remove(0);
        proof {
            assert(views(queue@) =~= q0.drop_first());
            assert(cur@ == q0[0]);
            assert(reachable(g, x, cur@));
            assert forall|b: Seq<char>| q0.contains(b) implies b == cur@ || views(
                queue@,
            ).contains(b) by {
                let w = choose|w: int| 0 <= w < q0.len() && q0[w] == b;
                if w > 0 {
                    assert(views(queue@)[w - 1] == b);
                }
            }
        }
        let already = vec_contains_str(&visited, cur.as_str());
        proof {
            lemma_contains_str_views(visited@, cur@);
        }
        if !already {
            proof {
                lemma_no_dup_push(v0, cur@);
                lemma_reachable_is_node(g, x, cur@);
            }
            visited.push(cur.clone());
            let ghost q1 = views(queue@);
            proof {
                assert(views(visited@) =~= v0.push(cur@));
                lemma_visited_bound(g, views(visited@));
                assert(views(visited@)[v0.len() as int] == cur@);
                assert(views(visited@).contains(cur@));
                assert forall|v: Seq<char>| views(visited@).contains(v) implies v0.contains(v) || v
                    == cur@ by {
                    lemma_contains_push_inv(v0, cur@, v);
                }
                assert forall|v: Seq<char>| v0.contains(v) implies views(visited@).contains(
                    v,
                ) by {
                    lemma_contains_push(v0, cur@, v);
                }
                // closure facts, with nothing yet known of the new member
                assert forall|v: Seq<char>, b: Seq<char>|
                    views(visited@).contains(v) && v != cur@ && #[trigger] g.rev_adj(v, b) implies
                    views(visited@).contains(b) || views(queue@).contains(b) by {
                    assert(v0.contains(v));
                    assert(v0.contains(b) || q0.contains(b));
                    if v0.contains(b) {
                        lemma_contains_push(v0, cur@, b);
                    } else {
                        if b != cur@ {
                            assert(views(queue@).contains(b));
                        } else {
                            assert(views(visited@).contains(b));
                        }
                    }
                }
                assert forall|b: Seq<char>| #[trigger] g.rev_adj(x, b) implies views(
                    visited@,
                ).contains(b) || views(queue@).contains(b) by {
                    assert(v0.contains(b) || q0.contains(b));
                    if v0.contains(b) {
                        lemma_contains_push(v0, cur@, b);
                    } else {
                        if b == cur@ {
                            assert(views(visited@).contains(b));
                        }
                    }
                }
            }
            match find_key(&graph.reverse_edges, cur.as_str()) {
                Some(ri) => {
                    proof {
                        lemma_key_index(g.reverse_edges@, cur@);
                    }
                    let lst = &graph.reverse_edges[ri].1;
                    proof {
                        assert(views(lst@) =~= g.rev_list(cur@));
                    }
                    let mut j: usize = 0;
                    while j < lst.len()
                        invariant
                            g == *graph,
                            g.wf(),
                            x == project_name@,
                            views(lst@) == g.rev_list(cur@),
                            j <= lst@.len(),
                            views(visited@).no_duplicates(),
                            views(visited@).contains(cur@),
                            forall|k: int|
                                0 <= k < visited@.len() ==> g.is_node(
                                    #[trigger] views(visited@)[k],
                                ) && reachable(g, x, views(visited@)[k]),
                            forall|k: int|
                                0 <= k < queue@.len() ==> reachable(
                                    g,
                                    x,
                                    #[trigger] views(queue@)[k],
                                ),
                            forall|b: Seq<char>|
                                #[trigger] g.rev_adj(x, b) ==> views(visited@).contains(b)
                                    || views(queue@).contains(b),
                            forall|v: Seq<char>, b: Seq<char>|
                                views(visited@).contains(v) && v != cur@ && #[trigger] g.rev_adj(
                                    v,
                                    b,
                                ) ==> views(visited@).contains(b) || views(queue@).contains(b),
                            forall|k: int|
                                0 <= k < j ==> views(visited@).contains(
                                    #[trigger] views(lst@)[k],
                                ) || views(queue@).contains(views(lst@)[k]),
                            views(visited@).len() <= g.nodes@.len(),
                        decreases lst@.len() - j,
                    {
                        let nb = &lst[j];
                        let seen = vec_contains_str(&visited, nb.as_str());
                        proof {
                            lemma_contains_str_views(visited@, nb@);
                            assert(views(lst@)[j as int] == nb@);
                        }
                        if !seen {
                            let ghost q2 = views(queue@);
                            queue.push(nb.clone());
                            proof {
                                assert(views(queue@) =~= q2.push(nb@));
                                assert(g.rev_list(cur@).contains(nb@));
                                assert(reachable(g, x, cur@));
                                lemma_reachable_step(g, x, cur@, nb@);
                                assert forall|k: int| 0 <= k < queue@.len() implies reachable(
                                    g,
                                    x,
                                    #[trigger] views(queue@)[k],
                                ) by {
                                    if k < q2.len() {
                                        assert(views(queue@)[k] == q2[k]);
                                    } else {
                                        assert(views(queue@)[k] == nb@);
                                    }
                                }
                                assert forall|b: Seq<char>| q2.contains(b) implies views(
                                    queue@,
                                ).contains(b) by {
                                    lemma_contains_push(q2, nb@, b);
                                }
                                assert(views(queue@)[q2.len() as int] == nb@);
                                assert(views(queue@).contains(nb@));
                            }
                        }
                        j = j + 1;
                    }
                    proof {
                        assert forall|v: Seq<char>, b: Seq<char>|
                            views(visited@).contains(v) && #[trigger] g.rev_adj(v, b) implies views(
                            visited@,
                        ).contains(b) || views(queue@).contains(b) by {
                            if v == cur@ {
                                let w = choose|w: int|
                                    0 <= w < g.rev_list(cur@).len() && #[trigger] g.rev_list(
                                        cur@,
                                    )[w] == b;
                                assert(views(lst@)[w] == b);
                            }
                        }
                    }
                },
                None => {
                    proof {
                        assert(g.rev_list(cur@) =~= Seq::<Seq<char>>::empty());
                        assert forall|v: Seq<char>, b: Seq<char>|
                            views(visited@).contains(v) && #[trigger] g.rev_adj(v, b) implies views(
                            visited@,
                        ).contains(b) || views(queue@).contains(b) by {
                            if v == cur@ {
                                assert(g.rev_list(cur@).contains(b));
                            }
                        }
                    }
                },
            }
        }
    }
    let ghost vfin = views(visited@);
    proof {
        assert(views(queue@).len() == 0);
        assert forall|y: Seq<char>| reachable(g, x, y) implies vfin.contains(y) by {
            let p = choose|p: Seq<Seq<char>>| is_rev_path(g, x, p) && p.last() == y;
            lemma_path_in_closed(g, x, vfin, p, p.len() - 1);
        }
        assert(vfin.to_set() =~= reach_set(g, x));
        visited@.map_values(|s: String| s@).unique_seq_to_set();
    }
    let total: usize = visited.len();
    let mut transitive: Vec<String> = Vec::new();
    let mut k: usize = 0;
    while k < visited.len()
        invariant
            g == *graph,
            x == project_name@,
            vfin == views(visited@),
            vfin.no_duplicates(),
            views(direct@) == g.rev_list(x),
            k <= visited@.len(),
            views(transitive@).no_duplicates(),
            forall|y: Seq<char>|
                #[trigger] views(transitive@).contains(y) <==> vfin.take(k as int).contains(y)
                    && !g.rev_list(x).contains(y) && y != x,
        decreases visited@.len() - k,
    {
        let y = &visited[k];
        let in_direct = vec_contains_str(&direct, y.as_str());
        let is_origin = str_eq(y.as_str(), project_name);
        proof {
            lemma_contains_str_views(direct@, y@);
            assert(vfin.take(k + 1 as int) =~= vfin.take(k as int).push(vfin[k as int]));
            assert(vfin[k as int] == y@);
        }
        if !in_direct && !is_origin {
            let ghost t0 = views(transitive@);
            proof {
                if t0.contains(y@) {
                    assert(vfin.take(k as int).contains(y@));
                    let w = choose|w: int| 0 <= w < k && #[trigger] vfin.take(k as int)[w] == y@;
                    assert(vfin[w] == vfin[k as int]);
                }
                lemma_no_dup_push(t0, y@);
            }
            transitive.push(y.clone());
            proof {
                assert(views(transitive@) =~= t0.push(y@));
                assert forall|z: Seq<char>|
                    #[trigger] views(transitive@).contains(z) implies vfin.take(
                    k + 1 as int,
                ).contains(z) && !g.rev_list(x).contains(z) && z != x by {
                    lemma_contains_push_inv(t0, y@, z);
                    if t0.contains(z) {
                        let u = choose|u: int| 0 <= u < k && #[trigger] vfin.take(k as int)[u] == z;
                        assert(vfin.take(k + 1 as int)[u] == z);
                    } else {
                        assert(z == y@);
                        assert(vfin.take(k + 1 as int)[k as int] == z);
                    }
                }
                assert forall|z: Seq<char>|
                    vfin.take(k + 1 as int).contains(z) && !g.rev_list(x).contains(z) && z != x
                        implies #[trigger] views(transitive@).contains(z) by {
                    let w = choose|w: int| 0 <= w <= k && #[trigger] vfin.take(k + 1 as int)[w] == z;
                    if w < k {
                        assert(vfin.take(k as int)[w] == z);
                        assert(t0.contains(z));
                        lemma_contains_push(t0, y@, z);
                    } else {
                        assert(z == y@);
                        assert(views(transitive@)[t0.len() as int] == z);
                    }
                }
            }
        } else {
            proof {
                assert forall|z: Seq<char>|
                    vfin.take(k + 1 as int).contains(z) && !g.rev_list(x).contains(z) && z != x
                        implies #[trigger] views(transitive@).contains(z) by {
                    let w = choose|w: int| 0 <= w <= k && #[trigger] vfin.take(k + 1 as int)[w] == z;
                    if w < k {
                        assert(vfin.take(k as int)[w] == z);
                    } else {
                        assert(z == y@);
                        assert(false);
                    }
                }
                assert forall|z: Seq<char>|
                    #[trigger] views(transitive@).contains(z) implies vfin.take(
                    k + 1 as int,
                ).contains(z) by {
                    assert(vfin.take(k as int).contains(z));
                    let u = choose|u: int| 0 <= u < k && #[trigger] vfin.take(k as int)[u] == z;
                    assert(vfin.take(k + 1 as int)[u] == z);
                }
            }
        }
        k = k + 1;
    }
    proof {
        assert(vfin.take(visited@.len() as int) =~= vfin);
    }
    ImpactReport {
        project: project_name.to_owned(),
        direct_dependents: direct,
        transitive_dependents: transitive,
        total_affected: total,
    }
}

/// The projects that could not be ordered because they take part in, or
/// depend on, a dependency cycle.
#[derive(Debug)]
pub struct CycleError {
    pub projects: Vec<String>,
}

/// Whether the project named `a` declares a dependency on the project named
/// `b`, both being nodes of the graph.
pub open spec fn spec_edge(g: DependencyGraph, a: Seq<char>, b: Seq<char>) -> bool {
    exists|i: int|
        0 <= i < g.nodes@.len() && (#[trigger] g.nodes@[i]).name@ == a && views(
            g.nodes@[i].depends_on@,
        ).contains(b) && g.is_node(b)
}

/// A set of node names each of whose members depends on another member.
/// A nonempty such set exists exactly when the graph has a dependency cycle:
/// the vertices of a cyclic path form one, and conversely a finite nonempty
/// set in which every vertex has an outgoing edge into the set must close a
/// cycle.
/// Whether some member of `s` is a dependency of `a`.  Kept opaque so that
/// quantified facts about stuck sets do not feed their own triggers.
#[verifier::opaque]
pub open spec fn has_member_edge(g: DependencyGraph, s: Set<Seq<char>>, a: Seq<char>) -> bool {
    exists|b: Seq<char>| s.contains(b) && spec_edge(g, a, b)
}

pub open spec fn stuck_set(g: DependencyGraph, s: Set<Seq<char>>) -> bool {
    forall|a: Seq<char>| #[trigger] s.contains(a) ==> g.is_node(a) && has_member_edge(g, s, a)
}

/// Whether the graph has a dependency cycle.
pub open spec fn has_cycle(g: DependencyGraph) -> bool {
    exists|s: Set<Seq<char>>|
        #[trigger] stuck_set(g, s) && exists|a: Seq<char>| s.contains(a)
}

/// How many entries of `s` are true.
pub open spec fn count_true(s: Seq<bool>) -> nat
    decreases s.len(),
{
    if s.len() == 0 {
        0
    } else {
        count_true(s.drop_last()) + if s.last() {
            1nat
        } else {
            0nat
        }
    }
}

proof fn lemma_count_true_push(s: Seq<bool>, b: bool)
    ensures
        count_true(s.push(b)) == count_true(s) + if b {
            1nat
        } else {
            0nat
        },
{
    assert(s.push(b).drop_last() =~= s);
}

proof fn lemma_count_true_update(s: Seq<bool>, c: int)
    requires
        0 <= c < s.len(),
        !s[c],
    ensures
        count_true(s.update(c, true)) == count_true(s) + 1,
    decreases s.len(),
{
    let t = s.update(c, true);
    if c == s.len() - 1 {
        assert(t.drop_last() =~= s.drop_last());
    } else {
        assert(t.drop_last() =~= s.drop_last().update(c, true));
        lemma_count_true_update(s.drop_last(), c);
        assert(t.last() == s.last());
    }
}

proof fn lemma_count_true_le(s: Seq<bool>)
    ensures
        count_true(s) <= s.len(),
    decreases s.len(),
{
    if s.len() > 0 {
        lemma_count_true_le(s.drop_last());
    }
}

proof fn lemma_count_true_all(s: Seq<bool>)
    requires
        count_true(s) == s.len(),
    ensures
        forall|j: int| 0 <= j < s.len() ==> s[j],
    decreases s.len(),
{
    if s.len() > 0 {
        lemma_count_true_le(s.drop_last());
        assert(s.last());
        lemma_count_true_all(s.drop_last());
        assert forall|j: int| 0 <= j < s.len() implies s[j] by {
            if j < s.len() - 1 {
                assert(s.drop_last()[j]);
            }
        }
    }
}

/// Whether every dependency of node `i` that resolves to a node is marked
/// done.
pub open spec fn spec_deps_done(g: DependencyGraph, i: int, done: Seq<bool>) -> bool {
    forall|j: int|
        0 <= j < g.nodes@.len() && views(g.nodes@[i].depends_on@).contains(
            (#[trigger] g.nodes@[j]).name@,
        ) ==> done[j]
}

/// Whether, along the processing order, every resolvable dependency of a
/// processed node was processed strictly earlier.
pub open spec fn deps_processed_in_order(g: DependencyGraph, order: Seq<int>) -> bool {
    forall|p: int, j: int|
        0 <= p < order.len() && 0 <= j < g.nodes@.len() && #[trigger] views(
            g.nodes@[order[p]].depends_on@,
        ).contains(g.nodes@[j].name@) ==> exists|q: int| 0 <= q < p && order[q] == j
}

/// The index of the node named `name`, if any.
fn find_node(graph: &DependencyGraph, name: &str) -> (r: Option<usize>)
    ensures
        match r {
            Some(j) => j < graph.nodes@.len() && graph.nodes@[j as int].name@ == name@,
            None => !graph.is_node(name@),
        },
{
    let mut idx: usize = 0;
    while idx < graph.nodes.len()
        invariant
            idx <= graph.nodes@.len(),
            forall|k: int| 0 <= k < idx ==> (#[trigger] graph.nodes@[k]).name@ != name@,
        decreases graph.nodes@.len() - idx,
    {
        if str_eq(graph.nodes[idx].name.as_str(), name) {
            return Some(idx);
        }
        idx = idx + 1;
    }
    None
}

/// Whether every resolvable dependency of node `i` is marked done.
fn deps_done(graph: &DependencyGraph, i: usize, done: &Vec<bool>) -> (r: bool)
    requires
        distinct_names(graph.nodes@),
        i < graph.nodes@.len(),
        done@.len() == graph.nodes@.len(),
    ensures
        r == spec_deps_done(*graph, i as int, done@),
{
    let ghost g = *graph;
    let deps = &graph.nodes[i].depends_on;
    let mut k: usize = 0;
    while k < deps.len()
        invariant
            g == *graph,
            distinct_names(g.nodes@),
            i < g.nodes@.len(),
            done@.len() == g.nodes@.len(),
            deps == &g.nodes@[i as int].depends_on,
            k <= deps@.len(),
            forall|kk: int, j: int|
                #![trigger deps@[kk], g.nodes@[j]]
                0 <= kk < k && 0 <= j < g.nodes@.len() && g.nodes@[j].name@ == deps@[kk]@
                    ==> done@[j],
        decreases deps@.len() - k,
    {
        match find_node(graph, deps[k].as_str()) {
            Some(j) => {
                if !done[j] {
                    proof {
                        assert(views(deps@)[k as int] == g.nodes@[j as int].name@);
                        assert(views(deps@).contains(g.nodes@[j as int].name@));
                    }
                    return false;
                }
                proof {
                    assert forall|j2: int|
                        0 <= j2 < g.nodes@.len() && g.nodes@[j2].name@ == deps@[k as int]@
                            implies done@[j2] by {
                        if j2 != j as int {
                            assert(g.nodes@[j2].name@ != g.nodes@[j as int].name@);
                        }
                    }
                }
            },
            None => {
                proof {
                    assert forall|j2: int|
                        0 <= j2 < g.nodes@.len() && g.nodes@[j2].name@ == deps@[k as int]@
                            implies done@[j2] by {
                        assert(g.is_node(deps@[k as int]@));
                    }
                }
            },
        }
        k = k + 1;
    }
    proof {
        assert forall|j: int|
            0 <= j < g.nodes@.len() && views(g.nodes@[i as int].depends_on@).contains(
                (#[trigger] g.nodes@[j]).name@,
            ) implies done@[j] by {
            let kk = choose|kk: int|
                0 <= kk < views(deps@).len() && #[trigger] views(deps@)[kk] == g.nodes@[j].name@;
            assert(deps@[kk]@ == g.nodes@[j].name@);
        }
    }
    true
}

/// The first node at or after position `i`, in declaration order, that is
/// not done but whose resolvable dependencies all are.
pub open spec fn spec_first_candidate(g: DependencyGraph, done: Seq<bool>, i: int) -> Option<int>
    decreases g.nodes@.len() - i,
{
    if i < 0 || i >= g.nodes@.len() {
        None
    } else if !done[i] && spec_deps_done(g, i, done) {
        Some(i)
    } else {
        spec_first_candidate(g, done, i + 1)
    }
}

/// The node indices in the order the engine processes them: repeatedly the
/// first ready node, until none is left or the fuel runs out.
pub open spec fn spec_topo_steps(g: DependencyGraph, done: Seq<bool>, fuel: nat) -> Seq<int>
    decreases fuel,
{
    if fuel == 0 {
        Seq::empty()
    } else {
        match spec_first_candidate(g, done, 0) {
            Some(c) => seq![c] + spec_topo_steps(g, done.update(c, true), (fuel - 1) as nat),
            None => Seq::empty(),
        }
    }
}

/// A sequence of `n` cleared processing marks.
pub open spec fn no_marks(n: nat) -> Seq<bool> {
    Seq::new(n, |i: int| false)
}

/// The order in which the engine processes the graph's nodes, a function of
/// the graph alone: the tag filter never changes it.
pub open spec fn spec_process_order(g: DependencyGraph) -> Seq<int> {
    spec_topo_steps(g, no_marks(g.nodes@.len()), g.nodes@.len())
}

/// The names emitted for a processing order under a tag filter.
pub open spec fn spec_emitted(g: DependencyGraph, ord: Seq<int>, filt: Option<Seq<char>>) -> Seq<
    Seq<char>,
>
    decreases ord.len(),
{
    if ord.len() == 0 {
        Seq::empty()
    } else {
        spec_emitted(g, ord.drop_last(), filt) + if spec_tag_pass(
            g.nodes@[ord.last()].tags@,
            filt,
        ) {
            seq![g.nodes@[ord.last()].name@]
        } else {
            Seq::empty()
        }
    }
}

/// The execution order the engine returns for a tag filter.
pub open spec fn spec_topo_order(g: DependencyGraph, filt: Option<Seq<char>>) -> Seq<Seq<char>> {
    spec_emitted(g, spec_process_order(g), filt)
}

/// Whether the node named `a` carries tag `t`.
pub open spec fn name_has_tag(g: DependencyGraph, a: Seq<char>, t: Seq<char>) -> bool {
    exists|j: int|
        0 <= j < g.nodes@.len() && (#[trigger] g.nodes@[j]).name@ == a && crate::project::spec_has_tag(
            g.nodes@[j].tags@,
            t,
        )
}

proof fn lemma_first_candidate_in_range(g: DependencyGraph, done: Seq<bool>, i: int)
    requires
        0 <= i,
        spec_first_candidate(g, done, i) is Some,
    ensures
        i <= spec_first_candidate(g, done, i)->Some_0 < g.nodes@.len(),
    decreases g.nodes@.len() - i,
{
    if !(i >= g.nodes@.len()) && !(!done[i] && spec_deps_done(g, i, done)) {
        lemma_first_candidate_in_range(g, done, i + 1);
    }
}

proof fn lemma_steps_in_range(g: DependencyGraph, done: Seq<bool>, fuel: nat)
    ensures
        forall|k: int|
            0 <= k < spec_topo_steps(g, done, fuel).len() ==> 0 <= #[trigger] spec_topo_steps(
                g,
                done,
                fuel,
            )[k] < g.nodes@.len(),
    decreases fuel,
{
    if fuel > 0 {
        match spec_first_candidate(g, done, 0) {
            Some(c) => {
                lemma_first_candidate_in_range(g, done, 0);
                lemma_steps_in_range(g, done.update(c, true), (fuel - 1) as nat);
                let steps = spec_topo_steps(g, done, fuel);
                let rest = spec_topo_steps(g, done.update(c, true), (fuel - 1) as nat);
                assert forall|k: int| 0 <= k < steps.len() implies 0 <= #[trigger] steps[k]
                    < g.nodes@.len() by {
                    if k > 0 {
                        assert(steps[k] == rest[k - 1]);
                    }
                }
            },
            None => {},
        }
    }
}

/// Emission under a tag filter is the unfiltered emission restricted to the
/// names of tag-carrying nodes, in the same relative order.
proof fn lemma_emitted_filter(g: DependencyGraph, ord: Seq<int>, t: Seq<char>)
    requires
        distinct_names(g.nodes@),
        forall|k: int| 0 <= k < ord.len() ==> 0 <= #[trigger] ord[k] < g.nodes@.len(),
    ensures
        spec_emitted(g, ord, Some(t)) == spec_emitted(g, ord, None).filter(
            |a: Seq<char>| name_has_tag(g, a, t),
        ),
    decreases ord.len(),
{
    reveal(Seq::filter);
    let pred = |a: Seq<char>| name_has_tag(g, a, t);
    if ord.len() == 0 {
        assert(spec_emitted(g, ord, None).filter(pred) =~= Seq::<Seq<char>>::empty());
    } else {
        let pre = ord.drop_last();
        assert(forall|k: int| 0 <= k < pre.len() ==> 0 <= #[trigger] pre[k] < g.nodes@.len());
        lemma_emitted_filter(g, pre, t);
        let last = ord.last();
        let lastn = g.nodes@[last].name@;
        // the last node's tag membership decides the predicate on its name
        assert(pred(lastn) == crate::project::spec_has_tag(g.nodes@[last].tags@, t)) by {
            if pred(lastn) {
                let j = choose|j: int|
                    0 <= j < g.nodes@.len() && (#[trigger] g.nodes@[j]).name@ == lastn
                        && crate::project::spec_has_tag(g.nodes@[j].tags@, t);
                assert(j == last) by {
                    if j != last {
                        assert(g.nodes@[j].name@ != g.nodes@[last].name@);
                    }
                }
            }
        }
        let un_pre = spec_emitted(g, pre, None);
        let un = spec_emitted(g, ord, None);
        assert(un == un_pre + seq![lastn]);
        assert(un.drop_last() =~= un_pre);
        assert(un.last() == lastn);
        assert(un.filter(pred) == un_pre.filter(pred) + if pred(lastn) {
            seq![lastn]
        } else {
            Seq::<Seq<char>>::empty()
        });
        assert(spec_emitted(g, ord, Some(t)) =~= un.filter(pred));
    }
}

/// Tag filtering is applied at emission time only: the execution order under
/// a tag filter equals the unfiltered execution order restricted to the
/// projects carrying the tag, in the same relative order.
pub proof fn lemma_topo_tag_restriction(g: DependencyGraph, t: Seq<char>)
    requires
        distinct_names(g.nodes@),
    ensures
        spec_topo_order(g, Some(t)) == spec_topo_order(g, None).filter(
            |a: Seq<char>| name_has_tag(g, a, t),
        ),
{
    lemma_steps_in_range(g, no_marks(g.nodes@.len()), g.nodes@.len());
    lemma_emitted_filter(g, spec_process_order(g), t);
}

/// The first node, in declaration order, that is not yet done but whose
/// resolvable dependencies all are.
fn find_candidate(graph: &DependencyGraph, done: &Vec<bool>) -> (r: Option<usize>)
    requires
        distinct_names(graph.nodes@),
        done@.len() == graph.nodes@.len(),
    ensures
        match r {
            Some(c) => c < graph.nodes@.len() && !done@[c as int] && spec_deps_done(
                *graph,
                c as int,
                done@,
            ) && spec_first_candidate(*graph, done@, 0) == Some(c as int),
            None => (forall|k: int|
                0 <= k < graph.nodes@.len() && !done@[k] ==> !spec_deps_done(*graph, k, done@))
                && spec_first_candidate(*graph, done@, 0) is None,
        },
{
    let mut i: usize = 0;
    while i < graph.nodes.len()
        invariant
            distinct_names(graph.nodes@),
            done@.len() == graph.nodes@.len(),
            i <= graph.nodes@.len(),
            forall|k: int| 0 <= k < i && !done@[k] ==> !spec_deps_done(*graph, k, done@),
            spec_first_candidate(*graph, done@, 0) == spec_first_candidate(
                *graph,
                done@,
                i as int,
            ),
        decreases graph.nodes@.len() - i,
    {
        if !done[i] {
            if deps_done(graph, i, done) {
                return Some(i);
            }
        }
        i = i + 1;
    }
    None
}

/// Any stuck set avoids every processed node: its earliest processed member
/// would need a member dependency processed still earlier.
#[verifier::rlimit(60)]
proof fn lemma_stuck_not_processed(
    g: DependencyGraph,
    order: Seq<int>,
    s: Set<Seq<char>>,
    p: int,
)
    requires
        distinct_names(g.nodes@),
        forall|q: int| 0 <= q < order.len() ==> 0 <= #[trigger] order[q] < g.nodes@.len(),
        deps_processed_in_order(g, order),
        stuck_set(g, s),
        0 <= p < order.len(),
    ensures
        !s.contains(g.nodes@[order[p]].name@),
    decreases p,
{
    let a = g.nodes@[order[p]].name@;
    if s.contains(a) {
        reveal(has_member_edge);
        let b = choose|b: Seq<char>| s.contains(b) && spec_edge(g, a, b);
        let i = choose|i: int|
            0 <= i < g.nodes@.len() && (#[trigger] g.nodes@[i]).name@ == a && views(
                g.nodes@[i].depends_on@,
            ).contains(b) && g.is_node(b);
        let j = choose|j: int| 0 <= j < g.nodes@.len() && (#[trigger] g.nodes@[j]).name@ == b;
        assert(i == order[p]) by {
            if i != order[p] {
                assert(g.nodes@[i].name@ != g.nodes@[order[p]].name@);
            }
        }
        assert(views(g.nodes@[order[p]].depends_on@).contains(g.nodes@[j].name@));
        let q = choose|q: int| 0 <= q < p && order[q] == j;
        lemma_stuck_not_processed(g, order, s, q);
        assert(!s.contains(b));
    }
}

/// With every node processed in a dependency-respecting order, no stuck set
/// can be nonempty, so the graph has no cycle.
proof fn lemma_no_cycle_when_all_processed(g: DependencyGraph, order: Seq<int>)
    requires
        distinct_names(g.nodes@),
        forall|q: int| 0 <= q < order.len() ==> 0 <= #[trigger] order[q] < g.nodes@.len(),
        deps_processed_in_order(g, order),
        forall|j: int| 0 <= j < g.nodes@.len() ==> #[trigger] order.contains(j),
    ensures
        !has_cycle(g),
{
    assert forall|s: Set<Seq<char>>| !(#[trigger] stuck_set(g, s) && exists|a: Seq<char>|
        s.contains(a)) by {
        if stuck_set(g, s) && exists|a: Seq<char>| s.contains(a) {
            let a = choose|a: Seq<char>| s.contains(a);
            assert(g.is_node(a));
            let i = choose|i: int| 0 <= i < g.nodes@.len() && (#[trigger] g.nodes@[i]).name@ == a;
            assert(order.contains(i));
            let p = choose|p: int| 0 <= p < order.len() && #[trigger] order[p] == i;
            lemma_stuck_not_processed(g, order, s, p);
            assert(false);
        }
    }
}

/// When the count of true entries falls short of the length, some entry is
/// false.
proof fn lemma_exists_false(done: Seq<bool>)
    requires
        count_true(done) < done.len(),
    ensures
        exists|j: int| 0 <= j < done.len() && !(#[trigger] done[j]),
{
    if forall|j: int| 0 <= j < done.len() ==> (#[trigger] done[j]) {
        lemma_count_true_all_conv(done);
    }
}

/// The unprocessed nodes left when no candidate remains form the largest
/// stuck set, witnessing the cycle.
#[verifier::rlimit(60)]
proof fn lemma_leftover_err(
    g: DependencyGraph,
    done: Seq<bool>,
    order: Seq<int>,
    lv: Seq<Seq<char>>,
    lowners: Seq<int>,
)
    requires
        distinct_names(g.nodes@),
        done.len() == g.nodes@.len(),
        count_true(done) < done.len(),
        forall|q: int| 0 <= q < order.len() ==> 0 <= #[trigger] order[q] < g.nodes@.len(),
        deps_processed_in_order(g, order),
        forall|j: int| 0 <= j < g.nodes@.len() ==> ((#[trigger] done[j]) <==> order.contains(j)),
        forall|k: int| 0 <= k < g.nodes@.len() && !done[k] ==> !spec_deps_done(g, k, done),
        lowners.len() == lv.len(),
        forall|k: int|
            0 <= k < lowners.len() ==> 0 <= #[trigger] lowners[k] < g.nodes@.len()
                && !done[lowners[k]] && lv[k] == g.nodes@[lowners[k]].name@,
        forall|j: int|
            0 <= j < g.nodes@.len() && !done[j] ==> lv.contains((#[trigger] g.nodes@[j]).name@),
    ensures
        stuck_set(g, lv.to_set()),
        lv.len() > 0,
        has_cycle(g),
        forall|s: Set<Seq<char>>| #[trigger] stuck_set(g, s) ==> s.subset_of(lv.to_set()),
{
    let lset = lv.to_set();
    assert forall|a: Seq<char>| #[trigger] lset.contains(a) implies g.is_node(a)
        && has_member_edge(g, lset, a) by {
        reveal(has_member_edge);
        let k = choose|k: int| 0 <= k < lv.len() && #[trigger] lv[k] == a;
        let j = lowners[k];
        assert(!done[j] && lv[k] == g.nodes@[j].name@);
        assert(g.is_node(a));
        assert(!spec_deps_done(g, j, done));
        let j2 = choose|j2: int|
            0 <= j2 < g.nodes@.len() && views(g.nodes@[j].depends_on@).contains(
                (#[trigger] g.nodes@[j2]).name@,
            ) && !done[j2];
        let b = g.nodes@[j2].name@;
        assert(lv.contains(b));
        assert(lset.contains(b));
        assert(spec_edge(g, a, b)) by {
            assert(g.nodes@[j].name@ == a);
            assert(views(g.nodes@[j].depends_on@).contains(b));
            assert(g.is_node(b));
        }
    }
    assert(stuck_set(g, lset));
    lemma_exists_false(done);
    let j0 = choose|j: int| 0 <= j < done.len() && !(#[trigger] done[j]);
    assert(lv.contains(g.nodes@[j0].name@));
    assert(lv.len() > 0);
    assert(has_cycle(g)) by {
        assert(lset.contains(lv[0]));
        assert(stuck_set(g, lset) && exists|a: Seq<char>| lset.contains(a));
    }
    assert forall|s: Set<Seq<char>>| #[trigger] stuck_set(g, s) implies s.subset_of(lset) by {
        assert forall|a: Seq<char>| s.contains(a) implies lset.contains(a) by {
            let i2 = choose|i2: int|
                0 <= i2 < g.nodes@.len() && (#[trigger] g.nodes@[i2]).name@ == a;
            if done[i2] {
                let p = choose|p: int| 0 <= p < order.len() && #[trigger] order[p] == i2;
                lemma_stuck_not_processed(g, order, s, p);
                assert(false);
            }
            assert(lv.contains(a));
        }
    }
}

/// A dependency-respecting execution order over the graph's nodes.
///
/// Kahn-style processing: a node is emitted only after every dependency of
/// it that resolves to a node has been processed; dangling dependency names
/// are ignored.  The tag filter is applied at emission time only, so
/// filtering never reorders the projects that are emitted.  When a
/// dependency cycle makes some nodes unorderable, the order is refused and
/// the error names exactly the projects involved (the cycle members and
/// everything depending on them); silently omitting them would let a
/// caller run an incomplete plan without noticing, so the explicit error
/// is the documented choice here.
#[verifier::rlimit(100)]
pub fn topological_sort(graph: &DependencyGraph, tag_filter: Option<&String>) -> (r: Result<
    Vec<String>,
    CycleError,
>)
    requires
        graph.wf(),
    ensures
        match r {
            Ok(order) => {
                &&& !has_cycle(*graph)
                &&& views(order@).no_duplicates()
                &&& forall|j: int|
                    0 <= j < graph.nodes@.len() ==> (spec_tag_pass(
                        (#[trigger] graph.nodes@[j]).tags@,
                        filter_view(tag_filter),
                    ) <==> views(order@).contains(graph.nodes@[j].name@))
                &&& forall|k: int|
                    0 <= k < order@.len() ==> graph.is_node(#[trigger] views(order@)[k])
                &&& views(order@) == spec_topo_order(*graph, filter_view(tag_filter))
                &&& forall|pa: int, pb: int|
                    0 <= pa < order@.len() && 0 <= pb < order@.len() && #[trigger] spec_edge(
                        *graph,
                        views(order@)[pa],
                        views(order@)[pb],
                    ) ==> pb < pa
            },
            Err(e) => {
                &&& has_cycle(*graph)
                &&& views(e.projects@).no_duplicates()
                &&& views(e.projects@).len() > 0
                &&& stuck_set(*graph, views(e.projects@).to_set())
                &&& forall|s: Set<Seq<char>>|
                    #[trigger] stuck_set(*graph, s) ==> s.subset_of(views(e.projects@).to_set())
            },
        },
{
    let ghost g = *graph;
    let ghost filt = filter_view(tag_filter);
    let n: usize = graph.nodes.len();
    let mut done: Vec<bool> = Vec::new();
    let mut t: usize = 0;
    while t < n
        invariant
            done@.len() == t,
            t <= n,
            count_true(done@) == 0,
            forall|j: int| 0 <= j < t ==> !(#[trigger] done@[j]),
        decreases n - t,
    {
        proof {
            lemma_count_true_push(done@, false);
        }
        done.push(false);
        t = t + 1;
    }
    let mut emitted: Vec<String> = Vec::new();
    let mut processed_count: usize = 0;
    let ghost mut order: Seq<int> = Seq::empty();
    let ghost mut owners: Seq<int> = Seq::empty();
    let mut stuck: bool = false;
    proof {
        assert(done@ =~= no_marks(n as nat));
        assert(spec_process_order(g) =~= order + spec_topo_steps(g, done@, n as nat));
    }
    while !stuck && processed_count < n
        invariant
            g == *graph,
            distinct_names(g.nodes@),
            filt == filter_view(tag_filter),
            n == g.nodes@.len(),
            done@.len() == n,
            processed_count == count_true(done@),
            processed_count == order.len(),
            order.len() <= n,
            spec_process_order(g) == order + spec_topo_steps(g, done@, (n - order.len()) as nat),
            views(emitted@) == spec_emitted(g, order, filt),
            order.no_duplicates(),
            forall|q: int| 0 <= q < order.len() ==> 0 <= #[trigger] order[q] < n,
            forall|j: int| 0 <= j < n ==> ((#[trigger] done@[j]) <==> order.contains(j)),
            deps_processed_in_order(g, order),
            owners.len() == emitted@.len(),
            forall|k: int|
                0 <= k < owners.len() ==> 0 <= #[trigger] owners[k] < n && done@[owners[k]]
                    && views(emitted@)[k] == g.nodes@[owners[k]].name@,
            views(emitted@).no_duplicates(),
            forall|j: int|
                0 <= j < n ==> ((done@[j] && spec_tag_pass((#[trigger] g.nodes@[j]).tags@, filt))
                    <==> views(emitted@).contains(g.nodes@[j].name@)),
            forall|pa: int, pb: int|
                0 <= pa < emitted@.len() && 0 <= pb < emitted@.len() && #[trigger] spec_edge(
                    g,
                    views(emitted@)[pa],
                    views(emitted@)[pb],
                ) ==> pb < pa,
            stuck ==> processed_count < n && forall|k: int|
                0 <= k < n && !done@[k] ==> !spec_deps_done(g, k, done@),
        decreases n - processed_count, (if stuck { 0int } else { 1int }),
    {
        match find_candidate(graph, &done) {
            Some(c) => {
                let ghost done0 = done@;
                let ghost e0 = views(emitted@);
                let ghost order0 = order;
                let ghost owners0 = owners;
                proof {
                    lemma_count_true_update(done0, c as int);
                }
                done.set(c, true);
                processed_count = processed_count + 1;
                proof {
                    order = order.push(c as int);
                    assert(done@ =~= done0.update(c as int, true));
                    assert(order.drop_last() =~= order0);
                    // the spec's processing order picks exactly this candidate
                    assert(spec_first_candidate(g, done0, 0) == Some(c as int));
                    assert(spec_topo_steps(g, done0, (n - order0.len()) as nat) == seq![
                        c as int,
                    ] + spec_topo_steps(g, done@, (n - order.len()) as nat));
                    assert(order0 + seq![c as int] =~= order);
                    assert(spec_process_order(g) =~= order + spec_topo_steps(
                        g,
                        done@,
                        (n - order.len()) as nat,
                    ));
                    assert(!order0.contains(c as int));
                    assert forall|i2: int, j2: int| 0 <= i2 < j2 < order.len() implies order[i2]
                        != order[j2] by {
                        if j2 < order.len() - 1 {
                            assert(order0[i2] == order[i2]);
                            assert(order0[j2] == order[j2]);
                        } else {
                            assert(order0[i2] == order[i2]);
                            if order[i2] == c as int {
                                assert(order0.contains(c as int));
                            }
                        }
                    }
                    assert forall|j: int| 0 <= j < n implies ((#[trigger] done@[j])
                        <==> order.contains(j)) by {
                        if j == c as int {
                            assert(order[order.len() - 1] == c as int);
                        } else {
                            if done0[j] {
                                let q = choose|q: int|
                                    0 <= q < order0.len() && #[trigger] order0[q] == j;
                                assert(order[q] == order0[q]);
                                assert(order[q] == j);
                            }
                            if order.contains(j) {
                                let q = choose|q: int| 0 <= q < order.len() && #[trigger] order[q] == j;
                                assert(q < order.len() - 1);
                                assert(order0[q] == j);
                                assert(order0.contains(j));
                            }
                        }
                    }
                    // every resolvable dependency of `c` was processed earlier
                    assert(deps_processed_in_order(g, order)) by {
                        assert forall|p: int, j: int|
                            0 <= p < order.len() && 0 <= j < g.nodes@.len() && #[trigger] views(
                                g.nodes@[order[p]].depends_on@,
                            ).contains(g.nodes@[j].name@) implies exists|q: int|
                            0 <= q < p && order[q] == j by {
                            if p < order.len() - 1 {
                                assert(order0[p] == order[p]);
                                assert(views(g.nodes@[order0[p]].depends_on@).contains(
                                    g.nodes@[j].name@,
                                ));
                                let q = choose|q: int| 0 <= q < p && order0[q] == j;
                                assert(order[q] == order0[q]);
                                assert(order[q] == j);
                            } else {
                                assert(order[p] == c as int);
                                assert(spec_deps_done(g, c as int, done0));
                                assert(done0[j]);
                                assert(order0.contains(j));
                                let q = choose|q: int|
                                    0 <= q < order0.len() && #[trigger] order0[q] == j;
                                assert(order[q] == order0[q]);
                                assert(order[q] == j);
                            }
                        }
                    }
                }
                let pass = match tag_filter {
                    Some(tg) => vec_contains_str(&graph.nodes[c].tags, tg.as_str()),
                    None => true,
                };
                proof {
                    lemma_contains_str_views(g.nodes@[c as int].tags@, match tag_filter {
                        Some(tg) => tg@,
                        None => Seq::empty(),
                    });
                    assert(pass == spec_tag_pass(g.nodes@[c as int].tags@, filt));
                    // the name of `c` is not yet emitted
                    if e0.contains(g.nodes@[c as int].name@) {
                        let k = choose|k: int| 0 <= k < e0.len() && #[trigger] e0[k] == g.nodes@[
                            c as int].name@;
                        let j = owners0[k];
                        assert(done0[j] && e0[k] == g.nodes@[j].name@);
                        assert(j == c as int) by {
                            if j != c as int {
                                assert(g.nodes@[j].name@ != g.nodes@[c as int].name@);
                            }
                        }
                        assert(false);
                    }
                }
                if pass {
                    emitted.push(graph.nodes[c].name.clone());
                    proof {
                        owners = owners.push(c as int);
                    }
                }
                proof {
                    let cname = g.nodes@[c as int].name@;
                    if pass {
                        assert(views(emitted@) =~= e0.push(cname));
                        lemma_no_dup_push(e0, cname);
                    } else {
                        assert(views(emitted@) == e0);
                    }
                    // the emitted names follow the spec's emission of `order`
                    assert(order.drop_last() =~= order0);
                    assert(order.last() == c as int);
                    assert(spec_emitted(g, order, filt) == spec_emitted(g, order0, filt)
                        + if spec_tag_pass(g.nodes@[c as int].tags@, filt) {
                        seq![cname]
                    } else {
                        Seq::<Seq<char>>::empty()
                    });
                    assert(views(emitted@) =~= spec_emitted(g, order, filt));
                    assert forall|k: int|
                        0 <= k < owners.len() implies 0 <= #[trigger] owners[k] < n
                            && done@[owners[k]] && views(emitted@)[k] == g.nodes@[owners[
                        k]].name@ by {
                        if k < owners0.len() {
                            assert(owners[k] == owners0[k]);
                            assert(views(emitted@)[k] == e0[k]);
                            assert(done@[owners0[k]] == done0.update(c as int, true)[owners0[k]]);
                        } else {
                            assert(owners[k] == c as int);
                            assert(views(emitted@)[k] == cname);
                        }
                    }
                    // membership of emitted names per node
                    assert forall|j: int| 0 <= j < n implies ((done@[j] && spec_tag_pass(
                        (#[trigger] g.nodes@[j]).tags@,
                        filt,
                    )) <==> views(emitted@).contains(g.nodes@[j].name@)) by {
                        if j == c as int {
                            if pass {
                                assert(views(emitted@)[e0.len() as int] == cname);
                            } else {
                                if views(emitted@).contains(g.nodes@[j].name@) {
                                    assert(e0.contains(cname));
                                }
                            }
                        } else {
                            assert(done@[j] == done0[j]);
                            if done0[j] && spec_tag_pass(g.nodes@[j].tags@, filt) {
                                if pass {
                                    lemma_contains_push(e0, cname, g.nodes@[j].name@);
                                }
                            }
                            if views(emitted@).contains(g.nodes@[j].name@) {
                                if pass {
                                    lemma_contains_push_inv(e0, cname, g.nodes@[j].name@);
                                    if g.nodes@[j].name@ == cname {
                                        assert(g.nodes@[j].name@ != g.nodes@[c as int].name@);
                                    }
                                    assert(e0.contains(g.nodes@[j].name@));
                                }
                            }
                        }
                    }
                    // emission order respects resolvable dependencies
                    assert forall|pa: int, pb: int|
                        0 <= pa < emitted@.len() && 0 <= pb < emitted@.len()
                            && #[trigger] spec_edge(
                            g,
                            views(emitted@)[pa],
                            views(emitted@)[pb],
                        ) implies pb < pa by {
                        if pass && (pa == e0.len() || pb == e0.len()) {
                            if pa == e0.len() && pb == e0.len() {
                                // a self-dependency would have blocked `c`
                                let i = choose|i: int|
                                    0 <= i < g.nodes@.len() && (#[trigger] g.nodes@[i]).name@
                                        == cname && views(g.nodes@[i].depends_on@).contains(cname)
                                        && g.is_node(cname);
                                assert(i == c as int) by {
                                    if i != c as int {
                                        assert(g.nodes@[i].name@ != g.nodes@[c as int].name@);
                                    }
                                }
                                assert(spec_deps_done(g, c as int, done0));
                                assert(done0[c as int]);
                                assert(false);
                            } else if pb == e0.len() {
                                // an already emitted project cannot depend on `c`
                                let a = views(emitted@)[pa];
                                assert(e0[pa] == a);
                                let j = owners0[pa];
                                assert(done0[j] && e0[pa] == g.nodes@[j].name@);
                                let i = choose|i: int|
                                    0 <= i < g.nodes@.len() && (#[trigger] g.nodes@[i]).name@ == a
                                        && views(g.nodes@[i].depends_on@).contains(cname)
                                        && g.is_node(cname);
                                assert(i == j) by {
                                    if i != j {
                                        assert(g.nodes@[i].name@ != g.nodes@[j].name@);
                                    }
                                }
                                assert(done0[j]);
                                assert(order0.contains(j));
                                let pj = choose|pj: int|
                                    0 <= pj < order0.len() && #[trigger] order0[pj] == j;
                                assert(order[pj] == order0[pj]);
                                assert(order[pj] == j);
                                assert(views(g.nodes@[order[pj]].depends_on@).contains(
                                    g.nodes@[c as int].name@,
                                ));
                                let q = choose|q: int| 0 <= q < pj && order[q] == c as int;
                                assert(order0[q] == order[q]);
                                assert(order0.contains(c as int));
                                assert(false);
                            } else {
                                // pa == e0.len(): the new position is last
                            }
                        } else {
                            assert(e0[pa] == views(emitted@)[pa]);
                            assert(e0[pb] == views(emitted@)[pb]);
                        }
                    }
                }
            },
            None => {
                stuck = true;
                proof {
                    lemma_count_true_le(done@);
                    if processed_count == n {
                        lemma_count_true_all(done@);
                    }
                    assert(processed_count < n) by {
                        if processed_count == n {
                            assert(forall|j: int| 0 <= j < n ==> done@[j]);
                            assert(count_true(done@) == n);
                        }
                    }
                }
            },
        }
    }
    if !stuck {
        proof {
            lemma_count_true_le(done@);
            assert(processed_count == n);
            lemma_count_true_all(done@);
            assert(spec_topo_steps(g, done@, (n - order.len()) as nat)
                == Seq::<int>::empty());
            assert(spec_process_order(g) =~= order);
            assert(views(emitted@) == spec_topo_order(g, filt));
            assert forall|j: int| 0 <= j < n implies #[trigger] order.contains(j) by {
                assert(done@[j]);
            }
            lemma_no_cycle_when_all_processed(g, order);
            assert forall|k: int| 0 <= k < emitted@.len() implies g.is_node(
                #[trigger] views(emitted@)[k],
            ) by {
                let j = owners[k];
                assert(views(emitted@)[k] == g.nodes@[j].name@);
            }
        }
        Ok(emitted)
    } else {
        let mut leftover: Vec<String> = Vec::new();
        let ghost mut lowners: Seq<int> = Seq::empty();
        let mut i: usize = 0;
        while i < n
            invariant
                g == *graph,
                distinct_names(g.nodes@),
                n == g.nodes@.len(),
                done@.len() == n,
                i <= n,
                views(leftover@).no_duplicates(),
                lowners.len() == leftover@.len(),
                forall|k: int|
                    0 <= k < lowners.len() ==> 0 <= #[trigger] lowners[k] < i
                        && !done@[lowners[k]] && views(leftover@)[k] == g.nodes@[lowners[
                    k]].name@,
                forall|j: int|
                    0 <= j < i && !done@[j] ==> views(leftover@).contains(
                        (#[trigger] g.nodes@[j]).name@,
                    ),
            decreases n - i,
        {
            let ghost l0 = views(leftover@);
            let ghost lowners0 = lowners;
            if !done[i] {
                proof {
                    if l0.contains(g.nodes@[i as int].name@) {
                        let k = choose|k: int|
                            0 <= k < l0.len() && #[trigger] l0[k] == g.nodes@[i as int].name@;
                        let j = lowners0[k];
                        assert(g.nodes@[j].name@ != g.nodes@[i as int].name@);
                        assert(false);
                    }
                    lemma_no_dup_push(l0, g.nodes@[i as int].name@);
                }
                leftover.push(graph.nodes[i].name.clone());
                proof {
                    lowners = lowners.push(i as int);
                    assert(views(leftover@) =~= l0.push(g.nodes@[i as int].name@));
                    assert forall|k: int|
                        0 <= k < lowners.len() implies 0 <= #[trigger] lowners[k] < i + 1
                            && !done@[lowners[k]] && views(leftover@)[k] == g.nodes@[lowners[
                        k]].name@ by {
                        if k < lowners0.len() {
                            assert(lowners[k] == lowners0[k]);
                            assert(views(leftover@)[k] == l0[k]);
                        } else {
                            assert(lowners[k] == i as int);
                            assert(views(leftover@)[k] == g.nodes@[i as int].name@);
                        }
                    }
                    assert forall|j: int|
                        0 <= j < i + 1 && !done@[j] implies views(leftover@).contains(
                        (#[trigger] g.nodes@[j]).name@,
                    ) by {
                        if j < i {
                            lemma_contains_push(l0, g.nodes@[i as int].name@, g.nodes@[j].name@);
                        } else {
                            assert(views(leftover@)[l0.len() as int] == g.nodes@[i as int].name@);
                        }
                    }
                }
            }
            i = i + 1;
        }
        proof {
            lemma_leftover_err(g, done@, order, views(leftover@), lowners);
        }
        Err(CycleError { projects: leftover })
    }
}

proof fn lemma_count_true_all_conv(s: Seq<bool>)
    requires
        forall|j: int| 0 <= j < s.len() ==> s[j],
    ensures
        count_true(s) == s.len(),
    decreases s.len(),
{
    if s.len() > 0 {
        assert(forall|j: int| 0 <= j < s.drop_last().len() ==> s.drop_last()[j]);
        lemma_count_true_all_conv(s.drop_last());
    }
}

/// Impact analysis is stable under reordering of `depends_on` lists: two
/// well-formed graphs whose projects agree on names and list the same
/// dependencies with the same multiplicities (in any order) reach exactly
/// the same dependents, so `analyze_project_impact` reports the same
/// `total_affected` for every project name on either graph.
pub proof fn lemma_impact_stable_under_reordering(
    g1: DependencyGraph,
    g2: DependencyGraph,
    x: Seq<char>,
)
    requires
        g1.wf(),
        g2.wf(),
        g1.nodes@.len() == g2.nodes@.len(),
        forall|i: int|
            0 <= i < g1.nodes@.len() ==> (#[trigger] g1.nodes@[i]).name@ == g2.nodes@[i].name@,
        forall|i: int, c: Seq<char>|
            0 <= i < g1.nodes@.len() ==> #[trigger] count_str(
                views(g1.nodes@[i].depends_on@),
                c,
            ) == count_str(views(g2.nodes@[i].depends_on@), c),
    ensures
        forall|a: Seq<char>, b: Seq<char>| #[trigger] g1.rev_adj(a, b) <==> g2.rev_adj(a, b),
        reach_set(g1, x) == reach_set(g2, x),
        reach_set(g1, x).len() == reach_set(g2, x).len(),
{
    assert forall|a: Seq<char>, b: Seq<char>| #[trigger] g1.rev_adj(a, b) <==> g2.rev_adj(
        a,
        b,
    ) by {
        lemma_dep_count_same_multiplicities(g1.nodes@, g2.nodes@, a, b);
        assert(count_str(g1.rev_list(a), b) == dep_count(g1.nodes@, a, b));
        assert(count_str(g2.rev_list(a), b) == dep_count(g2.nodes@, a, b));
        lemma_count_str_contains(g1.rev_list(a), b);
        lemma_count_str_contains(g2.rev_list(a), b);
    }
    assert forall|y: Seq<char>| reachable(g1, x, y) implies reachable(g2, x, y) by {
        let p = choose|p: Seq<Seq<char>>| is_rev_path(g1, x, p) && p.last() == y;
        assert(is_rev_path(g2, x, p));
    }
    assert forall|y: Seq<char>| reachable(g2, x, y) implies reachable(g1, x, y) by {
        let p = choose|p: Seq<Seq<char>>| is_rev_path(g2, x, p) && p.last() == y;
        assert(is_rev_path(g1, x, p));
    }
    assert(reach_set(g1, x) =~= reach_set(g2, x));
}

/// Node lists that agree on names and dependency multiplicities produce the
/// same transpose counts.
proof fn lemma_dep_count_same_multiplicities(
    p1: Seq<ExtendedProjectInfo>,
    p2: Seq<ExtendedProjectInfo>,
    d: Seq<char>,
    a: Seq<char>,
)
    requires
        p1.len() == p2.len(),
        forall|i: int| 0 <= i < p1.len() ==> (#[trigger] p1[i]).name@ == p2[i].name@,
        forall|i: int, c: Seq<char>|
            0 <= i < p1.len() ==> #[trigger] count_str(views(p1[i].depends_on@), c) == count_str(
                views(p2[i].depends_on@),
                c,
            ),
    ensures
        dep_count(p1, d, a) == dep_count(p2, d, a),
    decreases p1.len(),
{
    if p1.len() > 0 {
        lemma_dep_count_same_multiplicities(p1.drop_last(), p2.drop_last(), d, a);
        assert(count_str(views(p1[p1.len() - 1].depends_on@), d) == count_str(
            views(p2[p1.len() - 1].depends_on@),
            d,
        ));
    }
}

/// Projects that agree pointwise on names and dependency lists produce the
/// same transpose counts.
proof fn lemma_dep_count_congruent(
    p1: Seq<ExtendedProjectInfo>,
    p2: Seq<ExtendedProjectInfo>,
    d: Seq<char>,
    a: Seq<char>,
)
    requires
        p1.len() == p2.len(),
        forall|i: int|
            0 <= i < p1.len() ==> (#[trigger] p1[i]).name@ == p2[i].name@ && p1[i].depends_on@
                == p2[i].depends_on@,
    ensures
        dep_count(p1, d, a) == dep_count(p2, d, a),
    decreases p1.len(),
{
    if p1.len() > 0 {
        lemma_dep_count_congruent(p1.drop_last(), p2.drop_last(), d, a);
        assert(p1.last().name@ == p2.last().name@);
        assert(views(p1.last().depends_on@) == views(p2.last().depends_on@));
    }
}

} // verus!
