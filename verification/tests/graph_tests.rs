use meta_workspace::graph::{analyze_project_impact, build_dependency_graph, topological_sort};
use meta_workspace::project::ExtendedProjectInfo;

fn proj(name: &str, tags: &[&str], depends_on: &[&str]) -> ExtendedProjectInfo {
    ExtendedProjectInfo {
        name: name.to_owned(),
        path: name.to_owned(),
        repo: format!("git@example.com:{name}.git"),
        tags: tags.iter().map(|t| t.to_string()).collect(),
        provides: Vec::new(),
        depends_on: depends_on.iter().map(|d| d.to_string()).collect(),
    }
}

#[test]
fn impact_of_direct_and_transitive_dependents() {
    // web -> api -> core, cli -> core
    let projects = vec![
        proj("core", &[], &[]),
        proj("api", &[], &["core"]),
        proj("web", &[], &["api"]),
        proj("cli", &[], &["core"]),
    ];
    let graph = build_dependency_graph(&projects);
    let impact = analyze_project_impact("core", &graph);
    assert_eq!(impact.project, "core");
    assert_eq!(impact.direct_dependents, vec!["api".to_string(), "cli".to_string()]);
    assert_eq!(impact.transitive_dependents, vec!["web".to_string()]);
    assert_eq!(impact.total_affected, 3);
}

#[test]
fn impact_of_unknown_project_is_empty() {
    let projects = vec![proj("core", &[], &[])];
    let graph = build_dependency_graph(&projects);
    let impact = analyze_project_impact("nowhere", &graph);
    assert!(impact.direct_dependents.is_empty());
    assert!(impact.transitive_dependents.is_empty());
    assert_eq!(impact.total_affected, 0);
}

#[test]
fn impact_is_stable_under_dependency_reordering() {
    let a = vec![
        proj("core", &[], &[]),
        proj("util", &[], &[]),
        proj("api", &[], &["core", "util"]),
        proj("web", &[], &["api"]),
    ];
    let b = vec![
        proj("core", &[], &[]),
        proj("util", &[], &[]),
        proj("api", &[], &["util", "core"]),
        proj("web", &[], &["api"]),
    ];
    let ga = build_dependency_graph(&a);
    let gb = build_dependency_graph(&b);
    let ia = analyze_project_impact("core", &ga);
    let ib = analyze_project_impact("core", &gb);
    assert_eq!(ia.total_affected, ib.total_affected);
    assert_eq!(ia.total_affected, 2);
}

#[test]
fn impact_terminates_on_cycles() {
    // a -> b -> c -> a
    let projects = vec![
        proj("a", &[], &["b"]),
        proj("b", &[], &["c"]),
        proj("c", &[], &["a"]),
    ];
    let graph = build_dependency_graph(&projects);
    let impact = analyze_project_impact("a", &graph);
    // everything, the origin included, is reachable along the cycle
    assert_eq!(impact.direct_dependents, vec!["c".to_string()]);
    assert_eq!(impact.total_affected, 3);
    // the origin and the direct dependents stay out of the transitive list
    assert!(!impact.transitive_dependents.contains(&"a".to_string()));
    assert!(!impact.transitive_dependents.contains(&"c".to_string()));
    assert!(impact.transitive_dependents.contains(&"b".to_string()));
}

#[test]
fn topological_order_puts_dependencies_first() {
    let projects = vec![
        proj("app", &[], &["lib"]),
        proj("lib", &[], &[]),
        proj("tool", &[], &["lib", "app"]),
    ];
    let graph = build_dependency_graph(&projects);
    let order = topological_sort(&graph, None).unwrap();
    assert_eq!(order.len(), 3);
    let pos = |n: &str| order.iter().position(|x| x == n).unwrap();
    assert!(pos("lib") < pos("app"));
    assert!(pos("lib") < pos("tool"));
    assert!(pos("app") < pos("tool"));
}

#[test]
fn topological_order_applies_tag_filter_at_emission() {
    let projects = vec![
        proj("app", &["frontend"], &["lib"]),
        proj("lib", &["backend"], &[]),
        proj("tool", &["backend"], &["lib"]),
    ];
    let graph = build_dependency_graph(&projects);
    let tag = "backend".to_string();
    let order = topological_sort(&graph, Some(&tag)).unwrap();
    assert_eq!(order, vec!["lib".to_string(), "tool".to_string()]);
}

#[test]
fn topological_order_reports_cycles() {
    let projects = vec![
        proj("a", &[], &["b"]),
        proj("b", &[], &["a"]),
        proj("free", &[], &[]),
        proj("rider", &[], &["a"]),
    ];
    let graph = build_dependency_graph(&projects);
    let err = topological_sort(&graph, None).unwrap_err();
    // the error names the cycle members and everything depending on them
    let mut involved = err.projects.clone();
    involved.sort();
    assert_eq!(involved, vec!["a".to_string(), "b".to_string(), "rider".to_string()]);
}

#[test]
fn dangling_dependencies_are_tolerated() {
    let projects = vec![
        proj("app", &[], &["vanished", "lib"]),
        proj("lib", &[], &["also-gone"]),
    ];
    let graph = build_dependency_graph(&projects);
    let impact = analyze_project_impact("vanished", &graph);
    assert_eq!(impact.direct_dependents, vec!["app".to_string()]);
    assert_eq!(impact.total_affected, 1);
    let order = topological_sort(&graph, None).unwrap();
    assert_eq!(order, vec!["lib".to_string(), "app".to_string()]);
}

#[test]
fn tag_filtered_order_is_the_unfiltered_order_restricted() {
    let projects = vec![
        proj("lib", &["backend"], &[]),
        proj("app", &["frontend"], &["lib"]),
        proj("svc", &["backend"], &["lib"]),
        proj("cli", &["frontend"], &["svc"]),
    ];
    let graph = build_dependency_graph(&projects);
    let unfiltered = topological_sort(&graph, None).unwrap();
    for tag in ["backend", "frontend"] {
        let tag_s = tag.to_string();
        let filtered = topological_sort(&graph, Some(&tag_s)).unwrap();
        let restricted: Vec<String> = unfiltered
            .iter()
            .filter(|n| {
                projects
                    .iter()
                    .find(|p| &p.name == *n)
                    .map(|p| p.tags.contains(&tag_s))
                    .unwrap_or(false)
            })
            .cloned()
            .collect();
        assert_eq!(filtered, restricted);
    }
}
