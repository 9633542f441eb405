use meta_workspace::query::{
    collect_repo_state, get_ahead_behind, matches_query, parse_query, AheadBehindError, RepoState,
};
use meta_workspace::project::ProjectInfo;

fn state(branch: &str, dirty: bool, tags: &[&str], ahead: u32, behind: u32) -> RepoState {
    RepoState {
        name: "repo".to_owned(),
        path: "repo".to_owned(),
        tags: tags.iter().map(|t| t.to_string()).collect(),
        branch: branch.to_owned(),
        is_dirty: dirty,
        ahead,
        behind,
        last_commit: String::new(),
    }
}

#[test]
fn parse_query_splits_on_and() {
    let conds = parse_query("dirty:true AND tag:backend");
    assert_eq!(conds, vec![
        ("dirty".to_string(), "true".to_string()),
        ("tag".to_string(), "backend".to_string()),
    ]);
}

#[test]
fn parse_query_is_case_insensitive_about_and_and_fields() {
    let conds = parse_query("DIRTY:true and Branch: main ");
    assert_eq!(conds, vec![
        ("dirty".to_string(), "true".to_string()),
        ("branch".to_string(), "main".to_string()),
    ]);
}

#[test]
fn parse_query_drops_malformed_conjuncts() {
    let conds = parse_query("no-colon-here AND branch:main AND   ");
    assert_eq!(conds, vec![("branch".to_string(), "main".to_string())]);
}

#[test]
fn parse_query_of_empty_string_is_empty() {
    assert!(parse_query("").is_empty());
    assert!(parse_query("   ").is_empty());
}

#[test]
fn query_and_semantics() {
    let conds = parse_query("dirty:true AND tag:backend");
    let both = state("main", true, &["backend"], 0, 0);
    let only_dirty = state("main", true, &["frontend"], 0, 0);
    let only_tagged = state("main", false, &["backend"], 0, 0);
    assert!(matches_query(&both, &conds));
    assert!(!matches_query(&only_dirty, &conds));
    assert!(!matches_query(&only_tagged, &conds));
}

#[test]
fn query_branch_and_divergence_fields() {
    let st = state("develop", false, &[], 2, 0);
    assert!(matches_query(&st, &parse_query("branch:develop")));
    assert!(!matches_query(&st, &parse_query("branch:main")));
    assert!(matches_query(&st, &parse_query("ahead:true")));
    assert!(matches_query(&st, &parse_query("behind:false")));
    assert!(!matches_query(&st, &parse_query("behind:true")));
}

#[test]
fn query_unknown_fields_always_match() {
    let st = state("main", false, &[], 0, 0);
    assert!(matches_query(&st, &parse_query("flavor:sweet")));
    assert!(matches_query(&st, &parse_query("flavor:sweet AND branch:main")));
    assert!(!matches_query(&st, &parse_query("flavor:sweet AND branch:dev")));
}

#[test]
fn query_dirty_value_other_than_true_means_false() {
    let clean = state("main", false, &[], 0, 0);
    let dirty = state("main", true, &[], 0, 0);
    assert!(matches_query(&clean, &parse_query("dirty:banana")));
    assert!(!matches_query(&dirty, &parse_query("dirty:banana")));
}

#[test]
fn collect_repo_state_fills_defaults() {
    let p = ProjectInfo {
        name: "svc".to_owned(),
        path: "services/svc".to_owned(),
        repo: "git@example.com:svc.git".to_owned(),
        tags: vec!["backend".to_owned()],
    };
    let st = collect_repo_state(&p, &None, &None, (0, 0), &None);
    assert_eq!(st.branch, "unknown");
    assert!(!st.is_dirty);
    assert_eq!(st.last_commit, "");
    let st2 = collect_repo_state(
        &p,
        &Some("main".to_owned()),
        &Some(" M file".to_owned()),
        (1, 2),
        &Some("abc fix".to_owned()),
    );
    assert_eq!(st2.branch, "main");
    assert!(st2.is_dirty);
    assert_eq!(st2.ahead, 1);
    assert_eq!(st2.behind, 2);
    assert_eq!(st2.name, "svc");
}

#[test]
fn ahead_behind_without_upstream_is_zero() {
    assert_eq!(get_ahead_behind(&None, &None), Ok((0, 0)));
    assert_eq!(get_ahead_behind(&Some(String::new()), &None), Ok((0, 0)));
}

#[test]
fn ahead_behind_parses_rev_list_counts() {
    let tracking = Some("origin/main".to_owned());
    assert_eq!(get_ahead_behind(&tracking, &Some("3\t5".to_owned())), Ok((3, 5)));
    assert_eq!(get_ahead_behind(&tracking, &Some(" 12  0 ".to_owned())), Ok((12, 0)));
}

#[test]
fn ahead_behind_tolerates_malformed_counts() {
    let tracking = Some("origin/main".to_owned());
    assert_eq!(get_ahead_behind(&tracking, &Some("x y".to_owned())), Ok((0, 0)));
    assert_eq!(get_ahead_behind(&tracking, &Some("1 2 3".to_owned())), Ok((0, 0)));
    assert_eq!(get_ahead_behind(&tracking, &Some("".to_owned())), Ok((0, 0)));
    assert_eq!(
        get_ahead_behind(&tracking, &Some("99999999999 1".to_owned())),
        Ok((0, 1))
    );
}

#[test]
fn ahead_behind_fails_when_counts_probe_fails() {
    let tracking = Some("origin/main".to_owned());
    assert_eq!(
        get_ahead_behind(&tracking, &None),
        Err(AheadBehindError::CountsUnavailable)
    );
}

#[test]
fn server_facade_reaches_the_engine() {
    let server = meta_workspace::server::McpServer::new(Some("/ws".to_owned()));
    assert_eq!(server.meta_dir.as_deref(), Some("/ws"));
    let conds = server.parse_query("branch:main");
    assert_eq!(conds, vec![("branch".to_string(), "main".to_string())]);
    assert_eq!(server.get_ahead_behind(&None, &None), Ok((0, 0)));
    let projects = vec![ProjectInfo {
        name: "a".to_owned(),
        path: "a".to_owned(),
        repo: "r".to_owned(),
        tags: vec![],
    }];
    let extended = server.load_projects_extended(&projects);
    let graph = server.build_dependency_graph(&extended);
    let order = server.topological_sort(&graph, None).unwrap();
    assert_eq!(order, vec!["a".to_string()]);
    let probes = vec![meta_workspace::project::AncestorProbe {
        path: "/ws".to_owned(),
        has_manifest: true,
    }];
    assert_eq!(
        meta_workspace::server::McpServer::find_meta_dir(&probes),
        Some("/ws".to_owned())
    );
}
