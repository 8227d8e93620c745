use git_status::collect::{
    collect_spaces, drop_worktree_children, group_worktree_families, pane_bucket, snapshot,
    status_dirs, Bucket,
};
use git_status::model::{
    PaneInfo, Space, WorkspaceInfo, WorktreeEntry, WorktreeListResult, WorktreeSource,
};

fn child_of(id: &str, parent: Option<&str>) -> Space {
    Space {
        id: id.to_string(),
        label: id.to_string(),
        family_parent: parent.map(str::to_string),
        ..Default::default()
    }
}

fn workspace(id: &str, label: &str) -> WorkspaceInfo {
    WorkspaceInfo {
        workspace_id: id.to_string(),
        label: label.to_string(),
        focused: id == "w1",
    }
}

fn pane(id: &str, cwd: Option<&str>, agent: Option<&str>) -> PaneInfo {
    PaneInfo {
        pane_id: id.to_string(),
        cwd: cwd.map(str::to_string),
        agent: agent.map(str::to_string),
    }
}

fn worktrees(key: &str, source: Option<&str>, open: &[Option<&str>]) -> Option<WorktreeListResult> {
    Some(WorktreeListResult {
        source: WorktreeSource {
            repo_key: key.to_string(),
            source_workspace_id: source.map(str::to_string),
        },
        worktrees: open
            .iter()
            .map(|id| WorktreeEntry {
                open_workspace_id: id.map(str::to_string),
            })
            .collect(),
    })
}

fn parents(spaces: &[Space]) -> Vec<Option<&str>> {
    spaces.iter().map(|s| s.family_parent.as_deref()).collect()
}

#[test]
fn snapshot_would_drop_tagged_worktree_children() {
    let mut spaces = vec![
        child_of("parent", None),
        child_of("wt-child", Some("parent")),
        child_of("standalone", None),
    ];
    drop_worktree_children(&mut spaces);
    let ids: Vec<&str> = spaces.iter().map(|s| s.id.as_str()).collect();
    assert_eq!(ids, ["parent", "standalone"]);
}

#[test]
fn dropping_children_of_nothing_and_of_all() {
    let mut none: Vec<Space> = Vec::new();
    drop_worktree_children(&mut none);
    assert!(none.is_empty());
    let mut all = vec![child_of("a", Some("p")), child_of("b", Some("p"))];
    drop_worktree_children(&mut all);
    assert!(all.is_empty());
}

#[test]
fn panes_are_classified_and_the_first_cwd_wins() {
    let listing = vec![(
        workspace("w1", "web"),
        vec![
            pane("p1", None, None),
            pane("p2", Some(""), Some("git")),
            pane("p3", Some("/repo"), Some("coder")),
            pane("p4", Some("/other"), Some("")),
        ],
    )];
    let spaces = collect_spaces(&listing);
    assert_eq!(spaces.len(), 1);
    let sp = &spaces[0];
    assert_eq!((sp.id.as_str(), sp.label.as_str(), sp.focused), ("w1", "web", true));
    assert_eq!(sp.pane_count, 4);
    assert_eq!(sp.cwd.as_deref(), Some("/repo"));
    assert_eq!(sp.spare_panes, ["p1", "p4"]);
    assert_eq!(sp.pseudo_panes, ["p2"]);
    assert_eq!(sp.agent_panes, ["p3"]);
    assert!(!sp.git.is_repo);
    assert_eq!(
        sp.agent_panes.len() + sp.spare_panes.len() + sp.pseudo_panes.len(),
        sp.pane_count
    );
}

#[test]
fn an_unlabelled_workspace_is_labelled_by_its_id() {
    let spaces = collect_spaces(&vec![(workspace("w2", ""), vec![])]);
    assert_eq!(spaces[0].label, "w2");
    assert!(!spaces[0].focused);
    assert_eq!(spaces[0].cwd, None);
    assert_eq!(spaces[0].pane_count, 0);
}

#[test]
fn buckets() {
    assert_eq!(pane_bucket(&Some("git".to_string())), Bucket::Pseudo);
    assert_eq!(pane_bucket(&Some("gitx".to_string())), Bucket::Agent);
    assert_eq!(pane_bucket(&Some(String::new())), Bucket::Spare);
    assert_eq!(pane_bucket(&None), Bucket::Spare);
}

#[test]
fn open_worktrees_are_tagged_with_the_open_main_checkout() {
    let mut spaces = vec![child_of("main", None), child_of("wt", None), child_of("other", None)];
    let listings = vec![
        worktrees("repo", Some("main"), &[Some("main"), Some("wt"), None, Some("closed")]),
        None,
        None,
    ];
    group_worktree_families(&mut spaces, &listings);
    assert_eq!(parents(&spaces), [None, Some("main"), None]);
}

#[test]
fn a_family_needs_an_open_main_checkout_and_a_key() {
    let mut spaces = vec![child_of("a", None), child_of("b", None)];
    let listings = vec![
        worktrees("repo", Some("closed"), &[Some("a"), Some("b")]),
        worktrees("", Some("a"), &[Some("b")]),
        worktrees("third", None, &[Some("b")]),
    ];
    group_worktree_families(&mut spaces, &listings);
    assert_eq!(parents(&spaces), [None, None]);
}

#[test]
fn only_the_first_answer_about_a_repo_counts() {
    let mut spaces = vec![child_of("a", None), child_of("b", None), child_of("c", None)];
    let listings = vec![
        worktrees("repo", Some("closed"), &[Some("b")]),
        worktrees("repo", Some("a"), &[Some("b")]),
        worktrees("next", Some("a"), &[Some("c")]),
    ];
    group_worktree_families(&mut spaces, &listings);
    assert_eq!(parents(&spaces), [None, None, Some("a")]);
}

#[test]
fn the_last_family_wins_and_the_last_of_equal_ids_is_tagged() {
    let mut spaces = vec![
        child_of("a", None),
        child_of("b", None),
        child_of("c", None),
        child_of("c", None),
    ];
    let listings = vec![
        worktrees("one", Some("a"), &[Some("c")]),
        worktrees("two", Some("b"), &[Some("c")]),
    ];
    group_worktree_families(&mut spaces, &listings);
    assert_eq!(parents(&spaces), [None, None, None, Some("b")]);
}

#[test]
fn later_answers_about_a_repo_change_nothing() {
    let ids = ["wt", "main", "other", "lone"];
    let first = worktrees("repo", Some("main"), &[Some("main"), Some("wt")]);
    let later = worktrees("repo", Some("other"), &[Some("lone")]);
    let every = vec![first.clone(), later, None, worktrees("", Some("main"), &[Some("lone")])];
    let counting = vec![first, None, None, None];
    let mut spaces: Vec<Space> = ids.iter().map(|id| child_of(id, None)).collect();
    let mut fewer = spaces.clone();
    group_worktree_families(&mut spaces, &every);
    group_worktree_families(&mut fewer, &counting);
    assert_eq!(parents(&spaces), [Some("main"), None, None, None]);
    assert_eq!(parents(&fewer), parents(&spaces));
}

#[test]
fn an_answer_about_another_repo_forms_its_own_family() {
    // The first answer names `b` as a worktree of its own repo; `b` itself answers
    // about another one.
    let mut spaces: Vec<Space> = ["a", "b", "c"].iter().map(|id| child_of(id, None)).collect();
    let listings = vec![
        worktrees("one", Some("a"), &[Some("b")]),
        worktrees("two", Some("b"), &[Some("c")]),
        None,
    ];
    group_worktree_families(&mut spaces, &listings);
    assert_eq!(parents(&spaces), [None, Some("a"), Some("b")]);
}

#[test]
fn a_snapshot_runs_the_whole_pipeline() {
    let listing = vec![
        (workspace("w1", "main"), vec![pane("p1", Some("/m"), None)]),
        (workspace("w2", "tree"), vec![pane("p2", Some("/t"), None)]),
        (workspace("w3", "none"), vec![pane("p3", None, None)]),
        (workspace("w4", "fail"), vec![pane("p4", Some("/f"), None)]),
    ];
    let trees = vec![
        worktrees("repo", Some("w1"), &[Some("w1"), Some("w2")]),
        worktrees("repo", Some("w1"), &[Some("w1"), Some("w2")]),
        None,
        None,
    ];
    let dirs = status_dirs(&listing, &trees);
    assert_eq!(
        dirs,
        [Some("/m".to_string()), None, Some("/f".to_string())]
    );
    let outputs = vec![
        Some(b"## main\n M x\n".to_vec()),
        Some(b"## ignored\n".to_vec()),
        None,
    ];
    let spaces = snapshot(&listing, &trees, &outputs);
    let labels: Vec<&str> = spaces.iter().map(|s| s.label.as_str()).collect();
    assert_eq!(labels, ["main", "none", "fail"]);
    assert!(spaces[0].git.is_repo);
    assert_eq!(spaces[0].git.branch, "main");
    assert_eq!(spaces[0].git.modified, 1);
    // No cwd: nothing is known, whatever is said to have been printed.
    assert!(!spaces[1].git.is_repo);
    assert!(!spaces[2].git.is_repo);
    // Missing outputs read as failures.
    assert!(snapshot(&listing, &trees, &vec![]).iter().all(|s| !s.git.is_repo));
}
