use git_status::git::{
    parse_branch_header, parse_porcelain, severity, status, status_args, status_token, token,
    Severity, CLEAN_MARK,
};
use git_status::model::GitStatus;

// ---- branch header parsing ----------------------------------------------

#[test]
fn header_bare_branch_no_upstream() {
    let mut g = GitStatus::default();
    parse_branch_header("main", &mut g);
    assert_eq!(g.branch, "main");
    assert_eq!((g.ahead, g.behind), (0, 0));
}

#[test]
fn header_upstream_without_divergence() {
    let mut g = GitStatus::default();
    parse_branch_header("main...origin/main", &mut g);
    assert_eq!(g.branch, "main");
    assert_eq!((g.ahead, g.behind), (0, 0));
}

#[test]
fn header_ahead_and_behind() {
    let mut g = GitStatus::default();
    parse_branch_header("feat/x...origin/feat/x [ahead 3, behind 2]", &mut g);
    assert_eq!(g.branch, "feat/x");
    assert_eq!((g.ahead, g.behind), (3, 2));
}

#[test]
fn header_ahead_only_and_gone_upstream() {
    let mut ahead = GitStatus::default();
    parse_branch_header("main...origin/main [ahead 5]", &mut ahead);
    assert_eq!((ahead.ahead, ahead.behind), (5, 0));

    let mut gone = GitStatus::default();
    parse_branch_header("wip...origin/wip [gone]", &mut gone);
    assert_eq!(gone.branch, "wip");
    assert_eq!((gone.ahead, gone.behind), (0, 0));
}

#[test]
fn header_detached_and_fresh_repo() {
    let mut detached = GitStatus::default();
    parse_branch_header("HEAD (no branch)", &mut detached);
    assert_eq!(detached.branch, "HEAD");

    let mut fresh = GitStatus::default();
    parse_branch_header("No commits yet on main", &mut fresh);
    assert_eq!(fresh.branch, "main");
}

#[test]
fn header_edges() {
    let mut g = GitStatus::default();
    parse_branch_header("v1.2...origin/v1.2 [behind 7]", &mut g);
    assert_eq!((g.branch.as_str(), g.ahead, g.behind), ("v1.2", 0, 7));
    // The last count of a kind wins; what is not a number reads as zero.
    parse_branch_header("x [ahead 1, ahead +4, behind 99999999999]]]", &mut g);
    assert_eq!((g.branch.as_str(), g.ahead, g.behind), ("x", 4, 0));
    // A header without counts leaves them as they are.
    parse_branch_header("y", &mut g);
    assert_eq!((g.branch.as_str(), g.ahead, g.behind), ("y", 4, 0));
    parse_branch_header("HEAD (no branch) and more", &mut g);
    assert_eq!((g.branch.as_str(), g.ahead), ("HEAD", 4));
    parse_branch_header("", &mut g);
    assert_eq!(g.branch, "");
}

// ---- porcelain body: counts by type -------------------------------------

#[test]
fn porcelain_counts_each_type() {
    // Built as a slice + join so leading-space lines (" M", " D") keep their
    // column-X space — a `\`-newline string literal would strip it.
    // "M " = staged modify, " M" = worktree modify, "MM" = both, "??"
    // untracked, "A " = staged add, " D" = worktree delete.
    let text = [
        "## main...origin/main [ahead 1]",
        "M  staged.rs",
        " M worktree.rs",
        "MM both.rs",
        "A  added.rs",
        " D gone.rs",
        "?? new.rs",
        "?? new2.rs",
    ]
    .join("\n");
    let g = parse_porcelain(&text);
    assert!(g.is_repo);
    assert_eq!(g.branch, "main");
    assert_eq!(g.ahead, 1);
    // staged: staged.rs, both.rs, added.rs = 3
    assert_eq!(g.staged, 3);
    // modified (worktree): worktree.rs, both.rs, gone.rs = 3
    assert_eq!(g.modified, 3);
    assert_eq!(g.untracked, 2);
    assert_eq!(g.conflicts, 0);
    assert!(!g.is_clean());
}

#[test]
fn porcelain_counts_conflicts_separately() {
    // Unmerged forms: UU (both modified), AA (both added), DD (both deleted),
    // and U in either column. Slice + join keeps columns intact.
    let text = [
        "## main",
        "UU conflict.rs",
        "AA added-both.rs",
        "DD deleted-both.rs",
        "DU us-deleted.rs",
        "M  clean-stage.rs",
    ]
    .join("\n");
    let g = parse_porcelain(&text);
    assert_eq!(g.conflicts, 4);
    // The conflicted lines are NOT double-counted as staged/modified.
    assert_eq!(g.staged, 1); // only clean-stage.rs
    assert_eq!(g.modified, 0);
}

#[test]
fn porcelain_clean_tree_is_clean() {
    let g = parse_porcelain("## main...origin/main\n");
    assert!(g.is_repo);
    assert!(g.is_clean());
    assert_eq!(token(&g), "");
}

#[test]
fn porcelain_renamed_counts_as_staged() {
    // Rename: X='R', Y=' '. Counts once as staged.
    let g = parse_porcelain("## main\nR  old.rs -> new.rs\n");
    assert_eq!(g.staged, 1);
    assert_eq!(g.modified, 0);
}

#[test]
fn porcelain_edges() {
    let g = parse_porcelain("");
    assert!(g.is_repo && g.is_clean());
    assert_eq!(g.branch, "");
    // Lines of fewer than two bytes are no entries; one two-byte character is.
    let g = parse_porcelain("M\n\né\n");
    assert_eq!((g.staged, g.modified), (1, 1));
    // `##` without the space is an entry, and lines may end in \r\n.
    let g = parse_porcelain("##x\r\n## b\r\n?? f\r\n");
    assert_eq!((g.staged, g.modified, g.untracked), (1, 1, 1));
    assert_eq!(g.branch, "b");
    // The second column of "\u{20}é" is the first byte of the character.
    let g = parse_porcelain(" é");
    assert_eq!((g.staged, g.modified), (0, 1));
}

// ---- token formatting ----------------------------------------------------

#[test]
fn token_omits_zero_parts_in_fixed_order() {
    let g = GitStatus {
        is_repo: true,
        staged: 2,
        modified: 1,
        untracked: 3,
        ..GitStatus::default()
    };
    assert_eq!(token(&g), "+2 ~1 ?3");
}

#[test]
fn token_single_part() {
    let g = GitStatus {
        is_repo: true,
        modified: 4,
        ..GitStatus::default()
    };
    assert_eq!(token(&g), "~4");
}

#[test]
fn token_includes_conflicts_last() {
    let g = GitStatus {
        is_repo: true,
        staged: 1,
        conflicts: 2,
        ..GitStatus::default()
    };
    assert_eq!(token(&g), "+1 !2");
}

#[test]
fn token_empty_for_non_repo_and_clean() {
    assert_eq!(token(&GitStatus::default()), ""); // non-repo
    assert_eq!(
        token(&GitStatus {
            is_repo: true,
            ..GitStatus::default()
        }),
        "",
    );
}

#[test]
fn token_writes_large_counts() {
    let g = GitStatus {
        is_repo: true,
        staged: u32::MAX,
        modified: 10,
        untracked: 100,
        conflicts: 9,
        ..GitStatus::default()
    };
    assert_eq!(token(&g), "+4294967295 ~10 ?100 !9");
}

// ---- status_token (what the updater pushes) -------------------------------

#[test]
fn status_token_fully_clean_repo_is_check_mark() {
    let g = GitStatus {
        is_repo: true,
        ..GitStatus::default()
    };
    assert!(g.is_fully_clean());
    assert_eq!(status_token(&g), CLEAN_MARK);
}

#[test]
fn status_token_non_repo_is_empty_not_check_mark() {
    // A non-repo has zero counts and zero ahead/behind, but there is no repo
    // to vouch for — it must NOT read as "fully clean".
    let g = GitStatus::default();
    assert!(!g.is_fully_clean());
    assert_eq!(status_token(&g), "");
}

#[test]
fn status_token_clean_but_diverged_is_empty() {
    // Clean tree with commits to push/pull: the branch row's ↑/↓ arrows carry
    // that story, so the status stays empty rather than claiming ✓.
    for (ahead, behind) in [(1, 0), (0, 2), (3, 4)] {
        let g = GitStatus {
            is_repo: true,
            ahead,
            behind,
            ..GitStatus::default()
        };
        assert_eq!(status_token(&g), "", "ahead={ahead} behind={behind}");
    }
}

#[test]
fn status_token_dirty_tree_passes_through_token() {
    let g = GitStatus {
        is_repo: true,
        staged: 2,
        untracked: 1,
        ..GitStatus::default()
    };
    assert_eq!(status_token(&g), token(&g));
    assert_eq!(status_token(&g), "+2 ?1");
}

#[test]
fn status_non_repo_cwd_is_not_a_repo() {
    // "/" is (almost certainly) not a git repo: git fails there, and the status
    // stays default.
    let g = status(Some("/"), None);
    assert!(!g.is_repo);
    assert!(g.is_clean());
}

#[test]
fn status_empty_or_missing_cwd() {
    assert!(!status(None, None).is_repo);
    assert!(!status(Some(""), None).is_repo);
    // Nothing is known there even if something is said to have been printed.
    assert!(!status(None, Some(b"## main\n".as_slice())).is_repo);
    assert!(!status(Some(""), Some(b"## main\n".as_slice())).is_repo);
}

#[test]
fn status_reads_the_bytes_that_git_printed() {
    let out = b"## caf\xc3\xa9...origin/x [ahead 2]\n?? \xff\xfe\n";
    let g = status(Some("/repo"), Some(out.as_slice()));
    assert!(g.is_repo);
    assert_eq!(g.branch, "café");
    assert_eq!((g.ahead, g.untracked), (2, 1));
    // An invalid byte is replaced, not dropped.
    let g = status(Some("/repo"), Some(b"## a\xffb\n".as_slice()));
    assert_eq!(g.branch, "a\u{fffd}b");
}

#[test]
fn git_is_run_read_only() {
    assert_eq!(status_args(None), None);
    assert_eq!(status_args(Some("")), None);
    assert_eq!(
        status_args(Some("/repo")).unwrap(),
        [
            "-C",
            "/repo",
            "--no-optional-locks",
            "status",
            "--porcelain=v1",
            "--branch",
            "--untracked-files=normal",
        ]
    );
}

#[test]
fn severity_ranks_conflicts_first() {
    let mut g = GitStatus {
        is_repo: true,
        ..GitStatus::default()
    };
    assert_eq!(severity(&g), Severity::Clean);
    g.untracked = 1;
    assert_eq!(severity(&g), Severity::Dirty);
    g.conflicts = 1;
    assert_eq!(severity(&g), Severity::Conflict);
    assert_eq!(severity(&GitStatus::default()), Severity::Clean);
}

#[test]
fn printed_headers_are_read_back() {
    for (ahead, behind) in [(0, 0), (1, 0), (0, 12), (3, 45), (u32::MAX, u32::MAX)] {
        let mut suffix = String::new();
        if ahead > 0 && behind > 0 {
            suffix = format!(" [ahead {ahead}, behind {behind}]");
        } else if ahead > 0 {
            suffix = format!(" [ahead {ahead}]");
        } else if behind > 0 {
            suffix = format!(" [behind {behind}]");
        }
        let mut g = GitStatus::default();
        parse_branch_header(&format!("a.b/c...origin/a.b/c{suffix}"), &mut g);
        assert_eq!(g.branch, "a.b/c");
        assert_eq!((g.ahead, g.behind), (ahead, behind));
    }
}
