use git_status::model::{GitStatus, Space};
use git_status::render::{
    branch_display, footer, frame, json_space, local_time_string, render, render_json,
    render_styled, screen, status_cell, unavailable, JsonValue, Style,
};

fn plain() -> Style {
    Style { color: false }
}

fn space(label: &str, focused: bool, git: GitStatus, panes: usize) -> Space {
    Space {
        id: label.to_string(),
        label: label.to_string(),
        focused,
        pane_count: panes,
        git,
        ..Default::default()
    }
}

fn repo(branch: &str) -> GitStatus {
    GitStatus {
        is_repo: true,
        branch: branch.to_string(),
        ..GitStatus::default()
    }
}

// ---- branch_display ------------------------------------------------------

#[test]
fn branch_display_arrows_only_when_nonzero() {
    assert_eq!(branch_display(&repo("main")), "main");
    let ahead = GitStatus {
        ahead: 2,
        ..repo("main")
    };
    assert_eq!(branch_display(&ahead), "main ↑2");
    let both = GitStatus {
        ahead: 1,
        behind: 3,
        ..repo("dev")
    };
    assert_eq!(branch_display(&both), "dev ↑1 ↓3");
}

#[test]
fn branch_display_no_repo() {
    assert_eq!(branch_display(&GitStatus::default()), "(no branch)");
}

// ---- status_cell ---------------------------------------------------------

#[test]
fn status_cell_variants() {
    assert_eq!(status_cell(&GitStatus::default()), "—"); // non-repo
    assert_eq!(status_cell(&repo("main")), "✓"); // repo, fully clean
    let dirty = GitStatus {
        staged: 1,
        untracked: 2,
        ..repo("main")
    };
    assert_eq!(status_cell(&dirty), "+1 ?2");
    // clean working tree but ahead/behind != 0 shows "clean"
    let ahead = GitStatus {
        ahead: 1,
        ..repo("main")
    };
    assert_eq!(status_cell(&ahead), "clean");
}

// ---- severity colouring --------------------------------------------------

#[test]
fn status_colour_by_severity() {
    let c = Style { color: true };
    let clean = repo("main");
    let dirty = GitStatus {
        modified: 1,
        ..repo("main")
    };
    let conflict = GitStatus {
        conflicts: 1,
        ..repo("main")
    };
    assert_eq!(c.status(&clean, "x"), "\x1b[32mx\x1b[0m"); // green
    assert_eq!(c.status(&dirty, "x"), "\x1b[33mx\x1b[0m"); // yellow
    assert_eq!(c.status(&conflict, "x"), "\x1b[31mx\x1b[0m"); // red
}

#[test]
fn paint_gates_on_colour() {
    let c = Style { color: true };
    assert_eq!(c.dim("x"), "\x1b[2mx\x1b[0m");
    assert_eq!(c.bold("x"), "\x1b[1mx\x1b[0m");
    assert_eq!(plain().red("x"), "x");
    assert!(Style::detect(true, None).color);
    assert!(!Style::detect(true, Some("")).color);
    assert!(!Style::detect(false, Some("")).color);
    assert!(!Style::detect(true, Some("1")).color);
    assert!(!Style::detect(false, None).color);
}

// ---- render layout -------------------------------------------------------

#[test]
fn render_empty_spaces() {
    let out = render_styled(&[], &plain());
    assert_eq!(out, "  Git status per space\n\n  No spaces open.");
}

#[test]
fn render_lays_out_marker_branch_and_status() {
    let git = GitStatus {
        staged: 2,
        modified: 1,
        untracked: 3,
        ahead: 1,
        ..repo("feature/x")
    };
    let out = render_styled(&[space("main", true, git, 2)], &plain());
    let lines: Vec<&str> = out.split('\n').collect();
    assert_eq!(lines[0], "  Git status per space");
    assert_eq!(lines[1], "");
    assert_eq!(lines[2], "  ● main"); // focused marker + bold label
    assert_eq!(lines[3], "      feature/x ↑1"); // branch + ahead
    assert!(lines[4].contains("+2 ~1 ?3"), "status: {}", lines[4]);
    assert!(lines[4].contains("· 2 panes"), "notes: {}", lines[4]);
    assert_eq!(lines[5], "");
    assert!(
        lines[6].starts_with("  ── 1 space · 1 dirty"),
        "{}",
        lines[6]
    );
}

#[test]
fn render_unfocused_clean_singular_pane() {
    let out = render_styled(&[space("s", false, repo("main"), 1)], &plain());
    let lines: Vec<&str> = out.split('\n').collect();
    assert_eq!(lines[2], "  ○ s"); // unfocused marker
    assert_eq!(lines[3], "      main");
    assert!(lines[4].contains("✓"));
    assert!(lines[4].contains("· 1 pane") && !lines[4].contains("panes"));
    assert!(lines[6].starts_with("  ── 1 space · 0 dirty"));
}

#[test]
fn render_whole_reports() {
    let dirty = GitStatus {
        modified: 1,
        ..repo("dev")
    };
    let spaces = [
        space("a", true, dirty, 0),
        space("b", false, GitStatus::default(), 1),
    ];
    assert_eq!(
        render(&spaces, false, None),
        "  Git status per space\n\n  ● a\n      dev\n      ~1   · 0 panes\n\n  ○ b\n      (no branch)\n      —   · 1 pane\n\n  ── 2 spaces · 1 dirty"
    );
    assert_eq!(
        render(&spaces[1..], true, None),
        "\x1b[1m  Git status per space\x1b[0m\n\n  \x1b[2m○\x1b[0m \x1b[1mb\x1b[0m\n      \x1b[2m(no branch)\x1b[0m\n      \x1b[32m—\x1b[0m   \x1b[2m· 1 pane\x1b[0m\n\n\x1b[2m  ── 1 space · 0 dirty\x1b[0m"
    );
    assert!(!render(&spaces, true, Some("1")).contains('\x1b'));
}

/// Deletes every colour sequence.
fn uncoloured(s: &str) -> String {
    let mut out = String::new();
    let mut rest = s;
    while let Some(at) = rest.find("\x1b[") {
        out.push_str(&rest[..at]);
        let code = &rest[at + 2..];
        let end = code.find('m').unwrap();
        assert!(end > 0 && code[..end].bytes().all(|b| b.is_ascii_digit()));
        rest = &code[end + 1..];
    }
    out.push_str(rest);
    out
}

#[test]
fn colour_adds_only_colour() {
    let conflict = GitStatus {
        conflicts: 1,
        ahead: 2,
        ..repo("dev")
    };
    let spaces = [
        space("a", true, conflict, 1),
        space("b", false, repo("main"), 2),
        space("c", false, GitStatus::default(), 0),
    ];
    for n in 0..=spaces.len() {
        let coloured = render(&spaces[..n], true, None);
        assert!(coloured.contains('\x1b'));
        assert_eq!(uncoloured(&coloured), render(&spaces[..n], false, None));
    }
    assert_eq!(render(&spaces, true, Some("")), render(&spaces, false, None));
}

// ---- live watch ----------------------------------------------------------

#[test]
fn live_watch_frames() {
    assert_eq!(local_time_string(9, 5, 30), "09:05:30");
    assert_eq!(local_time_string(23, 0, 60), "23:00:60");
    assert_eq!(local_time_string(-1, -12, 100), "-1:-12:100");
    let foot = footer("3", "09:05:30", &plain());
    assert_eq!(foot, "  refreshing every 3s · 09:05:30 · ctrl-c to quit");
    assert_eq!(
        unavailable("no socket", &plain()),
        "  herdr unavailable: no socket"
    );
    assert_eq!(frame("body", "foot"), "\x1b[2J\x1b[Hbody\n\nfoot\n");
}

#[test]
fn live_watch_screens() {
    assert_eq!(
        screen(&Ok(vec![]), "2.5", "09:05:30", &plain()),
        "\x1b[2J\x1b[H  Git status per space\n\n  No spaces open.\n\n  refreshing every 2.5s · 09:05:30 · ctrl-c to quit\n"
    );
    assert_eq!(
        screen(&Err("no socket".to_string()), "3", "09:05:30", &Style { color: true }),
        "\x1b[2J\x1b[H\x1b[31m  herdr unavailable:\x1b[0m no socket\n\n\x1b[2m  refreshing every 3s · 09:05:30 · ctrl-c to quit\x1b[0m\n"
    );
}

// ---- json ----------------------------------------------------------------

#[test]
fn json_field_shape() {
    let git = GitStatus {
        is_repo: true,
        branch: "main".to_string(),
        ahead: 1,
        modified: 2,
        ..GitStatus::default()
    };
    let out = render_json(&[space("w1", true, git, 2)]);
    let parsed: serde_json::Value = serde_json::from_str(&out).unwrap();
    assert_eq!(parsed[0]["workspace_id"], "w1");
    assert_eq!(parsed[0]["branch"], "main");
    assert_eq!(parsed[0]["ahead"], 1);
    assert_eq!(parsed[0]["modified"], 2);
    assert_eq!(parsed[0]["clean"], false);
    assert_eq!(parsed[0]["fully_clean"], false);
    assert_eq!(parsed[0]["is_repo"], true);
}

#[test]
fn json_empty_payload_is_bare_brackets() {
    assert_eq!(render_json(&[]), "[]");
}

#[test]
fn json_clean_repo_reports_clean_true() {
    let out = render_json(&[space("w", false, repo("main"), 1)]);
    let parsed: serde_json::Value = serde_json::from_str(&out).unwrap();
    assert_eq!(parsed[0]["clean"], true);
    assert_eq!(parsed[0]["fully_clean"], true);
}

#[test]
fn json_clean_but_diverged_is_not_fully_clean() {
    let git = GitStatus {
        ahead: 2,
        ..repo("main")
    };
    let out = render_json(&[space("w", false, git, 1)]);
    let parsed: serde_json::Value = serde_json::from_str(&out).unwrap();
    assert_eq!(parsed[0]["clean"], true);
    assert_eq!(parsed[0]["fully_clean"], false);
}

#[test]
fn json_is_indented_in_field_order_and_escaped() {
    let git = GitStatus {
        is_repo: true,
        branch: "a\"b\n".to_string(),
        ahead: 1,
        behind: 2,
        staged: 3,
        modified: 4,
        untracked: 5,
        conflicts: 6,
    };
    let mut sp = space("w", true, git, 7);
    sp.label = "é".to_string();
    let expected = "[\n  {\n    \"workspace_id\": \"w\",\n    \"label\": \"é\",\n    \"branch\": \"a\\\"b\\n\",\n    \"focused\": true,\n    \"panes\": 7,\n    \"is_repo\": true,\n    \"ahead\": 1,\n    \"behind\": 2,\n    \"staged\": 3,\n    \"modified\": 4,\n    \"untracked\": 5,\n    \"conflicts\": 6,\n    \"clean\": false,\n    \"fully_clean\": false\n  }\n]";
    assert_eq!(render_json(&[sp]), expected);
}

#[test]
fn json_rows_hold_the_fields() {
    let row = json_space(&space("w", false, repo("main"), 1));
    assert_eq!(row.len(), 14);
    assert_eq!(
        row[0],
        ("workspace_id".to_string(), JsonValue::Text("w".to_string()))
    );
    assert_eq!(row[4], ("panes".to_string(), JsonValue::Number(1)));
    assert_eq!(row[13], ("fully_clean".to_string(), JsonValue::Flag(true)));
}
