use std::collections::BTreeSet;

use git_status::config::{Config, Mode};
use git_status::daemon::{
    clear_all, clear_stale_pane_token, clear_stale_workspace_token, daemon_pid, disable_updater,
    enable_updater, leftovers, notify, pause_seconds, pid_text, recorded_pid, release_pseudo,
    space_status, start_updater, status_token_name, toggle_updater, ttl_ms, LoopEvent, LoopStep,
    Request, StartStep, Toggle, UpdaterLoop, STATUS_TOKENS, TOKEN_CLEAN, TOKEN_CONFLICT, TOKEN_DIRTY,
};
use git_status::git;
use git_status::model::{GitStatus, Space};
use git_status::push::push_statuses;
use git_status::surfaced::Surfaced;

fn dirty_space(id: &str, spare: &[&str]) -> Space {
    Space {
        id: id.to_string(),
        label: id.to_string(),
        spare_panes: spare.iter().map(|s| s.to_string()).collect(),
        git: GitStatus {
            is_repo: true,
            modified: 2,
            ..GitStatus::default()
        },
        ..Default::default()
    }
}

fn fully_clean_space(id: &str) -> Space {
    Space {
        id: id.to_string(),
        label: id.to_string(),
        git: GitStatus {
            is_repo: true,
            ..GitStatus::default()
        },
        ..Default::default()
    }
}

#[test]
fn dirty_space_produces_a_token() {
    let sp = dirty_space("repo", &["pane-1"]);
    assert_eq!(space_status(&sp, &Config::default()), "~2");
}

#[test]
fn status_token_name_maps_severity_to_a_coloured_token() {
    // Fully clean (the ✓) → the green clean token.
    let clean = fully_clean_space("repo");
    assert_eq!(status_token_name(&clean.git), TOKEN_CLEAN);
    // Dirty, no conflicts → the yellow dirty token.
    let dirty = dirty_space("repo", &[]);
    assert_eq!(status_token_name(&dirty.git), TOKEN_DIRTY);
    // A conflict → the red conflict token, outranking other changes.
    let conflict = Space {
        git: GitStatus {
            is_repo: true,
            staged: 1,
            conflicts: 2,
            ..GitStatus::default()
        },
        ..Default::default()
    };
    assert_eq!(status_token_name(&conflict.git), TOKEN_CONFLICT);
}

#[test]
fn status_tokens_are_the_three_severity_names() {
    assert_eq!(STATUS_TOKENS, [TOKEN_CLEAN, TOKEN_DIRTY, TOKEN_CONFLICT]);
}

#[test]
fn fully_clean_space_pushes_check_mark_by_default() {
    let sp = fully_clean_space("repo");
    assert_eq!(space_status(&sp, &Config::default()), git::CLEAN_MARK);
}

#[test]
fn clean_checkmark_opt_out_restores_empty_status() {
    let sp = fully_clean_space("repo");
    let config = Config {
        clean_checkmark: false,
        ..Config::default()
    };
    assert!(space_status(&sp, &config).is_empty());
}

#[test]
fn clean_but_diverged_space_status_is_empty() {
    // The host's branch row owns the ↑/↓ story; the status is withdrawn, not ✓.
    let mut sp = fully_clean_space("repo");
    sp.git.ahead = 2;
    assert!(space_status(&sp, &Config::default()).is_empty());
}

#[test]
fn non_repo_space_status_is_empty() {
    let sp = Space::default(); // is_repo = false
    assert!(space_status(&sp, &Config::default()).is_empty());
}

// ---- pushing ---------------------------------------------------------------

fn config(mode: Mode) -> Config {
    Config {
        mode,
        ..Config::default()
    }
}

fn release(pane: &str) -> Request {
    Request::ReleaseAgent {
        pane: pane.to_string(),
        source: "src".to_string(),
        agent: "git".to_string(),
    }
}

fn claim(pane: &str) -> Request {
    Request::ReportAgent {
        pane: pane.to_string(),
        source: "src".to_string(),
        agent: "git".to_string(),
        state: "idle".to_string(),
    }
}

fn clear_pane(pane: &str, token: &str) -> Request {
    Request::ClearPane {
        pane: pane.to_string(),
        source: "src".to_string(),
        token: token.to_string(),
    }
}

fn report_pane(pane: &str, token: &str, status: &str) -> Request {
    Request::ReportPane {
        pane: pane.to_string(),
        source: "src".to_string(),
        token: token.to_string(),
        status: status.to_string(),
        ttl_ms: 15000,
    }
}

fn clear_workspace(id: &str, token: &str) -> Request {
    Request::ClearWorkspace {
        workspace: id.to_string(),
        source: "src".to_string(),
        token: token.to_string(),
    }
}

fn report_workspace(id: &str, token: &str, status: &str) -> Request {
    Request::ReportWorkspace {
        workspace: id.to_string(),
        source: "src".to_string(),
        token: token.to_string(),
        status: status.to_string(),
        ttl_ms: 15000,
    }
}

/// Runs a push to its end; `refused` lists the requests (by position) that the
/// host refuses.
fn drive(spaces: &[Space], mode: Mode, record: &mut Surfaced, refused: &[usize]) -> Vec<Request> {
    let mut run = push_statuses(spaces.to_vec(), &config(mode), "src");
    let mut sent = Vec::new();
    let mut reply = true;
    while let Some(request) = run.next(record, reply) {
        reply = !refused.contains(&sent.len());
        sent.push(request);
    }
    sent
}

#[test]
fn panel_claims_a_spare_pane_and_reports_on_it() {
    let mut record = Surfaced::default();
    let sent = drive(&[dirty_space("w", &["p1", "p2"])], Mode::AgentsPanel, &mut record, &[]);
    assert_eq!(sent, [claim("p1"), report_pane("p1", TOKEN_DIRTY, "~2")]);
    assert!(record.pseudo.contains("p1"));
    assert_eq!(record.metadata.get("p1"), Some(TOKEN_DIRTY));
    assert!(record.workspaces.ids().is_empty());
}

#[test]
fn panel_refused_claim_reports_nothing() {
    let mut record = Surfaced::default();
    let spaces = [dirty_space("w", &["p1"]), dirty_space("v", &["p2"])];
    let sent = drive(&spaces, Mode::AgentsPanel, &mut record, &[0]);
    assert_eq!(
        sent,
        [claim("p1"), claim("p2"), report_pane("p2", TOKEN_DIRTY, "~2")]
    );
    assert!(!record.pseudo.contains("p1"));
    assert_eq!(record.metadata.get("p1"), None);
    assert_eq!(record.metadata.get("p2"), Some(TOKEN_DIRTY));
}

#[test]
fn panel_refused_status_is_not_recorded() {
    let mut record = Surfaced::default();
    drive(&[dirty_space("w", &["p1"])], Mode::AgentsPanel, &mut record, &[1]);
    assert!(record.pseudo.contains("p1"));
    assert_eq!(record.metadata.get("p1"), None);
}

#[test]
fn panel_space_without_a_host_pane_shows_nothing() {
    let mut record = Surfaced::default();
    let mut sp = dirty_space("w", &[]);
    sp.agent_panes = vec!["a1".to_string()];
    assert!(drive(&[sp], Mode::AgentsPanel, &mut record, &[]).is_empty());
}

#[test]
fn panel_drops_stale_claims_and_prefers_the_first() {
    let mut record = Surfaced::default();
    let mut sp = dirty_space("w", &["p9"]);
    sp.pseudo_panes = vec!["p1".to_string(), "p2".to_string(), "p3".to_string()];
    let sent = drive(&[sp], Mode::AgentsPanel, &mut record, &[]);
    assert_eq!(
        sent,
        [
            release("p2"),
            release("p3"),
            claim("p1"),
            report_pane("p1", TOKEN_DIRTY, "~2")
        ]
    );
}

#[test]
fn panel_severity_flip_clears_the_previous_token() {
    let mut record = Surfaced::default();
    let mut sp = dirty_space("w", &["p1"]);
    drive(&[sp.clone()], Mode::AgentsPanel, &mut record, &[]);
    sp.git.conflicts = 1;
    let sent = drive(&[sp.clone()], Mode::AgentsPanel, &mut record, &[]);
    assert_eq!(
        sent,
        [
            claim("p1"),
            clear_pane("p1", TOKEN_DIRTY),
            report_pane("p1", TOKEN_CONFLICT, "~2 !1")
        ]
    );
    assert_eq!(record.metadata.get("p1"), Some(TOKEN_CONFLICT));
    // The same severity again clears nothing.
    let sent = drive(&[sp], Mode::AgentsPanel, &mut record, &[]);
    assert_eq!(sent, [claim("p1"), report_pane("p1", TOKEN_CONFLICT, "~2 !1")]);
}

#[test]
fn panel_empty_status_releases_and_clears() {
    let mut record = Surfaced::default();
    let mut sp = dirty_space("w", &["p1"]);
    drive(&[sp.clone()], Mode::AgentsPanel, &mut record, &[]);
    sp.git = GitStatus::default();
    let sent = drive(&[sp.clone()], Mode::AgentsPanel, &mut record, &[]);
    assert_eq!(sent, [release("p1"), clear_pane("p1", TOKEN_DIRTY)]);
    assert!(!record.pseudo.contains("p1"));
    assert_eq!(record.metadata.get("p1"), None);
    // Nothing on record: only the release.
    assert_eq!(
        drive(&[sp], Mode::AgentsPanel, &mut record, &[]),
        [release("p1")]
    );
}

#[test]
fn sidebar_reports_on_the_workspace() {
    let mut record = Surfaced::default();
    let mut sp = fully_clean_space("w");
    sp.pseudo_panes = vec!["p1".to_string()];
    sp.spare_panes = vec!["p2".to_string()];
    let sent = drive(&[sp.clone()], Mode::Sidebar, &mut record, &[]);
    assert_eq!(sent, [release("p1"), report_workspace("w", TOKEN_CLEAN, "✓")]);
    assert_eq!(record.workspaces.get("w"), Some(TOKEN_CLEAN));
    assert!(record.metadata.ids().is_empty());
    sp.pseudo_panes.clear();
    sp.git.staged = 1;
    let sent = drive(&[sp.clone()], Mode::Sidebar, &mut record, &[1]);
    assert_eq!(
        sent,
        [
            clear_workspace("w", TOKEN_CLEAN),
            report_workspace("w", TOKEN_DIRTY, "+1")
        ]
    );
    // A refused status leaves the record as it was.
    assert_eq!(record.workspaces.get("w"), Some(TOKEN_CLEAN));
    sp.git = GitStatus::default();
    assert_eq!(
        drive(&[sp.clone()], Mode::Sidebar, &mut record, &[]),
        [clear_workspace("w", TOKEN_CLEAN)]
    );
    // An always-clean space costs no calls.
    assert!(drive(&[sp], Mode::Sidebar, &mut record, &[]).is_empty());
}

#[test]
fn a_status_lives_for_three_refreshes() {
    assert_eq!(ttl_ms(&Config::default()), 15000);
    let long = Config {
        interval_seconds: u64::MAX,
        ..Config::default()
    };
    assert_eq!(ttl_ms(&long), u64::MAX.wrapping_mul(3000));
}

// ---- clearing --------------------------------------------------------------

#[test]
fn clear_all_sweeps_every_token_of_everything_on_record() {
    let mut record = Surfaced::default();
    drive(&[dirty_space("w", &["p1"])], Mode::AgentsPanel, &mut record, &[]);
    drive(&[fully_clean_space("v")], Mode::Sidebar, &mut record, &[]);
    assert_eq!(
        clear_all(&record, "src"),
        [
            release("p1"),
            clear_pane("p1", TOKEN_CLEAN),
            clear_pane("p1", TOKEN_DIRTY),
            clear_pane("p1", TOKEN_CONFLICT),
            clear_workspace("v", TOKEN_CLEAN),
            clear_workspace("v", TOKEN_DIRTY),
            clear_workspace("v", TOKEN_CONFLICT),
        ]
    );
    assert!(clear_all(&Surfaced::default(), "src").is_empty());
}

#[test]
fn disable_sweeps_every_pane_and_workspace() {
    let mut sp = dirty_space("w", &["s1"]);
    sp.agent_panes = vec!["a1".to_string(), "s1".to_string()];
    sp.pseudo_panes = vec!["g1".to_string()];
    let sweep = leftovers(&vec![sp, fully_clean_space("v")]);
    assert_eq!(sweep.pseudo.ids(), &["g1"]);
    assert_eq!(sweep.metadata.ids(), &["a1", "s1", "g1"]);
    assert_eq!(sweep.workspaces.ids(), &["w", "v"]);
    assert_eq!(sweep.metadata.get("a1"), Some(TOKEN_DIRTY));
    assert_eq!(sweep.workspaces.get("v"), Some(TOKEN_DIRTY));
    assert_eq!(sweep.metadata.get("g1"), Some(TOKEN_DIRTY));
    assert_eq!(clear_all(&sweep, "src").len(), 1 + 3 * 3 + 2 * 3);
}

// ---- controls --------------------------------------------------------------

#[test]
fn controls_follow_the_live_daemon() {
    assert_eq!(start_updater(Some(7)), StartStep::Exit);
    assert_eq!(start_updater(None), StartStep::Run);
    assert_eq!(toggle_updater(Some(7)), Toggle::Disable);
    assert_eq!(toggle_updater(None), Toggle::Enable);
    let on = enable_updater(None);
    assert!(on.spawn);
    assert_eq!(on.notice, notify("git status updater enabled"));
    let again = enable_updater(Some(7));
    assert!(!again.spawn);
    assert_eq!(again.notice, notify("git status updater already enabled"));
    let off = disable_updater(Some(7));
    assert_eq!(off.terminate, Some(7));
    assert_eq!(off.notice, notify("git status updater disabled"));
    assert_eq!(disable_updater(None).terminate, None);
    assert_eq!(
        notify("x"),
        Request::Notify {
            title: "Git status".to_string(),
            body: "x".to_string()
        }
    );
}

#[test]
fn pid_files() {
    assert_eq!(recorded_pid(None), None);
    assert_eq!(recorded_pid(Some("  42\n")), Some(42));
    assert_eq!(recorded_pid(Some("+42")), Some(42));
    for bad in ["", "0", "-5", "abc", "4 2", "2147483648", "-"] {
        assert_eq!(recorded_pid(Some(bad)), None, "{bad}");
    }
    assert_eq!(daemon_pid(Some("42\n"), true), Some(42));
    assert_eq!(daemon_pid(Some("42\n"), false), None);
    assert_eq!(daemon_pid(Some("x"), true), None);
    assert_eq!(daemon_pid(None, true), None);
    assert_eq!(pid_text(1234), "1234\n");
    assert_eq!(recorded_pid(Some(&pid_text(i32::MAX as u32))), Some(i32::MAX));
}

#[test]
fn the_loop_stops_after_five_failures_in_a_row() {
    let mut updater = UpdaterLoop::new();
    let sampled = LoopEvent::Sampled { stopping: false };
    let waited = LoopEvent::Waited { stopping: false };
    for _ in 0..4 {
        assert_eq!(updater.step(LoopEvent::Failed), LoopStep::Retry);
        assert_eq!(updater.step(waited), LoopStep::Sample);
    }
    assert_eq!(updater.step(sampled), LoopStep::Push);
    for _ in 0..4 {
        assert_eq!(updater.step(LoopEvent::Failed), LoopStep::Retry);
    }
    assert_eq!(updater.step(LoopEvent::Failed), LoopStep::Shutdown);
    assert_eq!(updater.failures, 5);
}

#[test]
fn the_loop_parks_once_a_shutdown_is_under_way() {
    let mut updater = UpdaterLoop::new();
    let late = LoopEvent::Sampled { stopping: true };
    assert_eq!(updater.step(LoopEvent::Failed), LoopStep::Retry);
    assert_eq!(updater.step(late), LoopStep::Park);
    assert_eq!(updater.failures, 1);
    let waited = LoopEvent::Waited { stopping: true };
    assert_eq!(updater.step(waited), LoopStep::Park);
}

#[test]
fn pauses_of_the_loop() {
    let config = Config {
        interval_seconds: 7,
        ..Config::default()
    };
    assert_eq!(pause_seconds(LoopStep::Push, &config), 7);
    assert_eq!(pause_seconds(LoopStep::Retry, &config), 1);
    assert_eq!(pause_seconds(LoopStep::Shutdown, &config), 1);
    assert_eq!(pause_seconds(LoopStep::Park, &config), 3600);
    assert_eq!(pause_seconds(LoopStep::Sample, &config), 0);
}

// ---- a host that answers ---------------------------------------------------

/// What the host shows of ours: entries, and lit tokens of panes and workspaces.
#[derive(Default)]
struct Host {
    agents: BTreeSet<String>,
    panes: BTreeSet<(String, String)>,
    workspaces: BTreeSet<(String, String)>,
}

impl Host {
    fn accept(&mut self, request: &Request) {
        match request.clone() {
            Request::ReleaseAgent { pane, .. } => {
                self.agents.remove(&pane);
            }
            Request::ReportAgent { pane, .. } => {
                self.agents.insert(pane);
            }
            Request::ClearPane { pane, token, .. } => {
                self.panes.remove(&(pane, token));
            }
            Request::ReportPane { pane, token, .. } => {
                self.panes.insert((pane, token));
            }
            Request::ClearWorkspace { workspace, token, .. } => {
                self.workspaces.remove(&(workspace, token));
            }
            Request::ReportWorkspace { workspace, token, .. } => {
                self.workspaces.insert((workspace, token));
            }
            Request::Notify { .. } => {}
        }
    }

    fn refresh(&mut self, spaces: &[Space], mode: Mode, record: &mut Surfaced) {
        let sent = drive(spaces, mode, record, &[]);
        for request in &sent {
            self.accept(request);
        }
    }

    fn is_empty(&self) -> bool {
        self.agents.is_empty() && self.panes.is_empty() && self.workspaces.is_empty()
    }
}

#[test]
fn one_token_at_a_time_and_nothing_left_behind() {
    for mode in [Mode::AgentsPanel, Mode::Sidebar] {
        let mut host = Host::default();
        let mut record = Surfaced::default();
        let mut sp = dirty_space("w", &["p1"]);
        for (modified, conflicts, ahead) in [(2, 0, 0), (2, 1, 0), (0, 0, 0), (0, 0, 1), (1, 0, 1)] {
            sp.git.modified = modified;
            sp.git.conflicts = conflicts;
            sp.git.ahead = ahead;
            host.refresh(&[sp.clone()], mode, &mut record);
            let lit = host.panes.len() + host.workspaces.len();
            assert_eq!(lit, usize::from(!space_status(&sp, &Config::default()).is_empty()));
            // What is lit is on record, and what is on record is lit.
            for (pane, token) in &host.panes {
                assert_eq!(record.metadata.get(pane), Some(token.as_str()));
            }
            for (workspace, token) in &host.workspaces {
                assert_eq!(record.workspaces.get(workspace), Some(token.as_str()));
            }
            assert_eq!(record.metadata.ids().len(), host.panes.len());
            assert_eq!(record.workspaces.ids().len(), host.workspaces.len());
        }
        assert!(!host.is_empty());
        for request in clear_all(&record, "src") {
            host.accept(&request);
        }
        assert!(host.is_empty());
    }
}

#[test]
fn sidebar_mode_cleans_up_after_agents_panel_mode() {
    let mut host = Host::default();
    let mut record = Surfaced::default();
    let mut sp = dirty_space("w", &["p1"]);
    host.refresh(&[sp.clone()], Mode::AgentsPanel, &mut record);
    assert!(host.agents.contains("p1"));
    // The pane now carries our pseudo-agent.
    sp.spare_panes.clear();
    sp.pseudo_panes = vec!["p1".to_string()];
    host.refresh(&[sp], Mode::Sidebar, &mut record);
    assert!(host.agents.is_empty());
    assert!(!record.pseudo.contains("p1"));
}

#[test]
fn a_dead_daemons_leftovers_are_swept() {
    let mut host = Host::default();
    let mut lost = Surfaced::default();
    host.refresh(&[fully_clean_space("w")], Mode::Sidebar, &mut lost);
    let mut sp = dirty_space("w", &["p1"]);
    host.refresh(&[sp.clone()], Mode::AgentsPanel, &mut lost);
    // The daemon is gone, its record too; the pane carries our pseudo-agent.
    assert!(host.agents.contains("p1"));
    assert!(host.panes.contains(&("p1".to_string(), TOKEN_DIRTY.to_string())));
    sp.spare_panes.clear();
    sp.pseudo_panes = vec!["p1".to_string()];
    for request in clear_all(&leftovers(&vec![sp]), "src") {
        host.accept(&request);
    }
    assert!(host.is_empty());
}

#[test]
fn disabling_clears_every_token_of_a_pseudo_pane() {
    let sp = Space {
        id: "w".to_string(),
        pseudo_panes: vec!["p".to_string()],
        ..Default::default()
    };
    let sent = clear_all(&leftovers(&vec![sp]), "src");
    assert!(sent.contains(&release("p")));
    for token in STATUS_TOKENS {
        assert!(sent.contains(&clear_pane("p", token)));
        assert!(sent.contains(&clear_workspace("w", token)));
    }
}

#[test]
fn single_requests() {
    let mut record = Surfaced::default();
    record.pseudo.insert("p1");
    record.metadata.insert("p1", TOKEN_DIRTY);
    record.workspaces.insert("w", TOKEN_CLEAN);
    assert_eq!(release_pseudo("p1", "src", &mut record), release("p1"));
    assert!(!record.pseudo.contains("p1"));
    assert_eq!(
        clear_stale_pane_token("p1", "src", TOKEN_CONFLICT, &record),
        Some(clear_pane("p1", TOKEN_DIRTY))
    );
    assert_eq!(clear_stale_pane_token("p1", "src", TOKEN_DIRTY, &record), None);
    assert_eq!(clear_stale_pane_token("p2", "src", TOKEN_DIRTY, &record), None);
    assert_eq!(
        clear_stale_workspace_token("w", "src", TOKEN_DIRTY, &record),
        Some(clear_workspace("w", TOKEN_CLEAN))
    );
    assert_eq!(clear_stale_workspace_token("w", "src", TOKEN_CLEAN, &record), None);
}

// ---- the record ------------------------------------------------------------

#[test]
fn records_hold_each_id_once() {
    let mut record = Surfaced::default();
    record.pseudo.insert("a");
    record.pseudo.insert("b");
    record.pseudo.insert("a");
    assert_eq!(record.pseudo.ids(), &["a", "b"]);
    record.pseudo.remove("a");
    record.pseudo.remove("zzz");
    assert_eq!(record.pseudo.ids(), &["b"]);
    assert!(!record.pseudo.contains("a"));
    record.metadata.insert("x", TOKEN_CLEAN);
    record.metadata.insert("y", TOKEN_DIRTY);
    record.metadata.insert("x", TOKEN_CONFLICT);
    assert_eq!(record.metadata.ids(), &["x", "y"]);
    assert_eq!(record.metadata.get("x"), Some(TOKEN_CONFLICT));
    assert_eq!(record.metadata.remove("x"), Some(TOKEN_CONFLICT));
    assert_eq!(record.metadata.remove("x"), None);
    assert_eq!(record.metadata.get("y"), Some(TOKEN_DIRTY));
}
