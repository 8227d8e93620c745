//! Sidebar status updater daemon and its enable/disable/toggle controls.
//!
//! The daemon refreshes each space's git status on a cadence, surfacing it either
//! as a "git" pseudo-agent (agents-panel mode) or as TTL'd display-only metadata
//! (sidebar mode). A pid file under the state dir enforces a single instance;
//! statuses self-clear via their TTL if the daemon dies. A fully clean repo
//! (nothing to commit, push, or pull) reports `✓` unless `clean_checkmark =
//! false`; a space with an empty status (non-repo, or clean-but-diverged) has
//! any previous status actively cleared so no stale row lingers. `enable` /
//! `disable` / `toggle` spawn or signal that daemon and sweep leftover statuses.
//!
//! The host is asked through [`Request`]s; [`crate::push`] hands out those of a
//! refresh.

use crate::collect::PSEUDO_AGENT;
use crate::config::Config;
use crate::git;
use crate::model::{GitStatus, Space};
use crate::surfaced::Surfaced;
use crate::text;
use vstd::prelude::*;

verus! {

// ---- status tokens ----------------------------------------------------------

/// Named metadata tokens the updater pushes, one per [`git::Severity`], so the
/// host can colour each independently via its per-token sidebar style — green
/// clean, yellow dirty, red conflict. The host renders a custom token's value as
/// flat text (no ANSI, no content-based colour), so severity has to live in the
/// token *name*: exactly one is set per space at a time and the other two are
/// cleared. They are referenced in the host's `config.toml` as `$git_clean` /
/// `$git_dirty` / `$git_conflict`.
pub const TOKEN_CLEAN: &'static str = "git_clean";

pub const TOKEN_DIRTY: &'static str = "git_dirty";

pub const TOKEN_CONFLICT: &'static str = "git_conflict";

/// Every status token name, for clearing the inactive ones (and sweeping on
/// shutdown/disable without needing to know which was active).
pub const STATUS_TOKENS: [&'static str; 3] = [TOKEN_CLEAN, TOKEN_DIRTY, TOKEN_CONFLICT];

/// The token of a severity.
pub open spec fn token_of(severity: git::Severity) -> Seq<char> {
    match severity {
        git::Severity::Conflict => TOKEN_CONFLICT@,
        git::Severity::Dirty => TOKEN_DIRTY@,
        git::Severity::Clean => TOKEN_CLEAN@,
    }
}

/// One of the three status tokens.
pub open spec fn status_token_word(token: Seq<char>) -> bool {
    token == TOKEN_CLEAN@ || token == TOKEN_DIRTY@ || token == TOKEN_CONFLICT@
}

/// The status token a non-empty status for `g` is pushed onto, chosen by
/// [`git::severity`] so the colour matches the terminal dashboard's cell.
pub fn status_token_name(g: &GitStatus) -> (r: &'static str)
    ensures
        r@ == token_of(git::severity_of(*g)),
{
    match git::severity(g) {
        git::Severity::Conflict => TOKEN_CONFLICT,
        git::Severity::Dirty => TOKEN_DIRTY,
        git::Severity::Clean => TOKEN_CLEAN,
    }
}

/// The status string pushed for a repository in this state.
pub open spec fn pushed_text(g: GitStatus, config: Config) -> Seq<char> {
    if config.clean_checkmark {
        git::status_text(g)
    } else {
        git::token_text(g)
    }
}

/// The status string pushed for a space: [`git::status_token`] — the dirty
/// token, or `✓` for a fully clean repo — unless the user opted out via
/// `clean_checkmark = false`, which shows the dirty token only.
pub fn space_status(sp: &Space, config: &Config) -> (r: String)
    ensures
        r@ == pushed_text(sp.git, *config),
{
    if config.clean_checkmark {
        git::status_token(&sp.git)
    } else {
        git::token(&sp.git)
    }
}

/// The token tells what the status says: a status that is pushed rides the clean
/// token exactly when it is the check mark, and the conflict token exactly when
/// there are conflicts.
pub proof fn law_token_matches_status(g: GitStatus, config: Config)
    requires
        pushed_text(g, config).len() > 0,
    ensures
        token_of(git::severity_of(g)) == TOKEN_CLEAN@ <==> pushed_text(g, config)
            == git::CLEAN_MARK@,
        token_of(git::severity_of(g)) == TOKEN_CONFLICT@ <==> g.conflicts > 0,
{
    reveal_strlit("git_clean");
    reveal_strlit("git_dirty");
    reveal_strlit("git_conflict");
    assert(TOKEN_CLEAN@.len() == 9 && TOKEN_DIRTY@.len() == 9 && TOKEN_CONFLICT@.len() == 12);
    assert(TOKEN_CLEAN@[4] == 'c' && TOKEN_DIRTY@[4] == 'd');
    git::law_token_empty_iff_clean(g);
    git::law_check_mark_iff_fully_clean(g);
}

/// How long a pushed status lives, in milliseconds: three refreshes (in `u64`
/// arithmetic, which wraps).
pub open spec fn ttl_of(config: Config) -> u64 {
    ((config.interval_seconds * 3000) % 0x1_0000_0000_0000_0000) as u64
}

/// How long a pushed status lives, in milliseconds.
pub fn ttl_ms(config: &Config) -> (r: u64)
    ensures
        r == ttl_of(*config),
{
    let n: u64 = config.interval_seconds;
    let ghost m: int = 0x1_0000_0000_0000_0000;
    let thousand: u64 = n.wrapping_mul(1000);
    let r: u64 = thousand.wrapping_mul(3);
    proof {
        assert(thousand == (n * 1000) % m);
        assert(r == (thousand * 3) % m);
        vstd::arithmetic::div_mod::lemma_mul_mod_noop_left(n * 1000, 3, m);
    }
    r
}

// ---- requests ---------------------------------------------------------------

/// One call on the host.
#[derive(Debug, Clone, PartialEq, Eq)]
pub enum Request {
    /// Give up the agent entry on a pane.
    ReleaseAgent { pane: String, source: String, agent: String },
    /// Claim a pane as an agent in this state.
    ReportAgent { pane: String, source: String, agent: String, state: String },
    /// Clear a token of a pane.
    ClearPane { pane: String, source: String, token: String },
    /// Set a token of a pane, for a limited time.
    ReportPane { pane: String, source: String, token: String, status: String, ttl_ms: u64 },
    /// Clear a token of a workspace.
    ClearWorkspace { workspace: String, source: String, token: String },
    /// Set a token of a workspace, for a limited time.
    ReportWorkspace {
        workspace: String,
        source: String,
        token: String,
        status: String,
        ttl_ms: u64,
    },
    /// Show a toast.
    Notify { title: String, body: String },
}

/// What a request asks for.
pub ghost enum RequestView {
    ReleaseAgent { pane: Seq<char>, source: Seq<char>, agent: Seq<char> },
    ReportAgent { pane: Seq<char>, source: Seq<char>, agent: Seq<char>, state: Seq<char> },
    ClearPane { pane: Seq<char>, source: Seq<char>, token: Seq<char> },
    ReportPane {
        pane: Seq<char>,
        source: Seq<char>,
        token: Seq<char>,
        status: Seq<char>,
        ttl_ms: u64,
    },
    ClearWorkspace { workspace: Seq<char>, source: Seq<char>, token: Seq<char> },
    ReportWorkspace {
        workspace: Seq<char>,
        source: Seq<char>,
        token: Seq<char>,
        status: Seq<char>,
        ttl_ms: u64,
    },
    Notify { title: Seq<char>, body: Seq<char> },
}

impl View for Request {
    type V = RequestView;

    open spec fn view(&self) -> RequestView {
        match *self {
            Request::ReleaseAgent { pane, source, agent } => RequestView::ReleaseAgent {
                pane: pane@,
                source: source@,
                agent: agent@,
            },
            Request::ReportAgent { pane, source, agent, state } => RequestView::ReportAgent {
                pane: pane@,
                source: source@,
                agent: agent@,
                state: state@,
            },
            Request::ClearPane { pane, source, token } => RequestView::ClearPane {
                pane: pane@,
                source: source@,
                token: token@,
            },
            Request::ReportPane { pane, source, token, status, ttl_ms } => RequestView::ReportPane {
                pane: pane@,
                source: source@,
                token: token@,
                status: status@,
                ttl_ms,
            },
            Request::ClearWorkspace { workspace, source, token } => RequestView::ClearWorkspace {
                workspace: workspace@,
                source: source@,
                token: token@,
            },
            Request::ReportWorkspace { workspace, source, token, status, ttl_ms } =>
                RequestView::ReportWorkspace {
                workspace: workspace@,
                source: source@,
                token: token@,
                status: status@,
                ttl_ms,
            },
            Request::Notify { title, body } => RequestView::Notify { title: title@, body: body@ },
        }
    }
}

/// The views of a run of requests.
pub open spec fn asks(requests: Seq<Request>) -> Seq<RequestView> {
    Seq::new(requests.len(), |i: int| requests[i]@)
}

/// Giving up our pseudo-agent on a pane.
pub open spec fn release(pane: Seq<char>, source: Seq<char>) -> RequestView {
    RequestView::ReleaseAgent { pane, source, agent: PSEUDO_AGENT@ }
}

/// Giving up our pseudo-agent on each of the panes.
pub open spec fn releases(panes: Seq<Seq<char>>, source: Seq<char>) -> Seq<RequestView> {
    Seq::new(panes.len(), |i: int| release(panes[i], source))
}

/// Clearing a token of a pane.
pub open spec fn clear_pane(pane: Seq<char>, source: Seq<char>, token: Seq<char>) -> RequestView {
    RequestView::ClearPane { pane, source, token }
}

/// Clearing a token of a workspace.
pub open spec fn clear_workspace(
    workspace: Seq<char>,
    source: Seq<char>,
    token: Seq<char>,
) -> RequestView {
    RequestView::ClearWorkspace { workspace, source, token }
}

/// A best-effort "Git status" toast.
pub fn notify(body: &str) -> (r: Request)
    ensures
        r@ == (RequestView::Notify { title: "Git status"@, body: body@ }),
{
    Request::Notify { title: String::from_str("Git status"), body: String::from_str(body) }
}

/// Best-effort release of our pseudo-agent on `pane_id` (a closed pane errors and
/// is ignored — nothing to release); drops it from `surfaced` so shutdown won't
/// re-clear it.
pub fn release_pseudo(pane_id: &str, source: &str, surfaced: &mut Surfaced) -> (r: Request)
    ensures
        r@ == release(pane_id@, source@),
        final(surfaced)@ == (crate::surfaced::SurfacedView {
            pseudo: old(surfaced)@.pseudo.remove(pane_id@),
            ..old(surfaced)@
        }),
{
    surfaced.pseudo.remove(pane_id);
    Request::ReleaseAgent {
        pane: String::from_str(pane_id),
        source: String::from_str(source),
        agent: String::from_str(PSEUDO_AGENT),
    }
}

/// The clearing of a token that is set and is not the one to be set next.
pub open spec fn stale_token(
    tokens: Map<Seq<char>, Seq<char>>,
    id: Seq<char>,
    next: Seq<char>,
) -> Option<Seq<char>> {
    if tokens.contains_key(id) && tokens[id] != next {
        Some(tokens[id])
    } else {
        None
    }
}

/// Clear a pane's previously-set status token when this cycle's severity picks a
/// different one, so a dirty → conflict flip never leaves two tokens lit.
pub fn clear_stale_pane_token(
    pane: &str,
    source: &str,
    token: &str,
    surfaced: &Surfaced,
) -> (r: Option<Request>)
    ensures
        match stale_token(surfaced@.metadata, pane@, token@) {
            Some(prev) => r matches Some(req) && req@ == clear_pane(pane@, source@, prev),
            None => r is None,
        },
{
    match surfaced.metadata.get(pane) {
        Some(prev) => {
            if text::same(prev, token) {
                None
            } else {
                Some(
                    Request::ClearPane {
                        pane: String::from_str(pane),
                        source: String::from_str(source),
                        token: String::from_str(prev),
                    },
                )
            }
        },
        None => None,
    }
}

/// Workspace-level counterpart of [`clear_stale_pane_token`] (sidebar mode).
pub fn clear_stale_workspace_token(
    workspace_id: &str,
    source: &str,
    token: &str,
    surfaced: &Surfaced,
) -> (r: Option<Request>)
    ensures
        match stale_token(surfaced@.workspaces, workspace_id@, token@) {
            Some(prev) => r matches Some(req) && req@ == clear_workspace(
                workspace_id@,
                source@,
                prev,
            ),
            None => r is None,
        },
{
    match surfaced.workspaces.get(workspace_id) {
        Some(prev) => {
            if text::same(prev, token) {
                None
            } else {
                Some(
                    Request::ClearWorkspace {
                        workspace: String::from_str(workspace_id),
                        source: String::from_str(source),
                        token: String::from_str(prev),
                    },
                )
            }
        },
        None => None,
    }
}

// ---- clearing everything ----------------------------------------------------

/// Clearing every status token of each of the panes.
pub open spec fn pane_sweep(panes: Seq<Seq<char>>, source: Seq<char>) -> Seq<RequestView>
    decreases panes.len(),
{
    if panes.len() == 0 {
        Seq::empty()
    } else {
        let pane = panes.last();
        pane_sweep(panes.drop_last(), source) + seq![
            clear_pane(pane, source, TOKEN_CLEAN@),
            clear_pane(pane, source, TOKEN_DIRTY@),
            clear_pane(pane, source, TOKEN_CONFLICT@),
        ]
    }
}

/// Clearing every status token of each of the workspaces.
pub open spec fn workspace_sweep(workspaces: Seq<Seq<char>>, source: Seq<char>) -> Seq<RequestView>
    decreases workspaces.len(),
{
    if workspaces.len() == 0 {
        Seq::empty()
    } else {
        let id = workspaces.last();
        workspace_sweep(workspaces.drop_last(), source) + seq![
            clear_workspace(id, source, TOKEN_CLEAN@),
            clear_workspace(id, source, TOKEN_DIRTY@),
            clear_workspace(id, source, TOKEN_CONFLICT@),
        ]
    }
}

/// Releasing and clearing everything on record.
pub open spec fn sweep_of(surfaced: Surfaced, source: Seq<char>) -> Seq<RequestView> {
    releases(surfaced.pseudo.order(), source) + pane_sweep(surfaced.metadata.order(), source)
        + workspace_sweep(surfaced.workspaces.order(), source)
}

/// Release every pseudo-agent and clear every status token in `surfaced`.
///
/// Each pane/workspace on record gets ALL [`STATUS_TOKENS`] cleared, not just the
/// one recorded as active — cheap, idempotent, and robust to a severity that
/// flipped right before shutdown or a stale token left by a crashed prior run.
pub fn clear_all(surfaced: &Surfaced, source: &str) -> (r: Vec<Request>)
    ensures
        asks(r@) == sweep_of(*surfaced, source@),
        surfaced.pseudo.order().no_duplicates(),
        surfaced.metadata.order().no_duplicates(),
        surfaced.workspaces.order().no_duplicates(),
{
    let mut r: Vec<Request> = Vec::new();
    let panes = surfaced.pseudo.ids();
    let ghost first = surfaced.pseudo.order();
    let mut i: usize = 0;
    assert(asks(r@) =~= releases(first.take(0), source@));
    while i < panes.len()
        invariant
            text::views(panes@) == first,
            i <= panes@.len(),
            asks(r@) == releases(first.take(i as int), source@),
        decreases panes@.len() - i,
    {
        let ghost prev = r@;
        assert(first[i as int] == panes@[i as int]@);
        r.push(
            Request::ReleaseAgent {
                pane: panes[i].clone(),
                source: String::from_str(source),
                agent: String::from_str(PSEUDO_AGENT),
            },
        );
        assert(asks(r@) =~= asks(prev).push(release(first[i as int], source@)));
        assert(asks(r@) =~= releases(first.take(i + 1), source@));
        i += 1;
    }
    assert(first.take(i as int) =~= first);
    let ghost released = asks(r@);
    let panes = surfaced.metadata.ids();
    let ghost second = surfaced.metadata.order();
    let mut i: usize = 0;
    assert(second.take(0) =~= Seq::<Seq<char>>::empty());
    assert(asks(r@) =~= released + pane_sweep(second.take(0), source@));
    while i < panes.len()
        invariant
            text::views(panes@) == second,
            i <= panes@.len(),
            asks(r@) == released + pane_sweep(second.take(i as int), source@),
        decreases panes@.len() - i,
    {
        assert(second[i as int] == panes@[i as int]@);
        push_pane_clear(&mut r, panes[i].as_str(), source, TOKEN_CLEAN);
        push_pane_clear(&mut r, panes[i].as_str(), source, TOKEN_DIRTY);
        push_pane_clear(&mut r, panes[i].as_str(), source, TOKEN_CONFLICT);
        assert(second.take(i + 1).drop_last() =~= second.take(i as int));
        assert(asks(r@) =~= released + pane_sweep(second.take(i + 1), source@));
        i += 1;
    }
    assert(second.take(i as int) =~= second);
    let ghost cleared = asks(r@);
    let workspaces = surfaced.workspaces.ids();
    let ghost third = surfaced.workspaces.order();
    let mut i: usize = 0;
    assert(third.take(0) =~= Seq::<Seq<char>>::empty());
    assert(asks(r@) =~= cleared + workspace_sweep(third.take(0), source@));
    while i < workspaces.len()
        invariant
            text::views(workspaces@) == third,
            i <= workspaces@.len(),
            asks(r@) == cleared + workspace_sweep(third.take(i as int), source@),
        decreases workspaces@.len() - i,
    {
        assert(third[i as int] == workspaces@[i as int]@);
        push_workspace_clear(&mut r, workspaces[i].as_str(), source, TOKEN_CLEAN);
        push_workspace_clear(&mut r, workspaces[i].as_str(), source, TOKEN_DIRTY);
        push_workspace_clear(&mut r, workspaces[i].as_str(), source, TOKEN_CONFLICT);
        assert(third.take(i + 1).drop_last() =~= third.take(i as int));
        assert(asks(r@) =~= cleared + workspace_sweep(third.take(i + 1), source@));
        i += 1;
    }
    assert(third.take(i as int) =~= third);
    r
}

fn push_pane_clear(r: &mut Vec<Request>, pane: &str, source: &str, token: &str)
    ensures
        asks(final(r)@) == asks(old(r)@).push(clear_pane(pane@, source@, token@)),
{
    r.push(
        Request::ClearPane {
            pane: String::from_str(pane),
            source: String::from_str(source),
            token: String::from_str(token),
        },
    );
    assert(asks(r@) =~= asks(old(r)@).push(clear_pane(pane@, source@, token@)));
}

fn push_workspace_clear(r: &mut Vec<Request>, workspace: &str, source: &str, token: &str)
    ensures
        asks(final(r)@) == asks(old(r)@).push(clear_workspace(workspace@, source@, token@)),
{
    r.push(
        Request::ClearWorkspace {
            workspace: String::from_str(workspace),
            source: String::from_str(source),
            token: String::from_str(token),
        },
    );
    assert(asks(r@) =~= asks(old(r)@).push(clear_workspace(workspace@, source@, token@)));
}

// ---- enable / disable / toggle ----------------------------------------------

/// What enabling the updater amounts to.
#[derive(Debug, Clone, PartialEq, Eq)]
pub struct EnablePlan {
    /// Whether a detached `--daemon` process is to be spawned.
    pub spawn: bool,
    /// The toast to show afterwards.
    pub notice: Request,
}

/// `--enable`: spawn a detached `--daemon` process (no-op if `live`, the pid of a
/// running updater, is there).
pub fn enable_updater(live: Option<u32>) -> (plan: EnablePlan)
    ensures
        plan.spawn == live is None,
        plan.notice@ == (RequestView::Notify {
            title: "Git status"@,
            body: if live is Some {
                "git status updater already enabled"@
            } else {
                "git status updater enabled"@
            },
        }),
{
    if live.is_some() {
        return EnablePlan { spawn: false, notice: notify("git status updater already enabled") };
    }
    EnablePlan { spawn: true, notice: notify("git status updater enabled") }
}

/// What disabling the updater amounts to, besides sweeping the [`leftovers`].
#[derive(Debug, Clone, PartialEq, Eq)]
pub struct DisablePlan {
    /// The process to be asked to terminate; it clears its own statuses.
    pub terminate: Option<u32>,
    /// The toast to show at the end.
    pub notice: Request,
}

/// `--disable`: signal the daemon (`live`, the pid of a running updater, if there
/// is one); then the [`leftovers`] are swept and the toast is shown.
pub fn disable_updater(live: Option<u32>) -> (plan: DisablePlan)
    ensures
        plan.terminate == live,
        plan.notice@ == (RequestView::Notify {
            title: "Git status"@,
            body: "git status updater disabled"@,
        }),
{
    DisablePlan { terminate: live, notice: notify("git status updater disabled") }
}

/// The control that a toggle amounts to.
#[derive(Debug, Clone, Copy, PartialEq, Eq, Structural)]
pub enum Toggle {
    Enable,
    Disable,
}

/// `--toggle`: disable if a daemon is live, else enable.
pub fn toggle_updater(live: Option<u32>) -> (r: Toggle)
    ensures
        r == if live is Some {
            Toggle::Disable
        } else {
            Toggle::Enable
        },
{
    if live.is_some() {
        Toggle::Disable
    } else {
        Toggle::Enable
    }
}

/// One of the panes of a space, whatever it hosts.
pub open spec fn hosts(sp: Space, pane: Seq<char>) -> bool {
    sp@.agent_panes.contains(pane) || sp@.spare_panes.contains(pane) || sp@.pseudo_panes.contains(
        pane,
    )
}

/// Exactly what may carry a status of ours: every pseudo-agent, and every pane and
/// every workspace of these spaces, each with the dirty token on record.
pub open spec fn covers(t: crate::surfaced::SurfacedView, spaces: Seq<Space>) -> bool {
    &&& forall|id: Seq<char>| #[trigger]
        t.pseudo.contains(id) <==> exists|i: int|
            0 <= i < spaces.len() && (#[trigger] spaces[i])@.pseudo_panes.contains(id)
    &&& forall|id: Seq<char>| #[trigger]
        t.metadata.contains_key(id) <==> exists|i: int|
            0 <= i < spaces.len() && hosts(#[trigger] spaces[i], id)
    &&& forall|id: Seq<char>| #[trigger]
        t.workspaces.contains_key(id) <==> exists|i: int|
            0 <= i < spaces.len() && (#[trigger] spaces[i])@.id == id
    &&& forall|id: Seq<char>| #[trigger]
        t.metadata.contains_key(id) ==> t.metadata[id] == TOKEN_DIRTY@
    &&& forall|id: Seq<char>| #[trigger]
        t.workspaces.contains_key(id) ==> t.workspaces[id] == TOKEN_DIRTY@
}

/// Adds ids to a set.
fn add_ids(set: &mut crate::surfaced::IdSet, ids: &Vec<String>)
    ensures
        forall|id: Seq<char>| #[trigger]
            final(set)@.contains(id) <==> old(set)@.contains(id) || text::views(ids@).contains(id),
{
    let mut i: usize = 0;
    let ghost all = text::views(ids@);
    while i < ids.len()
        invariant
            all == text::views(ids@),
            i <= ids@.len(),
            forall|id: Seq<char>| #[trigger]
                set@.contains(id) <==> old(set)@.contains(id) || all.take(i as int).contains(id),
        decreases ids@.len() - i,
    {
        let ghost (now, next) = (all.take(i as int), all.take(i + 1));
        assert(next =~= now.push(ids@[i as int]@));
        set.insert(ids[i].as_str());
        assert forall|id: Seq<char>| next.contains(id) <==> now.contains(id) || id
            == ids@[i as int]@ by {
            if now.contains(id) {
                assert(next[now.index_of(id)] == id);
            }
            assert(next[now.len() as int] == ids@[i as int]@);
        }
        i += 1;
    }
    assert(all.take(i as int) =~= all);
}

/// Adds ids to a map, all under the same token.
fn add_keys(map: &mut crate::surfaced::TokenMap, ids: &Vec<String>, token: &'static str)
    ensures
        forall|id: Seq<char>| #[trigger]
            final(map)@.contains_key(id) <==> old(map)@.contains_key(id) || text::views(
                ids@,
            ).contains(id),
        forall|id: Seq<char>| #[trigger]
            final(map)@.contains_key(id) ==> final(map)@[id] == if text::views(ids@).contains(id) {
                token@
            } else {
                old(map)@[id]
            },
{
    let mut i: usize = 0;
    let ghost all = text::views(ids@);
    while i < ids.len()
        invariant
            all == text::views(ids@),
            i <= ids@.len(),
            forall|id: Seq<char>| #[trigger]
                map@.contains_key(id) <==> old(map)@.contains_key(id) || all.take(
                    i as int,
                ).contains(id),
            forall|id: Seq<char>| #[trigger]
                map@.contains_key(id) ==> map@[id] == if all.take(i as int).contains(id) {
                    token@
                } else {
                    old(map)@[id]
                },
        decreases ids@.len() - i,
    {
        let ghost (now, next) = (all.take(i as int), all.take(i + 1));
        assert(next =~= now.push(ids@[i as int]@));
        map.insert(ids[i].as_str(), token);
        assert forall|id: Seq<char>| next.contains(id) <==> now.contains(id) || id
            == ids@[i as int]@ by {
            if now.contains(id) {
                assert(next[now.index_of(id)] == id);
            }
            assert(next[now.len() as int] == ids@[i as int]@);
        }
        i += 1;
    }
    assert(all.take(i as int) =~= all);
}

/// What `--disable` sweeps with [`clear_all`] besides signalling the daemon.
///
/// Belt and braces: every current pane is swept in case the daemon died —
/// pseudo-agents (no TTL) are released and metadata statuses cleared, those on the
/// panes of the pseudo-agents too. The recorded token is a don't-care here: [`clear_all`] sweeps every
/// [`STATUS_TOKENS`] name per id, so a dead daemon's stale token of any severity
/// is cleared regardless of which we record.
pub fn leftovers(spaces: &Vec<Space>) -> (sweep: Surfaced)
    ensures
        covers(sweep@, spaces@),
{
    let mut sweep = Surfaced::default();
    let mut i: usize = 0;
    while i < spaces.len()
        invariant
            i <= spaces@.len(),
            covers(sweep@, spaces@.take(i as int)),
        decreases spaces@.len() - i,
    {
        let ghost (now, next) = (spaces@.take(i as int), spaces@.take(i + 1));
        let ghost t = sweep@;
        add_ids(&mut sweep.pseudo, &spaces[i].pseudo_panes);
        add_keys(&mut sweep.metadata, &spaces[i].agent_panes, TOKEN_DIRTY);
        let ghost agents = sweep.metadata@;
        add_keys(&mut sweep.metadata, &spaces[i].spare_panes, TOKEN_DIRTY);
        let ghost others = sweep.metadata@;
        add_keys(&mut sweep.metadata, &spaces[i].pseudo_panes, TOKEN_DIRTY);
        sweep.workspaces.insert(spaces[i].id.as_str(), TOKEN_DIRTY);
        proof {
            let sp = spaces@[i as int];
            assert(next[i as int] == sp);
            assert(forall|k: int| 0 <= k < i ==> next[k] == now[k]);
            assert forall|id: Seq<char>| #[trigger]
                sweep@.pseudo.contains(id) <==> exists|k: int|
                    0 <= k < next.len() && (#[trigger] next[k])@.pseudo_panes.contains(id) by {
                if t.pseudo.contains(id) {
                    let k = choose|k: int|
                        0 <= k < now.len() && (#[trigger] now[k])@.pseudo_panes.contains(id);
                    assert(next[k]@.pseudo_panes.contains(id));
                }
                if exists|k: int|
                    0 <= k < next.len() && (#[trigger] next[k])@.pseudo_panes.contains(id) {
                    let k = choose|k: int|
                        0 <= k < next.len() && (#[trigger] next[k])@.pseudo_panes.contains(id);
                    if k < i {
                        assert(now[k]@.pseudo_panes.contains(id));
                    }
                }
            }
            assert forall|id: Seq<char>| #[trigger]
                sweep@.metadata.contains_key(id) <==> exists|k: int|
                    0 <= k < next.len() && hosts(#[trigger] next[k], id) by {
                if t.metadata.contains_key(id) {
                    let k = choose|k: int| 0 <= k < now.len() && hosts(#[trigger] now[k], id);
                    assert(hosts(next[k], id));
                }
                if hosts(sp, id) {
                    assert(hosts(next[i as int], id));
                }
                if exists|k: int| 0 <= k < next.len() && hosts(#[trigger] next[k], id) {
                    let k = choose|k: int| 0 <= k < next.len() && hosts(#[trigger] next[k], id);
                    if k < i {
                        assert(hosts(now[k], id));
                    }
                }
                assert(agents.contains_key(id) <==> t.metadata.contains_key(id)
                    || sp@.agent_panes.contains(id));
                assert(others.contains_key(id) <==> agents.contains_key(id)
                    || sp@.spare_panes.contains(id));
            }
            assert forall|id: Seq<char>| #[trigger]
                sweep@.workspaces.contains_key(id) <==> exists|k: int|
                    0 <= k < next.len() && (#[trigger] next[k])@.id == id by {
                if t.workspaces.contains_key(id) {
                    let k = choose|k: int| 0 <= k < now.len() && (#[trigger] now[k])@.id == id;
                    assert(next[k]@.id == id);
                }
                if exists|k: int| 0 <= k < next.len() && (#[trigger] next[k])@.id == id {
                    let k = choose|k: int| 0 <= k < next.len() && (#[trigger] next[k])@.id == id;
                    if k < i {
                        assert(now[k]@.id == id);
                    }
                }
            }
            assert forall|id: Seq<char>| #[trigger]
                sweep@.metadata.contains_key(id) implies sweep@.metadata[id] == TOKEN_DIRTY@ by {
                if !sp@.pseudo_panes.contains(id) {
                    assert(others.contains_key(id));
                    if !sp@.spare_panes.contains(id) {
                        assert(agents.contains_key(id));
                        if !sp@.agent_panes.contains(id) {
                            assert(t.metadata.contains_key(id));
                        }
                    }
                }
            }
            assert forall|id: Seq<char>| #[trigger]
                sweep@.workspaces.contains_key(id) implies sweep@.workspaces[id]
                == TOKEN_DIRTY@ by {
                if id != sp.id@ {
                    assert(t.workspaces.contains_key(id));
                }
            }
        }
        i += 1;
    }
    assert(spaces@.take(i as int) =~= spaces@);
    sweep
}

// ---- the pid file -----------------------------------------------------------

/// The pid that a pid file's text names: a positive number, white space aside.
pub open spec fn pid_in(text: Seq<char>) -> Option<i32> {
    match text::read_i32(text::trimmed(text)) {
        Some(pid) => if pid > 0 {
            Some(pid)
        } else {
            None
        },
        None => None,
    }
}

/// The process that the pid file names, if it names one: the one to be probed.
/// `file` is the text of the file, `None` where it cannot be read.
pub fn recorded_pid(file: Option<&str>) -> (r: Option<i32>)
    ensures
        r == match file {
            Some(text) => pid_in(text@),
            None => None,
        },
{
    match file {
        Some(text) => match text::parse_i32(text::trim(text)) {
            Some(pid) => if pid > 0 {
                Some(pid)
            } else {
                None
            },
            None => None,
        },
        None => None,
    }
}

/// PID of a live updater daemon, or `None` (missing pid file / dead process).
///
/// `file` is the text of the pid file and `alive` says whether the process that
/// it names (see [`recorded_pid`]) can be signalled. Any failure — no file,
/// unparsable content, a non-positive pid, or a dead/unsignalable process — reads
/// as `None`.
pub fn daemon_pid(file: Option<&str>, alive: bool) -> (r: Option<u32>)
    ensures
        r == match file {
            Some(text) => match pid_in(text@) {
                Some(pid) => if alive {
                    Some(pid as u32)
                } else {
                    None
                },
                None => None,
            },
            None => None,
        },
{
    match recorded_pid(file) {
        Some(pid) => if alive {
            Some(pid as u32)
        } else {
            None
        },
        None => None,
    }
}

/// What the pid file of a process holds.
pub open spec fn pid_line(pid: nat) -> Seq<char> {
    text::decimal(pid).push('\n')
}

/// The text of the pid file of this process.
pub fn pid_text(pid: u32) -> (r: String)
    ensures
        r@ == pid_line(pid as nat),
{
    let mut r = String::new();
    text::push_decimal(&mut r, pid as u64);
    r.push('\n');
    assert(r@ =~= pid_line(pid as nat));
    r
}

/// A pid file names the process that wrote it.
pub proof fn law_pid_file_names_its_writer(pid: u32)
    requires
        0 < pid <= i32::MAX,
    ensures
        pid_in(pid_line(pid as nat)) == Some(pid as i32),
{
    let d = text::decimal(pid as nat);
    let line = pid_line(pid as nat);
    text::lemma_decimal_value(pid as nat);
    assert(text::digit(d[0]) && text::digit(d.last()));
    assert(line[0] == d[0]);
    assert(text::skip_white(line) == line);
    assert(line.drop_last() =~= d);
    assert(text::drop_white(line) == text::drop_white(d));
    assert(text::drop_white(d) == d);
}

// ---- starting up ------------------------------------------------------------

/// What a starting daemon does.
#[derive(Debug, Clone, Copy, PartialEq, Eq, Structural)]
pub enum StartStep {
    /// Leave at once: another updater is already live.
    Exit,
    /// Write the pid file and run.
    Run,
}

/// `--daemon`: single instance, so it leaves if `live`, the pid of a running
/// updater, is there.
pub fn start_updater(live: Option<u32>) -> (r: StartStep)
    ensures
        r == if live is Some {
            StartStep::Exit
        } else {
            StartStep::Run
        },
{
    if live.is_some() {
        StartStep::Exit
    } else {
        StartStep::Run
    }
}

// ---- the updater loop -------------------------------------------------------

/// How many consecutive failures stop the updater: the host is likely gone.
pub const MAX_FAILURES: u32 = 5;

/// What happened to the updater loop.
#[derive(Debug, Clone, Copy, PartialEq, Eq, Structural)]
pub enum LoopEvent {
    /// A snapshot was taken; `stopping` says whether a shutdown is under way.
    Sampled { stopping: bool },
    /// A snapshot failed.
    Failed,
    /// The wait after a step is over; `stopping` as above.
    Waited { stopping: bool },
}

/// What the updater loop does next.
#[derive(Debug, Clone, Copy, PartialEq, Eq, Structural)]
pub enum LoopStep {
    /// Take a snapshot.
    Sample,
    /// Idle while the shutdown under way completes: do not report again.
    Park,
    /// Push the statuses, then wait.
    Push,
    /// Wait and try again.
    Retry,
    /// Shut down, unless a shutdown is under way already: then wait.
    Shutdown,
}

/// The failure count after one more event: a snapshot resets it unless it came
/// too late, a failure adds to it.
pub open spec fn failures_after(failures: u32, event: LoopEvent) -> u32 {
    match event {
        LoopEvent::Sampled { stopping: false } => 0,
        LoopEvent::Failed => if failures < u32::MAX {
            (failures + 1) as u32
        } else {
            u32::MAX
        },
        _ => failures,
    }
}

/// What the updater does after an event that brought the failures to this count.
pub open spec fn step_after(failures: u32, event: LoopEvent) -> LoopStep {
    match event {
        LoopEvent::Sampled { stopping: true } => LoopStep::Park,
        LoopEvent::Sampled { stopping: false } => LoopStep::Push,
        LoopEvent::Failed => if failures >= MAX_FAILURES {
            LoopStep::Shutdown
        } else {
            LoopStep::Retry
        },
        LoopEvent::Waited { stopping: true } => LoopStep::Park,
        LoopEvent::Waited { stopping: false } => LoopStep::Sample,
    }
}

/// The updater loop: how many snapshots in a row have failed.
#[derive(Debug)]
pub struct UpdaterLoop {
    pub failures: u32,
}

impl UpdaterLoop {
    /// A loop without failures.
    pub fn new() -> (r: Self)
        ensures
            r.failures == 0,
    {
        UpdaterLoop { failures: 0 }
    }

    /// What to do after an event.
    ///
    /// The loop shuts down after five consecutive failures. Once a shutdown is
    /// under way it must not report again, so it parks.
    pub fn step(&mut self, event: LoopEvent) -> (r: LoopStep)
        ensures
            final(self).failures == failures_after(old(self).failures, event),
            r == step_after(final(self).failures, event),
    {
        match event {
            LoopEvent::Sampled { stopping } => {
                if stopping {
                    return LoopStep::Park;
                }
                self.failures = 0;
                LoopStep::Push
            },
            LoopEvent::Failed => {
                self.failures = self.failures.saturating_add(1);
                if self.failures >= MAX_FAILURES {
                    LoopStep::Shutdown
                } else {
                    LoopStep::Retry
                }
            },
            LoopEvent::Waited { stopping } => {
                if stopping {
                    LoopStep::Park
                } else {
                    LoopStep::Sample
                }
            },
        }
    }
}

/// How long to wait after a step, in seconds.
pub open spec fn pause_of(step: LoopStep, config: Config) -> u64 {
    match step {
        LoopStep::Sample => 0,
        LoopStep::Park => 3600,
        LoopStep::Push => config.interval_seconds,
        LoopStep::Retry => 1,
        LoopStep::Shutdown => 1,
    }
}

/// How long to wait after a step, in seconds: the refresh interval after a push, a
/// second after a failure; an idle loop wakes once an hour. Nothing before a
/// snapshot.
pub fn pause_seconds(step: LoopStep, config: &Config) -> (r: u64)
    ensures
        r == pause_of(step, *config),
{
    match step {
        LoopStep::Sample => 0,
        LoopStep::Park => 3600,
        LoopStep::Push => config.interval_seconds,
        LoopStep::Retry => 1,
        LoopStep::Shutdown => 1,
    }
}

/// The failure count of a loop after these events.
pub open spec fn failures_over(history: Seq<LoopEvent>) -> u32
    decreases history.len(),
{
    if history.len() == 0 {
        0
    } else {
        failures_after(failures_over(history.drop_last()), history.last())
    }
}

/// The outcomes of the snapshots among these events (`true`: taken), waits aside.
pub open spec fn outcomes(history: Seq<LoopEvent>) -> Seq<bool>
    decreases history.len(),
{
    if history.len() == 0 {
        Seq::empty()
    } else {
        let init = outcomes(history.drop_last());
        match history.last() {
            LoopEvent::Sampled { .. } => init.push(true),
            LoopEvent::Failed => init.push(false),
            LoopEvent::Waited { .. } => init,
        }
    }
}

/// The last `n` snapshots all failed.
pub open spec fn failing(history: Seq<LoopEvent>, n: int) -> bool {
    n <= outcomes(history).len() && forall|i: int|
        outcomes(history).len() - n <= i < outcomes(history).len() ==> !#[trigger] outcomes(
            history,
        )[i]
}

/// The loop shuts down at the fifth failure in a row, and not before: as long as no
/// shutdown is under way, the failure count reaches `n` exactly when the last `n`
/// snapshots all failed.
pub proof fn law_shutdown_after_consecutive_failures(history: Seq<LoopEvent>, n: u32)
    requires
        forall|i: int|
            0 <= i < history.len() ==> #[trigger] history[i] != (LoopEvent::Sampled {
                stopping: true,
            }),
    ensures
        failures_over(history) >= n <==> failing(history, n as int),
        history.len() > 0 && history.last() == LoopEvent::Failed ==> (step_after(
            failures_over(history),
            history.last(),
        ) == LoopStep::Shutdown <==> failing(history, MAX_FAILURES as int)),
{
    lemma_failures(history, n);
    lemma_failures(history, MAX_FAILURES);
}

proof fn lemma_failures(history: Seq<LoopEvent>, n: u32)
    requires
        forall|i: int|
            0 <= i < history.len() ==> #[trigger] history[i] != (LoopEvent::Sampled {
                stopping: true,
            }),
    ensures
        failures_over(history) >= n <==> failing(history, n as int),
    decreases history.len(),
{
    if history.len() > 0 && n > 0 {
        let init = history.drop_last();
        let (before, now) = (outcomes(init), outcomes(history));
        assert(history.last() == history[history.len() - 1]);
        assert forall|i: int| 0 <= i < init.len() implies #[trigger] init[i] != (
        LoopEvent::Sampled { stopping: true }) by {
            assert(init[i] == history[i]);
        }
        lemma_failures(init, n);
        lemma_failures(init, (n - 1) as u32);
        match history.last() {
            LoopEvent::Sampled { .. } => {
                assert(now[now.len() - 1]);
            },
            LoopEvent::Failed => {
                assert(forall|i: int| 0 <= i < before.len() ==> now[i] == before[i]);
                if failing(init, n - 1) {
                    assert forall|i: int| now.len() - n <= i < now.len() implies !#[trigger] now[i] by {
                        if i < before.len() {
                            assert(!before[i]);
                        }
                    }
                }
                if failing(history, n as int) {
                    assert forall|i: int| before.len() - (n - 1) <= i < before.len() implies
                        !#[trigger] before[i] by {
                        assert(!now[i]);
                    }
                }
            },
            LoopEvent::Waited { .. } => {},
        }
    }
}

// ---- on the fields ----------------------------------------------------------

/// What is pushed for a status, on its fields: the token by severity, the text by the
/// check-mark choice, and a life of three refreshes.
pub proof fn law_what_is_pushed(g: GitStatus, config: Config)
    ensures
        g.conflicts > 0 ==> token_of(git::severity_of(g)) == "git_conflict"@,
        g.conflicts == 0 && g.is_repo && (g.staged > 0 || g.modified > 0 || g.untracked > 0)
            ==> token_of(git::severity_of(g)) == "git_dirty"@,
        g.conflicts == 0 && (!g.is_repo || (g.staged == 0 && g.modified == 0 && g.untracked == 0))
            ==> token_of(git::severity_of(g)) == "git_clean"@,
        config.clean_checkmark ==> pushed_text(g, config) == git::status_text(g),
        !config.clean_checkmark ==> pushed_text(g, config) == git::token_text(g),
        ttl_of(config) as int == (config.interval_seconds * 3000) % 0x1_0000_0000_0000_0000,
        forall|k: Seq<char>| #[trigger]
            status_token_word(k) <==> k == "git_clean"@ || k == "git_dirty"@ || k
                == "git_conflict"@,
{
}

/// A token is stale exactly when one is set and it is another than the next.
pub proof fn law_stale_tokens(
    tokens: Map<Seq<char>, Seq<char>>,
    id: Seq<char>,
    next: Seq<char>,
)
    ensures
        !tokens.contains_key(id) ==> stale_token(tokens, id, next) is None,
        tokens.contains_key(id) && tokens[id] == next ==> stale_token(tokens, id, next) is None,
        tokens.contains_key(id) && tokens[id] != next ==> stale_token(tokens, id, next) == Some(
            tokens[id],
        ),
{
}

proof fn lemma_pane_sweep_at(panes: Seq<Seq<char>>, source: Seq<char>, k: int)
    requires
        0 <= k < panes.len(),
    ensures
        pane_sweep(panes, source).len() == 3 * panes.len(),
        pane_sweep(panes, source)[3 * k] == (RequestView::ClearPane {
            pane: panes[k],
            source,
            token: "git_clean"@,
        }),
        pane_sweep(panes, source)[3 * k + 1] == (RequestView::ClearPane {
            pane: panes[k],
            source,
            token: "git_dirty"@,
        }),
        pane_sweep(panes, source)[3 * k + 2] == (RequestView::ClearPane {
            pane: panes[k],
            source,
            token: "git_conflict"@,
        }),
    decreases panes.len(),
{
    let init = panes.drop_last();
    lemma_pane_sweep_len(init, source);
    if k < init.len() {
        lemma_pane_sweep_at(init, source, k);
        assert(init[k] == panes[k]);
    }
}

proof fn lemma_pane_sweep_len(panes: Seq<Seq<char>>, source: Seq<char>)
    ensures
        pane_sweep(panes, source).len() == 3 * panes.len(),
    decreases panes.len(),
{
    if panes.len() > 0 {
        lemma_pane_sweep_len(panes.drop_last(), source);
    }
}

proof fn lemma_workspace_sweep_at(workspaces: Seq<Seq<char>>, source: Seq<char>, k: int)
    requires
        0 <= k < workspaces.len(),
    ensures
        workspace_sweep(workspaces, source).len() == 3 * workspaces.len(),
        workspace_sweep(workspaces, source)[3 * k] == (RequestView::ClearWorkspace {
            workspace: workspaces[k],
            source,
            token: "git_clean"@,
        }),
        workspace_sweep(workspaces, source)[3 * k + 1] == (RequestView::ClearWorkspace {
            workspace: workspaces[k],
            source,
            token: "git_dirty"@,
        }),
        workspace_sweep(workspaces, source)[3 * k + 2] == (RequestView::ClearWorkspace {
            workspace: workspaces[k],
            source,
            token: "git_conflict"@,
        }),
    decreases workspaces.len(),
{
    let init = workspaces.drop_last();
    lemma_workspace_sweep_len(init, source);
    if k < init.len() {
        lemma_workspace_sweep_at(init, source, k);
        assert(init[k] == workspaces[k]);
    }
}

proof fn lemma_workspace_sweep_len(workspaces: Seq<Seq<char>>, source: Seq<char>)
    ensures
        workspace_sweep(workspaces, source).len() == 3 * workspaces.len(),
    decreases workspaces.len(),
{
    if workspaces.len() > 0 {
        lemma_workspace_sweep_len(workspaces.drop_last(), source);
    }
}

/// Sweeping a record makes one release for each pseudo-agent, then three clearings,
/// one per token, for each pane and then for each workspace, and nothing else.
pub proof fn law_sweep_request_by_request(surfaced: Surfaced, source: Seq<char>)
    ensures
        ({
            let sweep = sweep_of(surfaced, source);
            let (a, b, c) = (
                surfaced.pseudo.order(),
                surfaced.metadata.order(),
                surfaced.workspaces.order(),
            );
            let (m, n) = (a.len() as int, a.len() + 3 * b.len());
            &&& sweep.len() == a.len() + 3 * b.len() + 3 * c.len()
            &&& forall|k: int|
                0 <= k < a.len() ==> sweep[k] == (RequestView::ReleaseAgent {
                    pane: #[trigger] a[k],
                    source,
                    agent: "git"@,
                })
            &&& forall|k: int|
                0 <= k < b.len() ==> {
                    let pane = #[trigger] b[k];
                    &&& sweep[m + 3 * k] == (RequestView::ClearPane {
                        pane,
                        source,
                        token: "git_clean"@,
                    })
                    &&& sweep[m + 3 * k + 1] == (RequestView::ClearPane {
                        pane,
                        source,
                        token: "git_dirty"@,
                    })
                    &&& sweep[m + 3 * k + 2] == (RequestView::ClearPane {
                        pane,
                        source,
                        token: "git_conflict"@,
                    })
                }
            &&& forall|k: int|
                0 <= k < c.len() ==> {
                    let workspace = #[trigger] c[k];
                    &&& sweep[n + 3 * k] == (RequestView::ClearWorkspace {
                        workspace,
                        source,
                        token: "git_clean"@,
                    })
                    &&& sweep[n + 3 * k + 1] == (RequestView::ClearWorkspace {
                        workspace,
                        source,
                        token: "git_dirty"@,
                    })
                    &&& sweep[n + 3 * k + 2] == (RequestView::ClearWorkspace {
                        workspace,
                        source,
                        token: "git_conflict"@,
                    })
                }
        }),
        forall|p: Seq<char>|
            surfaced@.pseudo.contains(p) <==> #[trigger] surfaced.pseudo.order().contains(p),
        forall|p: Seq<char>|
            surfaced@.metadata.contains_key(p) <==> #[trigger] surfaced.metadata.order().contains(
                p,
            ),
        forall|w: Seq<char>|
            surfaced@.workspaces.contains_key(w)
                <==> #[trigger] surfaced.workspaces.order().contains(w),
{
    let sweep = sweep_of(surfaced, source);
    let (a, b, c) = (
        surfaced.pseudo.order(),
        surfaced.metadata.order(),
        surfaced.workspaces.order(),
    );
    let (m, n) = (a.len() as int, a.len() + 3 * b.len());
    lemma_pane_sweep_len(b, source);
    lemma_workspace_sweep_len(c, source);
    let (y, z) = (pane_sweep(b, source), workspace_sweep(c, source));
    assert forall|k: int| 0 <= k < b.len() implies {
        let pane = #[trigger] b[k];
        &&& sweep[m + 3 * k] == (RequestView::ClearPane { pane, source, token: "git_clean"@ })
        &&& sweep[m + 3 * k + 1] == (RequestView::ClearPane { pane, source, token: "git_dirty"@ })
        &&& sweep[m + 3 * k + 2] == (RequestView::ClearPane {
            pane,
            source,
            token: "git_conflict"@,
        })
    } by {
        lemma_pane_sweep_at(b, source, k);
        assert(sweep[m + 3 * k] == y[3 * k]);
        assert(sweep[m + 3 * k + 1] == y[3 * k + 1]);
        assert(sweep[m + 3 * k + 2] == y[3 * k + 2]);
    }
    assert forall|k: int| 0 <= k < c.len() implies {
        let workspace = #[trigger] c[k];
        &&& sweep[n + 3 * k] == (RequestView::ClearWorkspace {
            workspace,
            source,
            token: "git_clean"@,
        })
        &&& sweep[n + 3 * k + 1] == (RequestView::ClearWorkspace {
            workspace,
            source,
            token: "git_dirty"@,
        })
        &&& sweep[n + 3 * k + 2] == (RequestView::ClearWorkspace {
            workspace,
            source,
            token: "git_conflict"@,
        })
    } by {
        lemma_workspace_sweep_at(c, source, k);
        assert(sweep[n + 3 * k] == z[3 * k]);
        assert(sweep[n + 3 * k + 1] == z[3 * k + 1]);
        assert(sweep[n + 3 * k + 2] == z[3 * k + 2]);
    }
}

/// What disabling has to sweep, on the panes of the spaces: every pane, whatever it
/// hosts, every pseudo pane also as an agent, and every workspace; and nothing that
/// is not there.
pub proof fn law_leftovers_are_every_pane(
    t: crate::surfaced::SurfacedView,
    spaces: Seq<Space>,
    i: int,
    id: Seq<char>,
)
    requires
        covers(t, spaces),
        0 <= i < spaces.len(),
    ensures
        spaces[i]@.pseudo_panes.contains(id) ==> t.pseudo.contains(id) && t.metadata.contains_key(
            id,
        ),
        spaces[i]@.agent_panes.contains(id) ==> t.metadata.contains_key(id),
        spaces[i]@.spare_panes.contains(id) ==> t.metadata.contains_key(id),
        t.workspaces.contains_key(spaces[i]@.id),
        (forall|k: int|
            0 <= k < spaces.len() ==> !(#[trigger] spaces[k])@.pseudo_panes.contains(id))
            ==> !t.pseudo.contains(id),
        (forall|k: int|
            0 <= k < spaces.len() ==> !(#[trigger] spaces[k])@.pseudo_panes.contains(id)
                && !spaces[k]@.agent_panes.contains(id) && !spaces[k]@.spare_panes.contains(id))
            ==> !t.metadata.contains_key(id),
        (forall|k: int| 0 <= k < spaces.len() ==> (#[trigger] spaces[k])@.id != id)
            ==> !t.workspaces.contains_key(id),
{
    assert(hosts(spaces[i], id) || !hosts(spaces[i], id));
    if t.metadata.contains_key(id) {
        let k = choose|k: int| 0 <= k < spaces.len() && hosts(#[trigger] spaces[k], id);
        assert(spaces[k]@.pseudo_panes.contains(id) || spaces[k]@.agent_panes.contains(id)
            || spaces[k]@.spare_panes.contains(id));
    }
}

/// The pid that a file names: a positive number that fits, white space aside. Zero, a
/// negative number or one that is too large names no process.
pub proof fn law_recorded_pid(a: Seq<char>, n: nat, b: Seq<char>)
    requires
        forall|i: int| 0 <= i < a.len() ==> text::white(#[trigger] a[i]),
        forall|i: int| 0 <= i < b.len() ==> text::white(#[trigger] b[i]),
    ensures
        0 < n <= i32::MAX ==> pid_in(a + text::decimal(n) + b) == Some(n as i32),
        n == 0 || n > i32::MAX ==> pid_in(a + text::decimal(n) + b) is None,
        pid_in(a + (seq!['-'] + text::decimal(n)) + b) is None,
        forall|t: Seq<char>|
            (#[trigger] pid_in(t)) is Some ==> pid_in(t)->0 > 0 && text::read_i32(text::trimmed(t))
                == pid_in(t),
        forall|t: Seq<char>|
            text::read_i32(text::trimmed(t)) is None ==> (#[trigger] pid_in(t)) is None,
        pid_line(n) == text::decimal(n) + seq!['\n'],
{
    let d = text::decimal(n);
    text::lemma_decimal_value(n);
    text::law_numbers_read_back(n);
    assert(text::digit(d[0]) && text::digit(d[d.len() - 1]));
    text::law_trim(a, d, b);
    let minus = seq!['-'] + d;
    assert(minus[0] == '-' && minus.last() == d.last());
    text::law_trim(a, minus, b);
    assert(pid_line(n) =~= d + seq!['\n']);
}

/// The loop, event by event: a snapshot in time resets the count and is pushed; one
/// that comes after the stop is dropped; a failure adds one, and the fifth and any
/// after it shut down; a wait leads to the next snapshot unless a stop is under way.
pub proof fn law_loop_event_by_event(failures: u32)
    ensures
        failures_after(failures, LoopEvent::Sampled { stopping: false }) == 0,
        failures_after(failures, LoopEvent::Sampled { stopping: true }) == failures,
        failures_after(failures, LoopEvent::Waited { stopping: false }) == failures,
        failures_after(failures, LoopEvent::Waited { stopping: true }) == failures,
        failures < u32::MAX ==> failures_after(failures, LoopEvent::Failed) == failures + 1,
        step_after(failures, LoopEvent::Sampled { stopping: false }) == LoopStep::Push,
        step_after(failures, LoopEvent::Sampled { stopping: true }) == LoopStep::Park,
        step_after(failures, LoopEvent::Waited { stopping: false }) == LoopStep::Sample,
        step_after(failures, LoopEvent::Waited { stopping: true }) == LoopStep::Park,
        failures >= 5 ==> step_after(failures, LoopEvent::Failed) == LoopStep::Shutdown,
        failures < 5 ==> step_after(failures, LoopEvent::Failed) == LoopStep::Retry,
{
}

/// The waits of the loop: the whole refresh interval after a push, whatever it is; a
/// second after a failure.
pub proof fn law_pauses(config: Config)
    ensures
        pause_of(LoopStep::Push, config) == config.interval_seconds,
        pause_of(LoopStep::Retry, config) == 1,
        pause_of(LoopStep::Shutdown, config) == 1,
        pause_of(LoopStep::Sample, config) == 0,
        pause_of(LoopStep::Park, config) == 3600,
{
}

/// The views of requests are theirs, one by one.
pub proof fn law_request_views(requests: Seq<Request>)
    ensures
        asks(requests).len() == requests.len(),
        forall|i: int| 0 <= i < requests.len() ==> #[trigger] asks(requests)[i] == requests[i]@,
{
}

} // verus!
