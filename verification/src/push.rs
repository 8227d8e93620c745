//! Pushing the statuses of one refresh to the host.
//!
//! Most requests are best-effort: their answers are ignored. Two kinds decide
//! what comes next. A pane whose claim is refused (it just closed) gets no status
//! this cycle, and a status that is refused is not recorded as set. What a whole
//! run asks, and what is on record after it, is [`pushed`] as a function of the
//! answers.

use crate::collect::PSEUDO_AGENT;
use crate::config::{Config, Mode};
use crate::daemon::{
    clear_stale_pane_token, clear_stale_workspace_token, release_pseudo, space_status,
    status_token_name, ttl_ms, Request,
};
use crate::git;
use crate::model::Space;
use crate::surfaced::Surfaced;
use crate::text;
use vstd::prelude::*;

verus! {

// ---- what a run asks --------------------------------------------------------

/// The requests of a run, and what is on record after it.
pub ghost struct Outcome {
    pub requests: Seq<crate::daemon::RequestView>,
    pub surfaced: crate::surfaced::SurfacedView,
}

/// The answers from the `n`th on.
pub open spec fn later(ok: spec_fn(nat) -> bool, n: nat) -> spec_fn(nat) -> bool {
    |k: nat| ok(k + n)
}

/// The record without the pseudo-agents on these panes.
pub open spec fn released(
    t: crate::surfaced::SurfacedView,
    panes: Seq<Seq<char>>,
) -> crate::surfaced::SurfacedView {
    crate::surfaced::SurfacedView { pseudo: t.pseudo.difference(panes.to_set()), ..t }
}

/// The panes with stale claims from earlier runs: all but the first.
pub open spec fn extra_claims(sp: Space) -> Seq<Seq<char>> {
    if sp@.pseudo_panes.len() > 1 {
        sp@.pseudo_panes.skip(1)
    } else {
        Seq::empty()
    }
}

/// The pane that hosts the pseudo-agent of a space: the first that already does,
/// else the first spare one.
pub open spec fn host_pane(sp: Space) -> Option<Seq<char>> {
    if sp@.pseudo_panes.len() > 0 {
        Some(sp@.pseudo_panes[0])
    } else if sp@.spare_panes.len() > 0 {
        Some(sp@.spare_panes[0])
    } else {
        None
    }
}

/// The status that is pushed for a space.
pub open spec fn space_text(sp: Space, config: Config) -> Seq<char> {
    crate::daemon::pushed_text(sp.git, config)
}

/// The token that carries the status of a space.
pub open spec fn space_token(sp: Space) -> Seq<char> {
    crate::daemon::token_of(git::severity_of(sp.git))
}

/// The clearing of a pane's stale token, if it has one.
pub open spec fn stale_pane(
    t: crate::surfaced::SurfacedView,
    pane: Seq<char>,
    source: Seq<char>,
    token: Seq<char>,
) -> Seq<crate::daemon::RequestView> {
    match crate::daemon::stale_token(t.metadata, pane, token) {
        Some(prev) => seq![crate::daemon::clear_pane(pane, source, prev)],
        None => Seq::empty(),
    }
}

/// The clearing of a workspace's stale token, if it has one.
pub open spec fn stale_workspace(
    t: crate::surfaced::SurfacedView,
    workspace: Seq<char>,
    source: Seq<char>,
    token: Seq<char>,
) -> Seq<crate::daemon::RequestView> {
    match crate::daemon::stale_token(t.workspaces, workspace, token) {
        Some(prev) => seq![crate::daemon::clear_workspace(workspace, source, prev)],
        None => Seq::empty(),
    }
}

/// The record after a pane's status was reported with this answer.
pub open spec fn pane_set(
    t: crate::surfaced::SurfacedView,
    pane: Seq<char>,
    token: Seq<char>,
    accepted: bool,
) -> crate::surfaced::SurfacedView {
    if accepted {
        crate::surfaced::SurfacedView { metadata: t.metadata.insert(pane, token), ..t }
    } else {
        t
    }
}

/// The record after a workspace's status was reported with this answer.
pub open spec fn workspace_set(
    t: crate::surfaced::SurfacedView,
    workspace: Seq<char>,
    token: Seq<char>,
    accepted: bool,
) -> crate::surfaced::SurfacedView {
    if accepted {
        crate::surfaced::SurfacedView { workspaces: t.workspaces.insert(workspace, token), ..t }
    } else {
        t
    }
}

/// What follows the claim of a pane, where `ok(0)` answers the claim: nothing if
/// it was refused, else the stale token is cleared and the status reported.
pub open spec fn claimed(
    pane: Seq<char>,
    source: Seq<char>,
    token: Seq<char>,
    status: Seq<char>,
    ttl: u64,
    t: crate::surfaced::SurfacedView,
    ok: spec_fn(nat) -> bool,
) -> Outcome {
    if !ok(0) {
        Outcome { requests: Seq::empty(), surfaced: t }
    } else {
        let stale = stale_pane(t, pane, source, token);
        let report = crate::daemon::RequestView::ReportPane {
            pane,
            source,
            token,
            status,
            ttl_ms: ttl,
        };
        Outcome {
            requests: stale.push(report),
            surfaced: pane_set(
                crate::surfaced::SurfacedView { pseudo: t.pseudo.insert(pane), ..t },
                pane,
                token,
                ok(stale.len() + 1),
            ),
        }
    }
}

/// One space in agents-panel mode; `ok(k)` answers its `k`th request.
///
/// Stale claims are dropped so a space keeps one entry. A space with an empty
/// status gives up its entry and its token; any other claims its host pane and
/// reports there. A space without a host pane surfaces nothing.
pub open spec fn push_panel(
    sp: Space,
    config: Config,
    source: Seq<char>,
    t: crate::surfaced::SurfacedView,
    ok: spec_fn(nat) -> bool,
) -> Outcome {
    let drops = crate::daemon::releases(extra_claims(sp), source);
    let t1 = released(t, extra_claims(sp));
    match host_pane(sp) {
        None => Outcome { requests: drops, surfaced: t1 },
        Some(pane) => if space_text(sp, config).len() == 0 {
            Outcome {
                requests: drops.push(crate::daemon::release(pane, source)) + if t1.metadata.contains_key(
                    pane,
                ) {
                    seq![crate::daemon::clear_pane(pane, source, t1.metadata[pane])]
                } else {
                    Seq::empty()
                },
                surfaced: crate::surfaced::SurfacedView {
                    pseudo: t1.pseudo.remove(pane),
                    metadata: t1.metadata.remove(pane),
                    workspaces: t1.workspaces,
                },
            }
        } else {
            let claim = crate::daemon::RequestView::ReportAgent {
                pane,
                source,
                agent: PSEUDO_AGENT@,
                state: "idle"@,
            };
            let rest = claimed(
                pane,
                source,
                space_token(sp),
                space_text(sp, config),
                crate::daemon::ttl_of(config),
                t1,
                later(ok, drops.len()),
            );
            Outcome { requests: drops.push(claim) + rest.requests, surfaced: rest.surfaced }
        },
    }
}

/// One space in sidebar mode; `ok(k)` answers its `k`th request.
///
/// Pseudo-agents left over from agents-panel mode are released. A space with an
/// empty status has the workspace token that was set cleared; any other has a
/// stale one cleared and its status reported on the workspace.
pub open spec fn push_sidebar(
    sp: Space,
    config: Config,
    source: Seq<char>,
    t: crate::surfaced::SurfacedView,
    ok: spec_fn(nat) -> bool,
) -> Outcome {
    let drops = crate::daemon::releases(sp@.pseudo_panes, source);
    let t1 = released(t, sp@.pseudo_panes);
    let id = sp@.id;
    if space_text(sp, config).len() == 0 {
        Outcome {
            requests: drops + if t1.workspaces.contains_key(id) {
                seq![crate::daemon::clear_workspace(id, source, t1.workspaces[id])]
            } else {
                Seq::empty()
            },
            surfaced: crate::surfaced::SurfacedView { workspaces: t1.workspaces.remove(id), ..t1 },
        }
    } else {
        let stale = stale_workspace(t1, id, source, space_token(sp));
        let report = crate::daemon::RequestView::ReportWorkspace {
            workspace: id,
            source,
            token: space_token(sp),
            status: space_text(sp, config),
            ttl_ms: crate::daemon::ttl_of(config),
        };
        Outcome {
            requests: (drops + stale).push(report),
            surfaced: workspace_set(t1, id, space_token(sp), ok(drops.len() + stale.len())),
        }
    }
}

/// One space; `ok(k)` answers its `k`th request.
pub open spec fn push_space(
    sp: Space,
    config: Config,
    source: Seq<char>,
    t: crate::surfaced::SurfacedView,
    ok: spec_fn(nat) -> bool,
) -> Outcome {
    match config.mode {
        Mode::AgentsPanel => push_panel(sp, config, source, t, ok),
        Mode::Sidebar => push_sidebar(sp, config, source, t, ok),
    }
}

/// All the spaces, in order; `ok(k)` answers the `k`th request of the run.
pub open spec fn pushed(
    spaces: Seq<Space>,
    config: Config,
    source: Seq<char>,
    t: crate::surfaced::SurfacedView,
    ok: spec_fn(nat) -> bool,
) -> Outcome
    decreases spaces.len(),
{
    if spaces.len() == 0 {
        Outcome { requests: Seq::empty(), surfaced: t }
    } else {
        let first = push_space(spaces[0], config, source, t, ok);
        let rest = pushed(
            spaces.skip(1),
            config,
            source,
            first.surfaced,
            later(ok, first.requests.len()),
        );
        Outcome { requests: first.requests + rest.requests, surfaced: rest.surfaced }
    }
}

// ---- the run ----------------------------------------------------------------

/// The request whose answer decides how a run goes on.
enum Pending {
    /// None: the answer is ignored.
    Ignored,
    /// The claim of a pane, on which this token and status are to be set.
    Claim { pane: String, token: &'static str, status: String },
    /// The status of a pane.
    Pane { pane: String, token: &'static str },
    /// The status of a workspace.
    Workspace { workspace: String, token: &'static str },
}

/// A run of [`push_statuses`] under way.
pub struct PushRun {
    spaces: Vec<Space>,
    config: Config,
    source: String,
    /// The first space that was not begun.
    space: usize,
    /// Requests to hand out, in order.
    queue: Vec<Request>,
    /// The request that decides, once the queue is empty the last one handed out.
    pending: Pending,
}

/// What follows a pending request, where `ok(0)` answers it.
spec fn after(
    pending: Pending,
    source: Seq<char>,
    ttl: u64,
    t: crate::surfaced::SurfacedView,
    ok: spec_fn(nat) -> bool,
) -> Outcome {
    match pending {
        Pending::Ignored => Outcome { requests: Seq::empty(), surfaced: t },
        Pending::Claim { pane, token, status } => claimed(
            pane@,
            source,
            token@,
            status@,
            ttl,
            t,
            ok,
        ),
        Pending::Pane { pane, token } => Outcome {
            requests: Seq::empty(),
            surfaced: pane_set(t, pane@, token@, ok(0)),
        },
        Pending::Workspace { workspace, token } => Outcome {
            requests: Seq::empty(),
            surfaced: workspace_set(t, workspace@, token@, ok(0)),
        },
    }
}

/// Names a stream of answers to reason about.
spec fn stream(ok: spec_fn(nat) -> bool) -> bool {
    true
}

/// How many more answers a pending request can make decisive.
spec fn rank(pending: Pending) -> nat {
    match pending {
        Pending::Ignored => 0,
        Pending::Pane { .. } => 1,
        Pending::Workspace { .. } => 1,
        Pending::Claim { .. } => 2,
    }
}

impl PushRun {
    /// A run that came from [`push_statuses`].
    pub closed spec fn wf(&self) -> bool {
        self.space <= self.spaces@.len()
    }

    /// The rest of the run from the record `t`, where `ok(0)` answers the request
    /// handed out last and `ok(k)` the `k`th one from here on.
    pub closed spec fn rest(
        &self,
        t: crate::surfaced::SurfacedView,
        ok: spec_fn(nat) -> bool,
    ) -> Outcome {
        let queue = crate::daemon::asks(self.queue@);
        let n = queue.len();
        let ttl = crate::daemon::ttl_of(self.config);
        let a = after(self.pending, self.source@, ttl, t, later(ok, n));
        let r = pushed(
            self.spaces@.skip(self.space as int),
            self.config,
            self.source@,
            a.surfaced,
            later(ok, n + a.requests.len() + 1),
        );
        Outcome { requests: queue + a.requests + r.requests, surfaced: r.surfaced }
    }
}

/// The whole run is ahead: the rest of it is the pushing of these spaces, where the
/// first answer is ignored.
pub open spec fn started(
    run: PushRun,
    spaces: Seq<Space>,
    config: Config,
    source: Seq<char>,
) -> bool {
    forall|t: crate::surfaced::SurfacedView, ok: spec_fn(nat) -> bool|
        #[trigger] run.rest(t, ok) == pushed(spaces, config, source, t, later(ok, 1))
}

/// One step of a run: with this answer to the request before, the rest of the run
/// is `request` and then the rest from here; or it is over.
pub open spec fn stepped(
    before: PushRun,
    t: crate::surfaced::SurfacedView,
    reply: bool,
    request: Option<crate::daemon::RequestView>,
    after: PushRun,
    t_after: crate::surfaced::SurfacedView,
) -> bool {
    forall|ok: spec_fn(nat) -> bool|
        ok(0) == reply ==> #[trigger] before.rest(t, ok) == match request {
            Some(r) => {
                let rest = after.rest(t_after, later(ok, 1));
                Outcome { requests: seq![r] + rest.requests, surfaced: rest.surfaced }
            },
            None => Outcome { requests: Seq::empty(), surfaced: t_after },
        }
}

proof fn lemma_later(ok: spec_fn(nat) -> bool, a: nat, b: nat)
    ensures
        later(later(ok, a), b) == later(ok, a + b),
{
    assert(later(later(ok, a), b) =~= later(ok, a + b)) by {
        assert forall|k: nat| #[trigger] later(later(ok, a), b)(k) == later(ok, a + b)(k) by {
            assert(k + b + a == k + (a + b));
        }
    }
}

/// Push each space's git status, mode-dependent, recording what was touched: onto
/// a pane in agents-panel mode, onto the workspace in sidebar mode.
///
/// A space with an empty status — non-repo, clean-but-diverged, or any clean
/// tree when `clean_checkmark = false` — has its row withdrawn: in sidebar mode
/// any status we previously set is cleared; in agents-panel mode the
/// pseudo-agent is released. Everything else reports its status — the dirty
/// token, or `✓` for a fully clean repo.
///
/// The two modes are strictly separate about WHERE they write: agents-panel mode
/// only ever claims a spare pane as a "git" pseudo-agent and never writes
/// spaces-card metadata (a space with no spare pane simply shows nothing, so it
/// can't collide with a status-row plugin); sidebar mode writes TTL'd metadata on
/// the workspace.
///
/// The run is driven by [`PushRun::next`].
pub fn push_statuses(spaces: Vec<Space>, config: &Config, source: &str) -> (run: PushRun)
    ensures
        run.wf(),
        started(run, spaces@, *config, source@),
{
    let run = PushRun {
        spaces,
        config: *config,
        source: String::from_str(source),
        space: 0,
        queue: Vec::new(),
        pending: Pending::Ignored,
    };
    assert forall|t: crate::surfaced::SurfacedView, ok: spec_fn(nat) -> bool| #[trigger]
        run.rest(t, ok) == pushed(spaces@, *config, source@, t, later(ok, 1)) by {
        assert(run.spaces@.skip(0) =~= spaces@);
        let queue = crate::daemon::asks(run.queue@);
        assert(queue =~= Seq::<crate::daemon::RequestView>::empty());
        let r = pushed(spaces@, *config, source@, t, later(ok, 1));
        assert(queue + Seq::<crate::daemon::RequestView>::empty() + r.requests =~= r.requests);
    }
    run
}

/// Releases our pseudo-agent on the panes from `from` on.
fn release_all(
    panes: &Vec<String>,
    from: usize,
    source: &str,
    surfaced: &mut Surfaced,
) -> (queue: Vec<Request>)
    requires
        from <= panes@.len(),
    ensures
        crate::daemon::asks(queue@) == crate::daemon::releases(text::views(panes@).skip(from as int), source@),
        final(surfaced)@ == released(old(surfaced)@, text::views(panes@).skip(from as int)),
{
    let ghost all = text::views(panes@).skip(from as int);
    let ghost t = surfaced@;
    let mut queue: Vec<Request> = Vec::new();
    let mut i: usize = from;
    assert(crate::daemon::asks(queue@) =~= crate::daemon::releases(all.take(0), source@));
    assert(t.pseudo.difference(all.take(0).to_set()) =~= t.pseudo);
    while i < panes.len()
        invariant
            all == text::views(panes@).skip(from as int),
            t == old(surfaced)@,
            from <= i <= panes@.len(),
            crate::daemon::asks(queue@) == crate::daemon::releases(all.take(i - from), source@),
            surfaced@ == released(t, all.take(i - from)),
        decreases panes@.len() - i,
    {
        let ghost prev = queue@;
        let ghost now = all.take(i - from);
        let ghost next = all.take(i + 1 - from);
        assert(all[i - from] == panes@[i as int]@);
        queue.push(release_pseudo(panes[i].as_str(), source, surfaced));
        proof {
            assert(next =~= now.push(panes@[i as int]@));
            assert(crate::daemon::asks(queue@) =~= crate::daemon::asks(prev).push(
                crate::daemon::release(panes@[i as int]@, source@),
            ));
            assert(crate::daemon::asks(queue@) =~= crate::daemon::releases(next, source@));
            assert forall|x: Seq<char>| next.contains(x) <==> now.contains(x) || x
                == panes@[i as int]@ by {
                if now.contains(x) {
                    let k = now.index_of(x);
                    assert(next[k] == x);
                }
                if x == panes@[i as int]@ {
                    assert(next[now.len() as int] == x);
                }
            }
            assert(t.pseudo.difference(next.to_set()) =~= t.pseudo.difference(now.to_set()).remove(
                panes@[i as int]@,
            ));
        }
        i += 1;
    }
    assert(all.take(i - from) =~= all);
    queue
}

/// The first requests of a space in agents-panel mode, and the one that decides.
#[verifier::spinoff_prover]
fn open_panel(sp: &Space, config: &Config, source: &str, surfaced: &mut Surfaced) -> (r: (
    Vec<Request>,
    Pending,
))
    ensures
        forall|ok: spec_fn(nat) -> bool|
            #![trigger stream(ok)]
            push_panel(*sp, *config, source@, old(surfaced)@, later(ok, 1)) == ({
                let queue = crate::daemon::asks(r.0@);
                let a = after(
                    r.1,
                    source@,
                    crate::daemon::ttl_of(*config),
                    final(surfaced)@,
                    later(ok, queue.len()),
                );
                Outcome { requests: queue + a.requests, surfaced: a.surfaced }
            }),
{
    let status = space_status(sp, config);
    let ghost claims = sp@.pseudo_panes;
    // Drop stale claims from earlier runs so a space keeps one entry.
    let mut queue: Vec<Request> = if sp.pseudo_panes.len() > 1 {
        release_all(&sp.pseudo_panes, 1, source, surfaced)
    } else {
        Vec::new()
    };
    let ghost t1 = surfaced@;
    let ghost drops = crate::daemon::releases(extra_claims(*sp), source@);
    let ghost none = Seq::<crate::daemon::RequestView>::empty();
    proof {
        assert(crate::daemon::asks(queue@) =~= drops);
        if claims.len() <= 1 {
            assert(t1.pseudo.difference(Seq::<Seq<char>>::empty().to_set()) =~= t1.pseudo);
        }
        assert(t1 == released(old(surfaced)@, extra_claims(*sp)));
    }
    let pane: &String = if sp.pseudo_panes.len() > 0 {
        assert(claims[0] == sp.pseudo_panes@[0]@);
        &sp.pseudo_panes[0]
    } else if sp.spare_panes.len() > 0 {
        assert(sp@.spare_panes[0] == sp.spare_panes@[0]@);
        &sp.spare_panes[0]
    } else {
        assert(crate::daemon::asks(queue@) + none =~= drops);
        return (queue, Pending::Ignored);
    };
    assert(host_pane(*sp) == Some(pane@));
    if status.as_str().is_empty() {
        // clean → no entry
        queue.push(release_pseudo(pane.as_str(), source, surfaced));
        assert(crate::daemon::asks(queue@) =~= drops.push(crate::daemon::release(pane@, source@)));
        if let Some(prev) = surfaced.metadata.remove(pane.as_str()) {
            queue.push(
                Request::ClearPane {
                    pane: pane.clone(),
                    source: String::from_str(source),
                    token: String::from_str(prev),
                },
            );
        } else {
            assert(t1.metadata.remove(pane@) =~= t1.metadata);
        }
        proof {
            let tail = if t1.metadata.contains_key(pane@) {
                seq![crate::daemon::clear_pane(pane@, source@, t1.metadata[pane@])]
            } else {
                none
            };
            assert(crate::daemon::asks(queue@) =~= drops.push(
                crate::daemon::release(pane@, source@),
            ) + tail);
            assert(crate::daemon::asks(queue@) + none =~= crate::daemon::asks(queue@));
        }
        return (queue, Pending::Ignored);
    }
    queue.push(
        Request::ReportAgent {
            pane: pane.clone(),
            source: String::from_str(source),
            agent: String::from_str(PSEUDO_AGENT),
            state: String::from_str("idle"),
        },
    );
    let token = status_token_name(&sp.git);
    proof {
        let claim = crate::daemon::RequestView::ReportAgent {
            pane: pane@,
            source: source@,
            agent: PSEUDO_AGENT@,
            state: "idle"@,
        };
        assert(crate::daemon::asks(queue@) =~= drops.push(claim));
        assert forall|ok: spec_fn(nat) -> bool| #![trigger stream(ok)]
            later(later(ok, 1), drops.len()) == later(ok, crate::daemon::asks(queue@).len()) by {
            lemma_later(ok, 1, drops.len());
        }
    }
    (queue, Pending::Claim { pane: pane.clone(), token, status })
}

/// The first requests of a space in sidebar mode, and the one that decides.
#[verifier::spinoff_prover]
fn open_sidebar(sp: &Space, config: &Config, source: &str, surfaced: &mut Surfaced) -> (r: (
    Vec<Request>,
    Pending,
))
    ensures
        forall|ok: spec_fn(nat) -> bool|
            #![trigger stream(ok)]
            push_sidebar(*sp, *config, source@, old(surfaced)@, later(ok, 1)) == ({
                let queue = crate::daemon::asks(r.0@);
                let a = after(
                    r.1,
                    source@,
                    crate::daemon::ttl_of(*config),
                    final(surfaced)@,
                    later(ok, queue.len()),
                );
                Outcome { requests: queue + a.requests, surfaced: a.surfaced }
            }),
{
    let status = space_status(sp, config);
    // Release pseudo-agents left over from agents-panel mode.
    let mut queue: Vec<Request> = release_all(&sp.pseudo_panes, 0, source, surfaced);
    let ghost t1 = surfaced@;
    let ghost drops = crate::daemon::releases(sp@.pseudo_panes, source@);
    let ghost none = Seq::<crate::daemon::RequestView>::empty();
    assert(sp@.pseudo_panes.skip(0) =~= sp@.pseudo_panes);
    assert(crate::daemon::asks(queue@) == drops);
    // The spaces card renders workspace tokens, not pane tokens — so report at
    // the workspace level.
    if status.as_str().is_empty() {
        // clean → clear a token we previously set (skip if we never set one, so
        // always-clean spaces cost no extra calls).
        if let Some(prev) = surfaced.workspaces.remove(sp.id.as_str()) {
            queue.push(
                Request::ClearWorkspace {
                    workspace: sp.id.clone(),
                    source: String::from_str(source),
                    token: String::from_str(prev),
                },
            );
        } else {
            assert(t1.workspaces.remove(sp.id@) =~= t1.workspaces);
        }
        proof {
            let tail = if t1.workspaces.contains_key(sp.id@) {
                seq![crate::daemon::clear_workspace(sp.id@, source@, t1.workspaces[sp.id@])]
            } else {
                none
            };
            assert(crate::daemon::asks(queue@) =~= drops + tail);
            assert(crate::daemon::asks(queue@) + none =~= crate::daemon::asks(queue@));
        }
        return (queue, Pending::Ignored);
    }
    let token = status_token_name(&sp.git);
    if let Some(clear) = clear_stale_workspace_token(sp.id.as_str(), source, token, surfaced) {
        queue.push(clear);
    }
    let ghost stale = stale_workspace(t1, sp.id@, source@, token@);
    assert(crate::daemon::asks(queue@) =~= drops + stale);
    let ghost q1 = crate::daemon::asks(queue@);
    let ttl: u64 = ttl_ms(config);
    queue.push(
        Request::ReportWorkspace {
            workspace: sp.id.clone(),
            source: String::from_str(source),
            token: String::from_str(token),
            status,
            ttl_ms: ttl,
        },
    );
    proof {
        let report = crate::daemon::RequestView::ReportWorkspace {
            workspace: sp.id@,
            source: source@,
            token: token@,
            status: status@,
            ttl_ms: ttl,
        };
        assert(crate::daemon::asks(queue@) =~= q1.push(report));
        assert(crate::daemon::asks(queue@) + none =~= crate::daemon::asks(queue@));
    }
    (queue, Pending::Workspace { workspace: sp.id.clone(), token })
}

/// What follows an accepted claim: a stale token cleared, the status reported.
fn after_claim(
    pane: &str,
    source: &str,
    token: &'static str,
    status: String,
    ttl: u64,
    surfaced: &mut Surfaced,
) -> (queue: Vec<Request>)
    ensures
        crate::daemon::asks(queue@) == stale_pane(old(surfaced)@, pane@, source@, token@).push(
            crate::daemon::RequestView::ReportPane {
                pane: pane@,
                source: source@,
                token: token@,
                status: status@,
                ttl_ms: ttl,
            },
        ),
        final(surfaced)@ == (crate::surfaced::SurfacedView {
            pseudo: old(surfaced)@.pseudo.insert(pane@),
            ..old(surfaced)@
        }),
{
    surfaced.pseudo.insert(pane);
    let mut queue: Vec<Request> = Vec::new();
    let ghost stale = stale_pane(old(surfaced)@, pane@, source@, token@);
    if let Some(clear) = clear_stale_pane_token(pane, source, token, surfaced) {
        queue.push(clear);
    }
    assert(crate::daemon::asks(queue@) =~= stale);
    queue.push(
        Request::ReportPane {
            pane: String::from_str(pane),
            source: String::from_str(source),
            token: String::from_str(token),
            status,
            ttl_ms: ttl,
        },
    );
    assert(crate::daemon::asks(queue@) =~= stale.push(
        crate::daemon::RequestView::ReportPane {
            pane: pane@,
            source: source@,
            token: token@,
            status: status@,
            ttl_ms: ttl,
        },
    ));
    queue
}

impl PushRun {
    /// Begins the next space; the queue is empty and no answer decides.
    #[verifier::spinoff_prover]
    fn open_space(&mut self, surfaced: &mut Surfaced)
        requires
            old(self).wf(),
            old(self).space < old(self).spaces.len(),
            old(self).queue@.len() == 0,
            old(self).pending is Ignored,
        ensures
            final(self).wf(),
            final(self).space == old(self).space + 1,
            final(self).spaces == old(self).spaces,
            forall|ok: spec_fn(nat) -> bool| #[trigger]
                old(self).rest(old(surfaced)@, ok) == final(self).rest(final(surfaced)@, ok),
    {
        let ghost before = *self;
        let i: usize = self.space;
        let (queue, pending) = match self.config.mode {
            Mode::AgentsPanel => open_panel(
                &self.spaces[i],
                &self.config,
                self.source.as_str(),
                surfaced,
            ),
            Mode::Sidebar => open_sidebar(
                &self.spaces[i],
                &self.config,
                self.source.as_str(),
                surfaced,
            ),
        };
        self.queue = queue;
        self.pending = pending;
        self.space = i + 1;
        proof {
            let (t0, t1) = (old(surfaced)@, surfaced@);
            let ttl = crate::daemon::ttl_of(before.config);
            let none = Seq::<crate::daemon::RequestView>::empty();
            assert(crate::daemon::asks(before.queue@) =~= none);
            let todo = before.spaces@.skip(i as int);
            assert(todo[0] == before.spaces@[i as int]);
            assert(todo.skip(1) =~= before.spaces@.skip(i + 1));
            assert forall|ok: spec_fn(nat) -> bool| #[trigger]
                before.rest(t0, ok) == self.rest(t1, ok) by {
                assert(stream(ok));
                let q = crate::daemon::asks(self.queue@);
                let a = after(self.pending, self.source@, ttl, t1, later(ok, q.len()));
                let first = push_space(
                    todo[0],
                    before.config,
                    before.source@,
                    t0,
                    later(ok, 1),
                );
                assert(first.requests =~= q + a.requests);
                assert(first.surfaced == a.surfaced);
                lemma_later(ok, 1, first.requests.len());
                let r = pushed(
                    todo.skip(1),
                    before.config,
                    before.source@,
                    a.surfaced,
                    later(ok, q.len() + a.requests.len() + 1),
                );
                assert(none + none + (first.requests + r.requests) =~= q + a.requests + r.requests);
            }
        }
    }

    /// Takes the answer to the request that decides; the queue is empty.
    #[verifier::spinoff_prover]
    fn settle(&mut self, surfaced: &mut Surfaced, reply: bool)
        requires
            old(self).wf(),
            old(self).queue@.len() == 0,
            !(old(self).pending is Ignored),
        ensures
            final(self).wf(),
            final(self).space == old(self).space,
            final(self).spaces == old(self).spaces,
            rank(final(self).pending) < rank(old(self).pending),
            forall|ok: spec_fn(nat) -> bool|
                ok(0) == reply ==> #[trigger] old(self).rest(old(surfaced)@, ok) == final(self).rest(final(surfaced)@, ok),
    {
        let ghost before = *self;
        let ghost t0 = surfaced@;
        let ghost none = Seq::<crate::daemon::RequestView>::empty();
        let mut pending = Pending::Ignored;
        std::mem::swap(&mut pending, &mut self.pending);
        match pending {
            Pending::Ignored => {},
            Pending::Claim { pane, token, status } => {
                if reply {
                    let ttl: u64 = ttl_ms(&self.config);
                    self.queue =
                    after_claim(pane.as_str(), self.source.as_str(), token, status, ttl, surfaced);
                    self.pending = Pending::Pane { pane, token };
                }
            },
            Pending::Pane { pane, token } => {
                if reply {
                    surfaced.metadata.insert(pane.as_str(), token);
                }
            },
            Pending::Workspace { workspace, token } => {
                if reply {
                    surfaced.workspaces.insert(workspace.as_str(), token);
                }
            },
        }
        proof {
            assert(crate::daemon::asks(before.queue@) =~= none);
            assert forall|ok: spec_fn(nat) -> bool| ok(0) == reply implies #[trigger]
                before.rest(t0, ok) == self.rest(surfaced@, ok) by {
                let q = crate::daemon::asks(self.queue@);
                let ttl = crate::daemon::ttl_of(before.config);
                let a0 = after(before.pending, before.source@, ttl, t0, later(ok, 0));
                assert(later(ok, 0)(0) == reply);
                let a1 = after(self.pending, before.source@, ttl, surfaced@, later(ok, q.len()));
                assert(a0.surfaced == a1.surfaced);
                assert(a0.requests =~= q + a1.requests);
                let r = pushed(
                    before.spaces@.skip(before.space as int),
                    before.config,
                    before.source@,
                    a0.surfaced,
                    later(ok, a0.requests.len() + 1),
                );
                assert(none + a0.requests + r.requests =~= q + a1.requests + r.requests);
            }
        }
    }

    /// The next request, given whether the host accepted the one before (anything
    /// at the start), or `None` at the end of the run. `surfaced` is kept up to
    /// date with what the answers so far show to be set.
    #[verifier::spinoff_prover]
    pub fn next(&mut self, surfaced: &mut Surfaced, reply: bool) -> (r: Option<Request>)
        requires
            old(self).wf(),
        ensures
            final(self).wf(),
            stepped(
                *old(self),
                old(surfaced)@,
                reply,
                match r {
                    Some(request) => Some(request@),
                    None => None,
                },
                *final(self),
                final(surfaced)@,
            ),
    {
        let ghost none = Seq::<crate::daemon::RequestView>::empty();
        loop
            invariant
                self.wf(),
                none == Seq::<crate::daemon::RequestView>::empty(),
                forall|ok: spec_fn(nat) -> bool|
                    ok(0) == reply ==> #[trigger] old(self).rest(old(surfaced)@, ok) == self.rest(
                        surfaced@,
                        ok,
                    ),
            decreases self.spaces@.len() - self.space, rank(self.pending),
        {
            if self.queue.len() > 0 {
                let ghost before = *self;
                let request = self.queue.remove(0);
                proof {
                    assert forall|ok: spec_fn(nat) -> bool| ok(0) == reply implies #[trigger] old(self).rest(old(surfaced)@, ok) == ({
                        let rest = self.rest(surfaced@, later(ok, 1));
                        Outcome {
                            requests: seq![request@] + rest.requests,
                            surfaced: rest.surfaced,
                        }
                    }) by {
                        let (q0, q1) = (
                            crate::daemon::asks(before.queue@),
                            crate::daemon::asks(self.queue@),
                        );
                        assert(q0 =~= seq![request@] + q1);
                        lemma_later(ok, 1, q1.len());
                        let ttl = crate::daemon::ttl_of(self.config);
                        let a = after(
                            self.pending,
                            self.source@,
                            ttl,
                            surfaced@,
                            later(ok, q0.len()),
                        );
                        lemma_later(ok, 1, q1.len() + a.requests.len() + 1);
                        let r = pushed(
                            self.spaces@.skip(self.space as int),
                            self.config,
                            self.source@,
                            a.surfaced,
                            later(ok, q0.len() + a.requests.len() + 1),
                        );
                        assert(before.rest(surfaced@, ok) == old(self).rest(old(surfaced)@, ok));
                        assert(q0 + a.requests + r.requests =~= seq![request@] + (q1 + a.requests
                            + r.requests));
                    }
                }
                return Some(request);
            }
            let decided = match &self.pending {
                Pending::Ignored => true,
                _ => false,
            };
            if !decided {
                self.settle(surfaced, reply);
            } else if self.space < self.spaces.len() {
                self.open_space(surfaced);
            } else {
                proof {
                    assert(crate::daemon::asks(self.queue@) =~= none);
                    assert(self.spaces@.skip(self.space as int) =~= Seq::<Space>::empty());
                    assert(none + none + none =~= none);
                    assert forall|ok: spec_fn(nat) -> bool| ok(0) == reply implies #[trigger] old(self).rest(old(surfaced)@, ok) == (Outcome {
                        requests: none,
                        surfaced: surfaced@,
                    }) by {
                        assert(self.rest(surfaced@, ok) == (Outcome {
                            requests: none,
                            surfaced: surfaced@,
                        }));
                    }
                }
                return None;
            }
        }
    }
}

// ---- a whole run ------------------------------------------------------------

/// The first `requests.len()` steps of a run hand out these requests; the next one
/// ends it. `runs` and `records` hold the run and the record before each step and
/// at the end, `replies` the answers (the first one is ignored).
pub open spec fn driven(
    runs: Seq<PushRun>,
    records: Seq<crate::surfaced::SurfacedView>,
    requests: Seq<crate::daemon::RequestView>,
    replies: Seq<bool>,
) -> bool {
    let n = requests.len() as int;
    &&& runs.len() == n + 2
    &&& records.len() == n + 2
    &&& forall|i: int|
        0 <= i < n ==> stepped(
            runs[i],
            records[i],
            replies[i],
            Some(#[trigger] requests[i]),
            runs[i + 1],
            records[i + 1],
        )
    &&& stepped(runs[n], records[n], replies[n], None, runs[n + 1], records[n + 1])
}

proof fn lemma_driven_from(
    runs: Seq<PushRun>,
    records: Seq<crate::surfaced::SurfacedView>,
    requests: Seq<crate::daemon::RequestView>,
    replies: Seq<bool>,
    all: spec_fn(nat) -> bool,
    i: nat,
)
    requires
        driven(runs, records, requests, replies),
        i <= requests.len(),
        forall|k: nat| #[trigger] all(k) == replies[k as int],
    ensures
        runs[i as int].rest(records[i as int], later(all, i)) == (Outcome {
            requests: requests.skip(i as int),
            surfaced: records.last(),
        }),
    decreases requests.len() - i,
{
    let from = later(all, i);
    assert(from(0) == replies[i as int]);
    if i == requests.len() {
        assert(requests.skip(i as int) =~= Seq::<crate::daemon::RequestView>::empty());
    } else {
        lemma_driven_from(runs, records, requests, replies, all, i + 1);
        lemma_later(all, i, 1);
        assert(requests.skip(i as int) =~= seq![requests[i as int]] + requests.skip(i as int + 1));
        assert(stepped(
            runs[i as int],
            records[i as int],
            replies[i as int],
            Some(requests[i as int]),
            runs[i as int + 1],
            records[i as int + 1],
        ));
    }
}

/// A run driven to its end makes exactly the requests that [`pushed`] says for the
/// answers that it got, in order, and leaves exactly that record.
pub proof fn law_run_is_what_pushed_says(
    spaces: Seq<Space>,
    config: Config,
    source: Seq<char>,
    runs: Seq<PushRun>,
    records: Seq<crate::surfaced::SurfacedView>,
    requests: Seq<crate::daemon::RequestView>,
    replies: Seq<bool>,
)
    requires
        driven(runs, records, requests, replies),
        started(runs[0], spaces, config, source),
    ensures
        pushed(spaces, config, source, records[0], |k: nat| replies[k as int + 1]) == (Outcome {
            requests,
            surfaced: records.last(),
        }),
{
    let all = |k: nat| replies[k as int];
    let ok = |k: nat| replies[k as int + 1];
    lemma_driven_from(runs, records, requests, replies, all, 0);
    lemma_later(all, 0, 1);
    assert(ok =~= later(all, 1));
    assert(requests.skip(0) =~= requests);
}

// ---- request by request -----------------------------------------------------

/// A space with something to show gets its entry: in agents-panel mode, where it has a
/// pseudo or a spare pane and the host accepts everything, the first pseudo pane, else
/// the first spare one, is claimed (whatever other panes the space has), and the last
/// request reports the status there.
pub proof fn law_every_space_with_a_pane_gets_its_entry(
    sp: Space,
    config: Config,
    source: Seq<char>,
    t: crate::surfaced::SurfacedView,
    ok: spec_fn(nat) -> bool,
    pane: Seq<char>,
)
    requires
        config.mode == Mode::AgentsPanel,
        crate::daemon::pushed_text(sp.git, config).len() > 0,
        forall|k: nat| #[trigger] ok(k),
        sp.pseudo_panes@.len() > 0 ==> pane == sp.pseudo_panes@[0]@,
        sp.pseudo_panes@.len() == 0 ==> sp.spare_panes@.len() > 0 && pane == sp.spare_panes@[0]@,
    ensures
        ({
            let o = push_space(sp, config, source, t, ok);
            &&& o.requests.contains(
                crate::daemon::RequestView::ReportAgent {
                    pane,
                    source,
                    agent: "git"@,
                    state: "idle"@,
                },
            )
            &&& o.requests.len() > 0
            &&& o.requests.last() == (crate::daemon::RequestView::ReportPane {
                pane,
                source,
                token: if sp.git.conflicts > 0 {
                    "git_conflict"@
                } else if sp.git.is_repo && (sp.git.staged > 0 || sp.git.modified > 0
                    || sp.git.untracked > 0) {
                    "git_dirty"@
                } else {
                    "git_clean"@
                },
                status: if config.clean_checkmark {
                    git::status_text(sp.git)
                } else {
                    git::token_text(sp.git)
                },
                ttl_ms: ((config.interval_seconds * 3000) % 0x1_0000_0000_0000_0000) as u64,
            })
            &&& o.surfaced.pseudo.contains(pane)
            &&& o.surfaced.metadata.contains_key(pane)
        }),
{
    crate::model::law_view_of_a_space(sp);
    law_panel_request_by_request(sp, config, source, t, ok);
    let o = push_space(sp, config, source, t, ok);
    let n = if sp.pseudo_panes@.len() > 1 {
        sp.pseudo_panes@.len() - 1
    } else {
        0
    };
    assert(ok(n as nat) && ok(n as nat + 1) && ok(n as nat + 2));
    assert(o.requests[n] is ReportAgent);
}

/// Everything that agents-panel mode asks for one space, and what it leaves on record,
/// on the panes of the space and for every answer of the host.
#[verifier::spinoff_prover]
pub proof fn law_panel_request_by_request(
    sp: Space,
    config: Config,
    source: Seq<char>,
    t: crate::surfaced::SurfacedView,
    ok: spec_fn(nat) -> bool,
)
    requires
        config.mode == Mode::AgentsPanel,
    ensures
        ({
            let o = push_space(sp, config, source, t, ok);
            let (pseudo, spare) = (sp@.pseudo_panes, sp@.spare_panes);
            let n = if pseudo.len() > 1 {
                pseudo.len() - 1
            } else {
                0
            };
            let token = if sp.git.conflicts > 0 {
                "git_conflict"@
            } else if sp.git.is_repo && (sp.git.staged > 0 || sp.git.modified > 0
                || sp.git.untracked > 0) {
                "git_dirty"@
            } else {
                "git_clean"@
            };
            let status = if config.clean_checkmark {
                git::status_text(sp.git)
            } else {
                git::token_text(sp.git)
            };
            let ttl_ms = ((config.interval_seconds * 3000) % 0x1_0000_0000_0000_0000) as u64;
            &&& o.requests.len() >= n
            // Stale claims go, all but the first.
            &&& forall|k: int|
                0 <= k < n ==> #[trigger] o.requests[k] == (
                crate::daemon::RequestView::ReleaseAgent {
                    pane: pseudo[k + 1],
                    source,
                    agent: "git"@,
                })
            &&& o.surfaced.workspaces == t.workspaces
            // Without a pane of its own nothing is shown.
            &&& pseudo.len() == 0 && spare.len() == 0 ==> o.requests.len() == 0 && o.surfaced == t
            &&& pseudo.len() > 0 || spare.len() > 0 ==> {
                let pane = if pseudo.len() > 0 {
                    pseudo[0]
                } else {
                    spare[0]
                };
                let set = t.metadata.contains_key(pane);
                &&& forall|p: Seq<char>| #[trigger]
                    o.surfaced.pseudo.contains(p) <==> {
                        ||| p == pane && status.len() > 0 && ok(n as nat)
                        ||| t.pseudo.contains(p) && !(pseudo.len() > 1 && pseudo.skip(1).contains(
                            p,
                        )) && !(p == pane && status.len() == 0)
                    }
                // Nothing to show: the entry and the token go.
                &&& status.len() == 0 ==> {
                    &&& o.requests.len() == n + 1 + if set {
                        1int
                    } else {
                        0
                    }
                    &&& o.requests[n] == (crate::daemon::RequestView::ReleaseAgent {
                        pane,
                        source,
                        agent: "git"@,
                    })
                    &&& set ==> o.requests[n + 1] == (crate::daemon::RequestView::ClearPane {
                        pane,
                        source,
                        token: t.metadata[pane],
                    })
                    &&& o.surfaced.metadata == t.metadata.remove(pane)
                }
                // Something to show: claim, clear another token, report.
                &&& status.len() > 0 ==> {
                    let s = if set && t.metadata[pane] != token {
                        1int
                    } else {
                        0
                    };
                    &&& o.requests.len() > n
                    &&& o.requests[n] == (crate::daemon::RequestView::ReportAgent {
                        pane,
                        source,
                        agent: "git"@,
                        state: "idle"@,
                    })
                    &&& !ok(n as nat) ==> o.requests.len() == n + 1 && o.surfaced.metadata
                        == t.metadata
                    &&& ok(n as nat) ==> {
                        &&& o.requests.len() == n + 2 + s
                        &&& s == 1 ==> o.requests[n + 1] == (
                        crate::daemon::RequestView::ClearPane {
                            pane,
                            source,
                            token: t.metadata[pane],
                        })
                        &&& o.requests[n + 1 + s] == (crate::daemon::RequestView::ReportPane {
                            pane,
                            source,
                            token,
                            status,
                            ttl_ms,
                        })
                        &&& o.surfaced.metadata == if ok((n + 1 + s) as nat) {
                            t.metadata.insert(pane, token)
                        } else {
                            t.metadata
                        }
                    }
                }
            }
        }),
{
    let o = push_space(sp, config, source, t, ok);
    let (pseudo, spare) = (sp@.pseudo_panes, sp@.spare_panes);
    let extra = extra_claims(sp);
    let n = extra.len();
    let none = Seq::<Seq<char>>::empty();
    crate::daemon::law_what_is_pushed(sp.git, config);
    if pseudo.len() > 1 {
        assert(forall|k: int| 0 <= k < extra.len() ==> extra[k] == pseudo[k + 1]);
    } else {
        assert(t.pseudo.difference(none.to_set()) =~= t.pseudo);
    }
    if pseudo.len() > 0 || spare.len() > 0 {
        let pane = host_pane(sp)->0;
        let later_ok = later(ok, n);
        assert(later_ok(0) == ok(n));
        let stale = stale_pane(released(t, extra), pane, source, space_token(sp));
        assert(later_ok(stale.len() + 1) == ok(n + 1 + stale.len()));
    }
}

/// Everything that sidebar mode asks for one space, and what it leaves on record, for
/// every answer of the host.
#[verifier::spinoff_prover]
pub proof fn law_sidebar_request_by_request(
    sp: Space,
    config: Config,
    source: Seq<char>,
    t: crate::surfaced::SurfacedView,
    ok: spec_fn(nat) -> bool,
)
    requires
        config.mode == Mode::Sidebar,
    ensures
        ({
            let o = push_space(sp, config, source, t, ok);
            let (pseudo, id) = (sp@.pseudo_panes, sp@.id);
            let n = pseudo.len() as int;
            let token = if sp.git.conflicts > 0 {
                "git_conflict"@
            } else if sp.git.is_repo && (sp.git.staged > 0 || sp.git.modified > 0
                || sp.git.untracked > 0) {
                "git_dirty"@
            } else {
                "git_clean"@
            };
            let status = if config.clean_checkmark {
                git::status_text(sp.git)
            } else {
                git::token_text(sp.git)
            };
            let ttl_ms = ((config.interval_seconds * 3000) % 0x1_0000_0000_0000_0000) as u64;
            let set = t.workspaces.contains_key(id);
            &&& o.requests.len() >= n
            // Every pseudo-agent goes.
            &&& forall|k: int|
                0 <= k < n ==> #[trigger] o.requests[k] == (
                crate::daemon::RequestView::ReleaseAgent {
                    pane: pseudo[k],
                    source,
                    agent: "git"@,
                })
            &&& forall|p: Seq<char>| #[trigger]
                o.surfaced.pseudo.contains(p) <==> t.pseudo.contains(p) && !pseudo.contains(p)
            &&& o.surfaced.metadata == t.metadata
            // Nothing to show: a token that is set goes.
            &&& status.len() == 0 ==> {
                &&& o.requests.len() == n + if set {
                    1int
                } else {
                    0
                }
                &&& set ==> o.requests[n] == (crate::daemon::RequestView::ClearWorkspace {
                    workspace: id,
                    source,
                    token: t.workspaces[id],
                })
                &&& o.surfaced.workspaces == t.workspaces.remove(id)
            }
            // Something to show: clear another token, report.
            &&& status.len() > 0 ==> {
                let s = if set && t.workspaces[id] != token {
                    1int
                } else {
                    0
                };
                &&& o.requests.len() == n + 1 + s
                &&& s == 1 ==> o.requests[n] == (crate::daemon::RequestView::ClearWorkspace {
                    workspace: id,
                    source,
                    token: t.workspaces[id],
                })
                &&& o.requests[n + s] == (crate::daemon::RequestView::ReportWorkspace {
                    workspace: id,
                    source,
                    token,
                    status,
                    ttl_ms,
                })
                &&& o.surfaced.workspaces == if ok((n + s) as nat) {
                    t.workspaces.insert(id, token)
                } else {
                    t.workspaces
                }
            }
        }),
{
    let o = push_space(sp, config, source, t, ok);
    crate::daemon::law_what_is_pushed(sp.git, config);
    let stale = stale_workspace(
        released(t, sp@.pseudo_panes),
        sp@.id,
        source,
        space_token(sp),
    );
    assert(stale.len() <= 1);
}

/// A refresh pushes every space, in order, each from the record that those before it
/// leave, with the answers that follow theirs.
pub proof fn law_refresh_pushes_every_space(
    a: Seq<Space>,
    b: Seq<Space>,
    sp: Space,
    config: Config,
    source: Seq<char>,
    t: crate::surfaced::SurfacedView,
    ok: spec_fn(nat) -> bool,
)
    ensures
        pushed(Seq::empty(), config, source, t, ok).requests.len() == 0,
        pushed(Seq::empty(), config, source, t, ok).surfaced == t,
        pushed(seq![sp], config, source, t, ok) == push_space(sp, config, source, t, ok),
        ({
            let first = pushed(a, config, source, t, ok);
            let n = first.requests.len();
            let second = pushed(b, config, source, first.surfaced, |k: nat| ok(k + n));
            let both = pushed(a + b, config, source, t, ok);
            both.requests == first.requests + second.requests && both.surfaced == second.surfaced
        }),
    decreases a.len(),
{
    let none = Seq::<crate::daemon::RequestView>::empty();
    let one = push_space(sp, config, source, t, ok);
    assert(seq![sp].skip(1) =~= Seq::<Space>::empty());
    assert(one.requests + none =~= one.requests);
    let over = pushed(
        seq![sp].skip(1),
        config,
        source,
        one.surfaced,
        later(ok, one.requests.len()),
    );
    assert(over.requests =~= none && over.surfaced == one.surfaced);
    assert(seq![sp][0] == sp);
    let first = pushed(a, config, source, t, ok);
    let n = first.requests.len();
    let rest_ok = |k: nat| ok(k + n);
    if a.len() == 0 {
        assert(a + b =~= b);
        assert(rest_ok =~= ok);
        let second = pushed(b, config, source, t, ok);
        assert(none + second.requests =~= second.requests);
    } else {
        let head = push_space(a[0], config, source, t, ok);
        let m = head.requests.len();
        let tail = a.skip(1);
        assert((a + b)[0] == a[0]);
        assert((a + b).skip(1) =~= tail + b);
        law_refresh_pushes_every_space(tail, b, sp, config, source, head.surfaced, later(ok, m));
        let mid = pushed(tail, config, source, head.surfaced, later(ok, m));
        let l = mid.requests.len();
        let inner = |k: nat| later(ok, m)(k + l);
        assert(inner =~= rest_ok) by {
            assert forall|k: nat| #[trigger] inner(k) == rest_ok(k) by {
                assert(k + l + m == k + n);
            }
        }
        let second = pushed(b, config, source, first.surfaced, rest_ok);
        assert(head.requests + (mid.requests + second.requests) =~= (head.requests + mid.requests)
            + second.requests);
    }
}

} // verus!
