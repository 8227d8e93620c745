//! What the requests of the updater do to the host, and what holds of it.
//!
//! [`HostView`] models the part of the host's state that our requests touch: the
//! panes that carry our pseudo-agent, and the status tokens that are lit on panes
//! and workspaces. A request changes it where the host accepts it.

use crate::config::{Config, Mode};
use crate::model::Space;
use crate::surfaced::Surfaced;
use vstd::prelude::*;

verus! {

/// What the host shows of ours.
pub ghost struct HostView {
    /// Panes that carry our pseudo-agent.
    pub agents: Set<Seq<char>>,
    /// Lit tokens: the pane and the token.
    pub panes: Set<(Seq<char>, Seq<char>)>,
    /// Lit tokens: the workspace and the token.
    pub workspaces: Set<(Seq<char>, Seq<char>)>,
}

/// The host after a request that it accepted.
pub open spec fn accepted(h: HostView, request: crate::daemon::RequestView) -> HostView {
    match request {
        crate::daemon::RequestView::ReleaseAgent { pane, .. } => HostView {
            agents: h.agents.remove(pane),
            ..h
        },
        crate::daemon::RequestView::ReportAgent { pane, .. } => HostView {
            agents: h.agents.insert(pane),
            ..h
        },
        crate::daemon::RequestView::ClearPane { pane, token, .. } => HostView {
            panes: h.panes.remove((pane, token)),
            ..h
        },
        crate::daemon::RequestView::ReportPane { pane, token, .. } => HostView {
            panes: h.panes.insert((pane, token)),
            ..h
        },
        crate::daemon::RequestView::ClearWorkspace { workspace, token, .. } => HostView {
            workspaces: h.workspaces.remove((workspace, token)),
            ..h
        },
        crate::daemon::RequestView::ReportWorkspace { workspace, token, .. } => HostView {
            workspaces: h.workspaces.insert((workspace, token)),
            ..h
        },
        crate::daemon::RequestView::Notify { .. } => h,
    }
}

/// The host after a run of requests, of which it accepts those that `ok` says.
pub open spec fn answered(
    h: HostView,
    requests: Seq<crate::daemon::RequestView>,
    ok: spec_fn(nat) -> bool,
) -> HostView
    decreases requests.len(),
{
    if requests.len() == 0 {
        h
    } else {
        let prev = answered(h, requests.drop_last(), ok);
        if ok((requests.len() - 1) as nat) {
            accepted(prev, requests.last())
        } else {
            prev
        }
    }
}

/// A request that clears a token.
pub open spec fn clears(request: crate::daemon::RequestView) -> bool {
    request is ClearPane || request is ClearWorkspace
}

/// Every clearing of a token in the run is accepted.
pub open spec fn clears_accepted(
    requests: Seq<crate::daemon::RequestView>,
    ok: spec_fn(nat) -> bool,
) -> bool {
    forall|k: nat| #![trigger ok(k)] k < requests.len() && clears(requests[k as int]) ==> ok(k)
}

/// The record knows every lit token: each is a status token of ours, and the one
/// on record for its pane or workspace.
pub open spec fn on_record(h: HostView, t: crate::surfaced::SurfacedView) -> bool {
    &&& forall|p: Seq<char>, k: Seq<char>| #[trigger]
        h.panes.contains((p, k)) ==> t.metadata.contains_key(p) && t.metadata[p] == k
            && crate::daemon::status_token_word(k)
    &&& forall|w: Seq<char>, k: Seq<char>| #[trigger]
        h.workspaces.contains((w, k)) ==> t.workspaces.contains_key(w) && t.workspaces[w] == k
            && crate::daemon::status_token_word(k)
}

proof fn lemma_answered_concat(
    h: HostView,
    a: Seq<crate::daemon::RequestView>,
    b: Seq<crate::daemon::RequestView>,
    ok: spec_fn(nat) -> bool,
)
    ensures
        answered(h, a + b, ok) == answered(answered(h, a, ok), b, crate::push::later(ok, a.len())),
    decreases b.len(),
{
    if b.len() == 0 {
        assert(a + b =~= a);
    } else {
        assert((a + b).drop_last() =~= a + b.drop_last());
        lemma_answered_concat(h, a, b.drop_last(), ok);
    }
}

proof fn lemma_clears_concat(
    a: Seq<crate::daemon::RequestView>,
    b: Seq<crate::daemon::RequestView>,
    ok: spec_fn(nat) -> bool,
)
    requires
        clears_accepted(a + b, ok),
    ensures
        clears_accepted(a, ok),
        clears_accepted(b, crate::push::later(ok, a.len())),
{
    let both = a + b;
    assert forall|k: nat| #![trigger ok(k)] k < a.len() && clears(a[k as int]) implies ok(k) by {
        assert(both[k as int] == a[k as int]);
    }
    let rest = crate::push::later(ok, a.len());
    assert forall|k: nat| #![trigger rest(k)] k < b.len() && clears(b[k as int]) implies rest(k) by {
        assert(both[(k + a.len()) as int] == b[k as int]);
        assert(ok((k + a.len()) as nat));
    }
}

/// One more request.
proof fn lemma_answered_push(
    h: HostView,
    a: Seq<crate::daemon::RequestView>,
    last: crate::daemon::RequestView,
    ok: spec_fn(nat) -> bool,
)
    ensures
        answered(h, a.push(last), ok) == if ok(a.len()) {
            accepted(answered(h, a, ok), last)
        } else {
            answered(h, a, ok)
        },
{
    assert(a.push(last).drop_last() =~= a);
}

/// Releases light and clear nothing.
proof fn lemma_releases(
    h: HostView,
    panes: Seq<Seq<char>>,
    source: Seq<char>,
    ok: spec_fn(nat) -> bool,
)
    ensures
        answered(h, crate::daemon::releases(panes, source), ok).panes == h.panes,
        answered(h, crate::daemon::releases(panes, source), ok).workspaces == h.workspaces,
        forall|p: Seq<char>|
            answered(h, crate::daemon::releases(panes, source), ok).agents.contains(p)
                ==> h.agents.contains(p),
        forall|p: Seq<char>|
            !panes.contains(p) ==> answered(
                h,
                crate::daemon::releases(panes, source),
                ok,
            ).agents.contains(p) == h.agents.contains(p),
        (forall|k: nat| #![trigger ok(k)] k < panes.len() ==> ok(k)) ==> forall|p: Seq<char>|
            panes.contains(p) ==> !answered(
                h,
                crate::daemon::releases(panes, source),
                ok,
            ).agents.contains(p),
    decreases panes.len(),
{
    let all = crate::daemon::releases(panes, source);
    if panes.len() > 0 {
        let init = panes.drop_last();
        lemma_releases(h, init, source, ok);
        assert(all.drop_last() =~= crate::daemon::releases(init, source));
        assert forall|p: Seq<char>| panes.contains(p) <==> init.contains(p) || p == panes.last() by {
            if init.contains(p) {
                assert(panes[init.index_of(p)] == p);
            }
            if panes.contains(p) && p != panes.last() {
                assert(init[panes.index_of(p)] == p);
            }
            assert(panes[panes.len() - 1] == panes.last());
        }
    }
}

/// Claiming and reporting a pane keeps the record true.
proof fn lemma_claimed_keeps_record(
    h: HostView,
    pane: Seq<char>,
    source: Seq<char>,
    token: Seq<char>,
    status: Seq<char>,
    ttl: u64,
    t: crate::surfaced::SurfacedView,
    ok: spec_fn(nat) -> bool,
)
    requires
        on_record(h, t),
        crate::daemon::status_token_word(token),
        clears_accepted(
            crate::push::claimed(pane, source, token, status, ttl, t, ok).requests,
            crate::push::later(ok, 1),
        ),
    ensures
        on_record(
            answered(
                h,
                crate::push::claimed(pane, source, token, status, ttl, t, ok).requests,
                crate::push::later(ok, 1),
            ),
            crate::push::claimed(pane, source, token, status, ttl, t, ok).surfaced,
        ),
{
    let o = crate::push::claimed(pane, source, token, status, ttl, t, ok);
    let rest = crate::push::later(ok, 1);
    if ok(0) {
        let stale = crate::push::stale_pane(t, pane, source, token);
        let report = o.requests.last();
        lemma_answered_push(h, stale, report, rest);
        let mid = answered(h, stale, rest);
        if stale.len() > 0 {
            assert(clears(o.requests[0]));
            assert(rest(0));
            assert(stale.drop_last() =~= Seq::<crate::daemon::RequestView>::empty());
            assert(answered(h, stale.drop_last(), rest) == h);
            assert(mid == accepted(h, stale[0]));
        } else {
            assert(mid == h);
        }
    }
}

/// One space of a run keeps the record true.
proof fn lemma_space_keeps_record(
    h: HostView,
    sp: Space,
    config: Config,
    source: Seq<char>,
    t: crate::surfaced::SurfacedView,
    ok: spec_fn(nat) -> bool,
)
    requires
        on_record(h, t),
        clears_accepted(crate::push::push_space(sp, config, source, t, ok).requests, ok),
    ensures
        on_record(
            answered(h, crate::push::push_space(sp, config, source, t, ok).requests, ok),
            crate::push::push_space(sp, config, source, t, ok).surfaced,
        ),
{
    let o = crate::push::push_space(sp, config, source, t, ok);
    let token = crate::push::space_token(sp);
    match config.mode {
        Mode::AgentsPanel => {
            let extra = crate::push::extra_claims(sp);
            let drops = crate::daemon::releases(extra, source);
            let t1 = crate::push::released(t, extra);
            lemma_releases(h, extra, source, ok);
            let h1 = answered(h, drops, ok);
            if let Some(pane) = crate::push::host_pane(sp) {
                if crate::push::space_text(sp, config).len() == 0 {
                    let rel = crate::daemon::release(pane, source);
                    lemma_answered_push(h, drops, rel, ok);
                    let head = drops.push(rel);
                    let h2 = answered(h, head, ok);
                    assert(h2.panes == h1.panes && h2.workspaces == h1.workspaces);
                    if t1.metadata.contains_key(pane) {
                        let clear = crate::daemon::clear_pane(pane, source, t1.metadata[pane]);
                        assert(o.requests =~= head.push(clear));
                        lemma_answered_push(h, head, clear, ok);
                        assert(clears(o.requests[head.len() as int]));
                        assert(ok(head.len()));
                    } else {
                        assert(o.requests =~= head);
                    }
                } else {
                    let later = crate::push::later(ok, drops.len());
                    let rest = crate::push::claimed(
                        pane,
                        source,
                        token,
                        crate::push::space_text(sp, config),
                        crate::daemon::ttl_of(config),
                        t1,
                        later,
                    );
                    let claim = o.requests[drops.len() as int];
                    let head = drops.push(claim);
                    assert(o.requests =~= head + rest.requests);
                    lemma_answered_push(h, drops, claim, ok);
                    let h2 = answered(h, head, ok);
                    assert(h2.panes == h1.panes && h2.workspaces == h1.workspaces);
                    lemma_answered_concat(h, head, rest.requests, ok);
                    lemma_clears_concat(head, rest.requests, ok);
                    assert(crate::push::later(later, 1) =~= crate::push::later(ok, head.len()));
                    lemma_claimed_keeps_record(
                        h2,
                        pane,
                        source,
                        token,
                        crate::push::space_text(sp, config),
                        crate::daemon::ttl_of(config),
                        t1,
                        later,
                    );
                }
            }
        },
        Mode::Sidebar => {
            let drops = crate::daemon::releases(sp@.pseudo_panes, source);
            let t1 = crate::push::released(t, sp@.pseudo_panes);
            lemma_releases(h, sp@.pseudo_panes, source, ok);
            let id = sp@.id;
            if crate::push::space_text(sp, config).len() == 0 {
                if t1.workspaces.contains_key(id) {
                    let clear = crate::daemon::clear_workspace(id, source, t1.workspaces[id]);
                    assert(o.requests =~= drops.push(clear));
                    lemma_answered_push(h, drops, clear, ok);
                    assert(clears(o.requests[drops.len() as int]));
                    assert(ok(drops.len()));
                } else {
                    assert(o.requests =~= drops);
                }
            } else {
                let stale = crate::push::stale_workspace(t1, id, source, token);
                let head = drops + stale;
                lemma_answered_push(h, head, o.requests.last(), ok);
                let h1 = answered(h, drops, ok);
                let h2 = answered(h, head, ok);
                if stale.len() > 0 {
                    assert(head =~= drops.push(stale[0]));
                    lemma_answered_push(h, drops, stale[0], ok);
                    assert(clears(o.requests[drops.len() as int]));
                    assert(ok(drops.len()));
                } else {
                    assert(head =~= drops);
                }
            }
        },
    }
}

/// At most one status token is ever lit per pane and per workspace, and it is the
/// one on record: pushing the statuses of a refresh keeps the record true, as
/// long as the host accepts the clearing of tokens. (A dirty → conflict flip never
/// leaves two tokens lit.)
pub proof fn law_one_token_at_a_time(
    h: HostView,
    spaces: Seq<Space>,
    config: Config,
    source: Seq<char>,
    t: crate::surfaced::SurfacedView,
    ok: spec_fn(nat) -> bool,
)
    requires
        on_record(h, t),
        clears_accepted(crate::push::pushed(spaces, config, source, t, ok).requests, ok),
    ensures
        ({
            let o = crate::push::pushed(spaces, config, source, t, ok);
            let after = answered(h, o.requests, ok);
            &&& on_record(after, o.surfaced)
            &&& forall|p: Seq<char>, a: Seq<char>, b: Seq<char>|
                #![trigger after.panes.contains((p, a)), after.panes.contains((p, b))]
                after.panes.contains((p, a)) && after.panes.contains((p, b)) ==> a == b
            &&& forall|w: Seq<char>, a: Seq<char>, b: Seq<char>|
                #![trigger after.workspaces.contains((w, a)), after.workspaces.contains((w, b))]
                after.workspaces.contains((w, a)) && after.workspaces.contains((w, b)) ==> a == b
        }),
    decreases spaces.len(),
{
    if spaces.len() > 0 {
        let first = crate::push::push_space(spaces[0], config, source, t, ok);
        let later = crate::push::later(ok, first.requests.len());
        let rest = crate::push::pushed(spaces.skip(1), config, source, first.surfaced, later);
        lemma_clears_concat(first.requests, rest.requests, ok);
        lemma_space_keeps_record(h, spaces[0], config, source, t, ok);
        lemma_answered_concat(h, first.requests, rest.requests, ok);
        law_one_token_at_a_time(
            answered(h, first.requests, ok),
            spaces.skip(1),
            config,
            source,
            first.surfaced,
            later,
        );
    }
}

/// Every token on record is lit.
pub open spec fn lit(h: HostView, t: crate::surfaced::SurfacedView) -> bool {
    &&& forall|p: Seq<char>| #[trigger]
        t.metadata.contains_key(p) ==> h.panes.contains((p, t.metadata[p]))
    &&& forall|w: Seq<char>| #[trigger]
        t.workspaces.contains_key(w) ==> h.workspaces.contains((w, t.workspaces[w]))
}

/// A request that sets a status.
pub open spec fn sets_status(request: crate::daemon::RequestView) -> bool {
    request is ReportPane || request is ReportWorkspace
}

/// Every status that the run reports is accepted.
pub open spec fn statuses_accepted(
    requests: Seq<crate::daemon::RequestView>,
    ok: spec_fn(nat) -> bool,
) -> bool {
    forall|k: nat|
        #![trigger ok(k)]
        k < requests.len() && sets_status(requests[k as int]) ==> ok(k)
}

proof fn lemma_statuses_concat(
    a: Seq<crate::daemon::RequestView>,
    b: Seq<crate::daemon::RequestView>,
    ok: spec_fn(nat) -> bool,
)
    requires
        statuses_accepted(a + b, ok),
    ensures
        statuses_accepted(a, ok),
        statuses_accepted(b, crate::push::later(ok, a.len())),
{
    let both = a + b;
    assert forall|k: nat| #![trigger ok(k)] k < a.len() && sets_status(a[k as int]) implies ok(
        k,
    ) by {
        assert(both[k as int] == a[k as int]);
    }
    let rest = crate::push::later(ok, a.len());
    assert forall|k: nat| #![trigger rest(k)] k < b.len() && sets_status(b[k as int]) implies rest(
        k,
    ) by {
        assert(both[(k + a.len()) as int] == b[k as int]);
        assert(ok((k + a.len()) as nat));
    }
}

/// Claiming and reporting a pane keeps what is on record lit.
proof fn lemma_claimed_keeps_lit(
    h: HostView,
    pane: Seq<char>,
    source: Seq<char>,
    token: Seq<char>,
    status: Seq<char>,
    ttl: u64,
    t: crate::surfaced::SurfacedView,
    ok: spec_fn(nat) -> bool,
)
    requires
        lit(h, t),
        statuses_accepted(
            crate::push::claimed(pane, source, token, status, ttl, t, ok).requests,
            crate::push::later(ok, 1),
        ),
    ensures
        lit(
            answered(
                h,
                crate::push::claimed(pane, source, token, status, ttl, t, ok).requests,
                crate::push::later(ok, 1),
            ),
            crate::push::claimed(pane, source, token, status, ttl, t, ok).surfaced,
        ),
{
    let o = crate::push::claimed(pane, source, token, status, ttl, t, ok);
    let rest = crate::push::later(ok, 1);
    if ok(0) {
        let stale = crate::push::stale_pane(t, pane, source, token);
        lemma_answered_push(h, stale, o.requests.last(), rest);
        assert(sets_status(o.requests[stale.len() as int]));
        assert(rest(stale.len()));
        let mid = answered(h, stale, rest);
        if stale.len() > 0 {
            assert(stale.drop_last() =~= Seq::<crate::daemon::RequestView>::empty());
            assert(answered(h, stale.drop_last(), rest) == h);
        } else {
            assert(mid == h);
        }
    }
}

/// One space of a run keeps what is on record lit.
proof fn lemma_space_keeps_lit(
    h: HostView,
    sp: Space,
    config: Config,
    source: Seq<char>,
    t: crate::surfaced::SurfacedView,
    ok: spec_fn(nat) -> bool,
)
    requires
        lit(h, t),
        statuses_accepted(crate::push::push_space(sp, config, source, t, ok).requests, ok),
    ensures
        lit(
            answered(h, crate::push::push_space(sp, config, source, t, ok).requests, ok),
            crate::push::push_space(sp, config, source, t, ok).surfaced,
        ),
{
    let o = crate::push::push_space(sp, config, source, t, ok);
    let token = crate::push::space_token(sp);
    match config.mode {
        Mode::AgentsPanel => {
            let extra = crate::push::extra_claims(sp);
            let drops = crate::daemon::releases(extra, source);
            let t1 = crate::push::released(t, extra);
            lemma_releases(h, extra, source, ok);
            let h1 = answered(h, drops, ok);
            if let Some(pane) = crate::push::host_pane(sp) {
                if crate::push::space_text(sp, config).len() == 0 {
                    let rel = crate::daemon::release(pane, source);
                    lemma_answered_push(h, drops, rel, ok);
                    let head = drops.push(rel);
                    let h2 = answered(h, head, ok);
                    assert(h2.panes == h1.panes && h2.workspaces == h1.workspaces);
                    if t1.metadata.contains_key(pane) {
                        let clear = crate::daemon::clear_pane(pane, source, t1.metadata[pane]);
                        assert(o.requests =~= head.push(clear));
                        lemma_answered_push(h, head, clear, ok);
                    } else {
                        assert(o.requests =~= head);
                    }
                } else {
                    let later = crate::push::later(ok, drops.len());
                    let rest = crate::push::claimed(
                        pane,
                        source,
                        token,
                        crate::push::space_text(sp, config),
                        crate::daemon::ttl_of(config),
                        t1,
                        later,
                    );
                    let claim = o.requests[drops.len() as int];
                    let head = drops.push(claim);
                    assert(o.requests =~= head + rest.requests);
                    lemma_answered_push(h, drops, claim, ok);
                    let h2 = answered(h, head, ok);
                    assert(h2.panes == h1.panes && h2.workspaces == h1.workspaces);
                    lemma_answered_concat(h, head, rest.requests, ok);
                    lemma_statuses_concat(head, rest.requests, ok);
                    assert(crate::push::later(later, 1) =~= crate::push::later(ok, head.len()));
                    lemma_claimed_keeps_lit(
                        h2,
                        pane,
                        source,
                        token,
                        crate::push::space_text(sp, config),
                        crate::daemon::ttl_of(config),
                        t1,
                        later,
                    );
                }
            }
        },
        Mode::Sidebar => {
            let drops = crate::daemon::releases(sp@.pseudo_panes, source);
            let t1 = crate::push::released(t, sp@.pseudo_panes);
            lemma_releases(h, sp@.pseudo_panes, source, ok);
            let id = sp@.id;
            if crate::push::space_text(sp, config).len() == 0 {
                if t1.workspaces.contains_key(id) {
                    let clear = crate::daemon::clear_workspace(id, source, t1.workspaces[id]);
                    assert(o.requests =~= drops.push(clear));
                    lemma_answered_push(h, drops, clear, ok);
                } else {
                    assert(o.requests =~= drops);
                }
            } else {
                let stale = crate::push::stale_workspace(t1, id, source, token);
                let head = drops + stale;
                lemma_answered_push(h, head, o.requests.last(), ok);
                assert(sets_status(o.requests[head.len() as int]));
                assert(ok(head.len()));
                if stale.len() > 0 {
                    assert(head =~= drops.push(stale[0]));
                    lemma_answered_push(h, drops, stale[0], ok);
                } else {
                    assert(head =~= drops);
                }
            }
        },
    }
}

/// Every token on record is lit: pushing the statuses of a refresh keeps it so, as
/// long as the host accepts the statuses.
pub proof fn law_recorded_tokens_are_lit(
    h: HostView,
    spaces: Seq<Space>,
    config: Config,
    source: Seq<char>,
    t: crate::surfaced::SurfacedView,
    ok: spec_fn(nat) -> bool,
)
    requires
        lit(h, t),
        statuses_accepted(crate::push::pushed(spaces, config, source, t, ok).requests, ok),
    ensures
        lit(
            answered(h, crate::push::pushed(spaces, config, source, t, ok).requests, ok),
            crate::push::pushed(spaces, config, source, t, ok).surfaced,
        ),
    decreases spaces.len(),
{
    if spaces.len() > 0 {
        let first = crate::push::push_space(spaces[0], config, source, t, ok);
        let later = crate::push::later(ok, first.requests.len());
        let rest = crate::push::pushed(spaces.skip(1), config, source, first.surfaced, later);
        lemma_statuses_concat(first.requests, rest.requests, ok);
        lemma_space_keeps_lit(h, spaces[0], config, source, t, ok);
        lemma_answered_concat(h, first.requests, rest.requests, ok);
        law_recorded_tokens_are_lit(
            answered(h, first.requests, ok),
            spaces.skip(1),
            config,
            source,
            first.surfaced,
            later,
        );
    }
}

/// Every release of a pseudo-agent in the run is accepted.
pub open spec fn releases_accepted(
    requests: Seq<crate::daemon::RequestView>,
    ok: spec_fn(nat) -> bool,
) -> bool {
    forall|k: nat| #![trigger ok(k)] k < requests.len() && requests[k as int] is ReleaseAgent ==> ok(
        k,
    )
}

proof fn lemma_releases_accepted_concat(
    a: Seq<crate::daemon::RequestView>,
    b: Seq<crate::daemon::RequestView>,
    ok: spec_fn(nat) -> bool,
)
    requires
        releases_accepted(a + b, ok),
    ensures
        releases_accepted(a, ok),
        releases_accepted(b, crate::push::later(ok, a.len())),
{
    let both = a + b;
    assert forall|k: nat| #![trigger ok(k)] k < a.len() && a[k as int] is ReleaseAgent implies ok(
        k,
    ) by {
        assert(both[k as int] == a[k as int]);
    }
    let rest = crate::push::later(ok, a.len());
    assert forall|k: nat| #![trigger rest(k)] k < b.len() && b[k as int] is ReleaseAgent implies rest(
        k,
    ) by {
        assert(both[(k + a.len()) as int] == b[k as int]);
        assert(ok((k + a.len()) as nat));
    }
}

/// One space of a run keeps every claim on record.
proof fn lemma_space_keeps_claims(
    h: HostView,
    sp: Space,
    config: Config,
    source: Seq<char>,
    t: crate::surfaced::SurfacedView,
    ok: spec_fn(nat) -> bool,
)
    requires
        h.agents.subset_of(t.pseudo),
        releases_accepted(crate::push::push_space(sp, config, source, t, ok).requests, ok),
    ensures
        answered(
            h,
            crate::push::push_space(sp, config, source, t, ok).requests,
            ok,
        ).agents.subset_of(crate::push::push_space(sp, config, source, t, ok).surfaced.pseudo),
{
    let o = crate::push::push_space(sp, config, source, t, ok);
    let panes = match config.mode {
        Mode::AgentsPanel => crate::push::extra_claims(sp),
        Mode::Sidebar => sp@.pseudo_panes,
    };
    let drops = crate::daemon::releases(panes, source);
    lemma_releases(h, panes, source, ok);
    assert forall|k: nat| #![trigger ok(k)] k < panes.len() implies ok(k) by {
        assert(o.requests[k as int] is ReleaseAgent);
    }
    let h1 = answered(h, drops, ok);
    let t1 = crate::push::released(t, panes);
    assert(h1.agents.subset_of(t1.pseudo)) by {
        assert forall|p: Seq<char>| h1.agents.contains(p) implies t1.pseudo.contains(p) by {
            if panes.contains(p) {
                assert(!h1.agents.contains(p));
            }
        }
    }
    let head = match (config.mode, crate::push::host_pane(sp)) {
        (Mode::AgentsPanel, Some(pane)) => drops.push(o.requests[drops.len() as int]),
        _ => drops,
    };
    let tail = o.requests.skip(head.len() as int);
    assert(o.requests =~= head + tail);
    lemma_answered_concat(h, head, tail, ok);
    assert(forall|k: int| 0 <= k < tail.len() ==> !agent_request(#[trigger] tail[k]));
    lemma_agents_untouched(answered(h, head, ok), tail, crate::push::later(ok, head.len()));
    if config.mode is AgentsPanel && crate::push::host_pane(sp) is Some {
        let next = o.requests[drops.len() as int];
        lemma_answered_push(h, drops, next, ok);
        if crate::push::space_text(sp, config).len() == 0 {
            assert(next is ReleaseAgent);
            assert(ok(drops.len()));
        } else {
            assert(crate::push::later(ok, drops.len())(0) == ok(drops.len()));
        }
    }
}

/// Every pane that carries our pseudo-agent stays on record, so that shutdown
/// releases it, as long as the host accepts the releases.
pub proof fn law_claims_stay_on_record(
    h: HostView,
    spaces: Seq<Space>,
    config: Config,
    source: Seq<char>,
    t: crate::surfaced::SurfacedView,
    ok: spec_fn(nat) -> bool,
)
    requires
        h.agents.subset_of(t.pseudo),
        releases_accepted(crate::push::pushed(spaces, config, source, t, ok).requests, ok),
    ensures
        answered(
            h,
            crate::push::pushed(spaces, config, source, t, ok).requests,
            ok,
        ).agents.subset_of(crate::push::pushed(spaces, config, source, t, ok).surfaced.pseudo),
    decreases spaces.len(),
{
    if spaces.len() > 0 {
        let first = crate::push::push_space(spaces[0], config, source, t, ok);
        let later = crate::push::later(ok, first.requests.len());
        let rest = crate::push::pushed(spaces.skip(1), config, source, first.surfaced, later);
        lemma_releases_accepted_concat(first.requests, rest.requests, ok);
        lemma_space_keeps_claims(h, spaces[0], config, source, t, ok);
        lemma_answered_concat(h, first.requests, rest.requests, ok);
        law_claims_stay_on_record(
            answered(h, first.requests, ok),
            spaces.skip(1),
            config,
            source,
            first.surfaced,
            later,
        );
    }
}

// ---- a run of refreshes -----------------------------------------------------

/// One refresh: what is pushed, and how the host answers.
pub ghost struct Refresh {
    pub spaces: Seq<Space>,
    pub config: Config,
    pub source: Seq<char>,
    pub ok: spec_fn(nat) -> bool,
}

/// What a refresh asks from this record on, and the record after it.
pub open spec fn outcome_of(r: Refresh, t: crate::surfaced::SurfacedView) -> crate::push::Outcome {
    crate::push::pushed(r.spaces, r.config, r.source, t, r.ok)
}

/// The record after a run of refreshes.
pub open spec fn record_over(
    run: Seq<Refresh>,
    t: crate::surfaced::SurfacedView,
) -> crate::surfaced::SurfacedView
    decreases run.len(),
{
    if run.len() == 0 {
        t
    } else {
        outcome_of(run.last(), record_over(run.drop_last(), t)).surfaced
    }
}

/// What the `i`th refresh of a run asks.
pub open spec fn requests_at(
    run: Seq<Refresh>,
    t: crate::surfaced::SurfacedView,
    i: int,
) -> Seq<crate::daemon::RequestView> {
    outcome_of(run[i], record_over(run.take(i), t)).requests
}

/// The host after a run of refreshes.
pub open spec fn host_over(
    run: Seq<Refresh>,
    h: HostView,
    t: crate::surfaced::SurfacedView,
) -> HostView
    decreases run.len(),
{
    if run.len() == 0 {
        h
    } else {
        answered(
            host_over(run.drop_last(), h, t),
            outcome_of(run.last(), record_over(run.drop_last(), t)).requests,
            run.last().ok,
        )
    }
}

/// Every clearing of a token in the refreshes is accepted.
pub open spec fn all_clears_accepted(run: Seq<Refresh>, t: crate::surfaced::SurfacedView) -> bool {
    forall|i: int|
        0 <= i < run.len() ==> clears_accepted(requests_at(run, t, i), (#[trigger] run[i]).ok)
}

/// Every release in the refreshes is accepted.
pub open spec fn all_releases_accepted(
    run: Seq<Refresh>,
    t: crate::surfaced::SurfacedView,
) -> bool {
    forall|i: int|
        0 <= i < run.len() ==> releases_accepted(requests_at(run, t, i), (#[trigger] run[i]).ok)
}

/// Every status that the refreshes report is accepted.
pub open spec fn all_statuses_accepted(
    run: Seq<Refresh>,
    t: crate::surfaced::SurfacedView,
) -> bool {
    forall|i: int|
        0 <= i < run.len() ==> statuses_accepted(requests_at(run, t, i), (#[trigger] run[i]).ok)
}

/// What is accepted in a run is accepted in the run but its last, and in that.
proof fn lemma_run_split(run: Seq<Refresh>, t: crate::surfaced::SurfacedView)
    requires
        run.len() > 0,
    ensures
        ({
            let init = run.drop_last();
            let asks = outcome_of(run.last(), record_over(init, t)).requests;
            &&& all_clears_accepted(run, t) ==> all_clears_accepted(init, t) && clears_accepted(
                asks,
                run.last().ok,
            )
            &&& all_releases_accepted(run, t) ==> all_releases_accepted(init, t)
                && releases_accepted(asks, run.last().ok)
            &&& all_statuses_accepted(run, t) ==> all_statuses_accepted(init, t)
                && statuses_accepted(asks, run.last().ok)
        }),
{
    let init = run.drop_last();
    let n = run.len() - 1;
    assert(run.take(n) =~= init);
    assert(run.last() == run[n]);
    assert forall|i: int| 0 <= i < init.len() implies requests_at(init, t, i) == requests_at(
        run,
        t,
        i,
    ) && #[trigger] init[i] == run[i] by {
        assert(init.take(i) =~= run.take(i));
    }
}

/// Over any run of refreshes, at most one status token is lit per pane and per
/// workspace, and it is the one on record, as long as the host accepts the clearing
/// of tokens; where it accepts the statuses too, a token is lit exactly when it is
/// on record.
pub proof fn law_one_token_over_refreshes(
    h: HostView,
    run: Seq<Refresh>,
    t: crate::surfaced::SurfacedView,
)
    requires
        on_record(h, t),
        all_clears_accepted(run, t),
    ensures
        ({
            let (after, record) = (host_over(run, h, t), record_over(run, t));
            &&& on_record(after, record)
            &&& forall|p: Seq<char>, a: Seq<char>, b: Seq<char>|
                #![trigger after.panes.contains((p, a)), after.panes.contains((p, b))]
                after.panes.contains((p, a)) && after.panes.contains((p, b)) ==> a == b
            &&& forall|w: Seq<char>, a: Seq<char>, b: Seq<char>|
                #![trigger after.workspaces.contains((w, a)), after.workspaces.contains((w, b))]
                after.workspaces.contains((w, a)) && after.workspaces.contains((w, b)) ==> a == b
            &&& lit(h, t) && all_statuses_accepted(run, t) ==> {
                &&& forall|p: Seq<char>, k: Seq<char>| #[trigger]
                    after.panes.contains((p, k)) <==> record.metadata.contains_key(p)
                        && record.metadata[p] == k
                &&& forall|w: Seq<char>, k: Seq<char>| #[trigger]
                    after.workspaces.contains((w, k)) <==> record.workspaces.contains_key(w)
                        && record.workspaces[w] == k
            }
        }),
{
    lemma_run_keeps_record(h, run, t);
    if lit(h, t) && all_statuses_accepted(run, t) {
        lemma_run_keeps_lit(h, run, t);
    }
}

proof fn lemma_run_keeps_record(
    h: HostView,
    run: Seq<Refresh>,
    t: crate::surfaced::SurfacedView,
)
    requires
        on_record(h, t),
        all_clears_accepted(run, t),
    ensures
        on_record(host_over(run, h, t), record_over(run, t)),
    decreases run.len(),
{
    if run.len() > 0 {
        let (init, r) = (run.drop_last(), run.last());
        lemma_run_split(run, t);
        lemma_run_keeps_record(h, init, t);
        law_one_token_at_a_time(
            host_over(init, h, t),
            r.spaces,
            r.config,
            r.source,
            record_over(init, t),
            r.ok,
        );
    }
}

proof fn lemma_run_keeps_lit(h: HostView, run: Seq<Refresh>, t: crate::surfaced::SurfacedView)
    requires
        lit(h, t),
        all_statuses_accepted(run, t),
    ensures
        lit(host_over(run, h, t), record_over(run, t)),
    decreases run.len(),
{
    if run.len() > 0 {
        let (init, r) = (run.drop_last(), run.last());
        lemma_run_split(run, t);
        lemma_run_keeps_lit(h, init, t);
        law_recorded_tokens_are_lit(
            host_over(init, h, t),
            r.spaces,
            r.config,
            r.source,
            record_over(init, t),
            r.ok,
        );
    }
}

proof fn lemma_run_keeps_claims(
    h: HostView,
    run: Seq<Refresh>,
    t: crate::surfaced::SurfacedView,
)
    requires
        h.agents.subset_of(t.pseudo),
        all_releases_accepted(run, t),
    ensures
        host_over(run, h, t).agents.subset_of(record_over(run, t).pseudo),
    decreases run.len(),
{
    if run.len() > 0 {
        let (init, r) = (run.drop_last(), run.last());
        lemma_run_split(run, t);
        lemma_run_keeps_claims(h, init, t);
        law_claims_stay_on_record(
            host_over(init, h, t),
            r.spaces,
            r.config,
            r.source,
            record_over(init, t),
            r.ok,
        );
    }
}

// ---- clearing everything ----------------------------------------------------

/// Every request of the run is accepted.
pub open spec fn all_accepted(
    requests: Seq<crate::daemon::RequestView>,
    ok: spec_fn(nat) -> bool,
) -> bool {
    forall|k: nat| #![trigger ok(k)] k < requests.len() ==> ok(k)
}

proof fn lemma_all_accepted_concat(
    a: Seq<crate::daemon::RequestView>,
    b: Seq<crate::daemon::RequestView>,
    ok: spec_fn(nat) -> bool,
)
    requires
        all_accepted(a + b, ok),
    ensures
        all_accepted(a, ok),
        all_accepted(b, crate::push::later(ok, a.len())),
{
    let rest = crate::push::later(ok, a.len());
    assert forall|k: nat| #![trigger rest(k)] k < b.len() implies rest(k) by {
        assert(ok((k + a.len()) as nat));
    }
}

/// Three more requests, all accepted.
proof fn lemma_answered_three(
    h: HostView,
    a: Seq<crate::daemon::RequestView>,
    x: crate::daemon::RequestView,
    y: crate::daemon::RequestView,
    z: crate::daemon::RequestView,
    ok: spec_fn(nat) -> bool,
)
    requires
        all_accepted(a + seq![x, y, z], ok),
    ensures
        answered(h, a + seq![x, y, z], ok) == accepted(
            accepted(accepted(answered(h, a, ok), x), y),
            z,
        ),
{
    assert(a + seq![x, y, z] =~= a.push(x).push(y).push(z));
    lemma_answered_push(h, a, x, ok);
    lemma_answered_push(h, a.push(x), y, ok);
    lemma_answered_push(h, a.push(x).push(y), z, ok);
    assert(ok(a.len()) && ok(a.push(x).len()) && ok(a.push(x).push(y).len()));
}

proof fn lemma_pane_sweep(
    h: HostView,
    panes: Seq<Seq<char>>,
    source: Seq<char>,
    ok: spec_fn(nat) -> bool,
)
    requires
        all_accepted(crate::daemon::pane_sweep(panes, source), ok),
    ensures
        ({
            let after = answered(h, crate::daemon::pane_sweep(panes, source), ok);
            &&& after.agents == h.agents
            &&& after.workspaces == h.workspaces
            &&& forall|p: Seq<char>, k: Seq<char>| #[trigger]
                after.panes.contains((p, k)) ==> h.panes.contains((p, k)) && !(panes.contains(p)
                    && crate::daemon::status_token_word(k))
        }),
    decreases panes.len(),
{
    if panes.len() > 0 {
        let init = panes.drop_last();
        let prev = crate::daemon::pane_sweep(init, source);
        let pane = panes.last();
        let x = crate::daemon::clear_pane(pane, source, crate::daemon::TOKEN_CLEAN@);
        let y = crate::daemon::clear_pane(pane, source, crate::daemon::TOKEN_DIRTY@);
        let z = crate::daemon::clear_pane(pane, source, crate::daemon::TOKEN_CONFLICT@);
        lemma_all_accepted_concat(prev, seq![x, y, z], ok);
        lemma_pane_sweep(h, init, source, ok);
        lemma_answered_three(h, prev, x, y, z, ok);
        assert forall|p: Seq<char>| panes.contains(p) implies init.contains(p) || p == pane by {
            let k = panes.index_of(p);
            if k < init.len() {
                assert(init[k] == p);
            }
        }
    }
}

proof fn lemma_workspace_sweep(
    h: HostView,
    workspaces: Seq<Seq<char>>,
    source: Seq<char>,
    ok: spec_fn(nat) -> bool,
)
    requires
        all_accepted(crate::daemon::workspace_sweep(workspaces, source), ok),
    ensures
        ({
            let after = answered(h, crate::daemon::workspace_sweep(workspaces, source), ok);
            &&& after.agents == h.agents
            &&& after.panes == h.panes
            &&& forall|w: Seq<char>, k: Seq<char>| #[trigger]
                after.workspaces.contains((w, k)) ==> h.workspaces.contains((w, k)) && !(
                workspaces.contains(w) && crate::daemon::status_token_word(k))
        }),
    decreases workspaces.len(),
{
    if workspaces.len() > 0 {
        let init = workspaces.drop_last();
        let prev = crate::daemon::workspace_sweep(init, source);
        let id = workspaces.last();
        let x = crate::daemon::clear_workspace(id, source, crate::daemon::TOKEN_CLEAN@);
        let y = crate::daemon::clear_workspace(id, source, crate::daemon::TOKEN_DIRTY@);
        let z = crate::daemon::clear_workspace(id, source, crate::daemon::TOKEN_CONFLICT@);
        lemma_all_accepted_concat(prev, seq![x, y, z], ok);
        lemma_workspace_sweep(h, init, source, ok);
        lemma_answered_three(h, prev, x, y, z, ok);
        assert forall|w: Seq<char>| workspaces.contains(w) implies init.contains(w) || w == id by {
            let k = workspaces.index_of(w);
            if k < init.len() {
                assert(init[k] == w);
            }
        }
    }
}

/// What sweeping a record leaves on the host.
proof fn lemma_sweep(h: HostView, surfaced: Surfaced, source: Seq<char>, ok: spec_fn(nat) -> bool)
    requires
        all_accepted(crate::daemon::sweep_of(surfaced, source), ok),
    ensures
        ({
            let after = answered(h, crate::daemon::sweep_of(surfaced, source), ok);
            &&& forall|p: Seq<char>| #[trigger]
                after.agents.contains(p) ==> h.agents.contains(p) && !surfaced@.pseudo.contains(p)
            &&& forall|p: Seq<char>, k: Seq<char>| #[trigger]
                after.panes.contains((p, k)) ==> h.panes.contains((p, k)) && !(
                surfaced@.metadata.contains_key(p) && crate::daemon::status_token_word(k))
            &&& forall|w: Seq<char>, k: Seq<char>| #[trigger]
                after.workspaces.contains((w, k)) ==> h.workspaces.contains((w, k)) && !(
                surfaced@.workspaces.contains_key(w) && crate::daemon::status_token_word(k))
        }),
{
    let a = crate::daemon::releases(surfaced.pseudo.order(), source);
    let b = crate::daemon::pane_sweep(surfaced.metadata.order(), source);
    let c = crate::daemon::workspace_sweep(surfaced.workspaces.order(), source);
    lemma_all_accepted_concat(a + b, c, ok);
    lemma_all_accepted_concat(a, b, ok);
    lemma_answered_concat(h, a + b, c, ok);
    lemma_answered_concat(h, a, b, ok);
    lemma_releases(h, surfaced.pseudo.order(), source, ok);
    let h1 = answered(h, a, ok);
    lemma_pane_sweep(h1, surfaced.metadata.order(), source, crate::push::later(ok, a.len()));
    let h2 = answered(h, a + b, ok);
    lemma_workspace_sweep(
        h2,
        surfaced.workspaces.order(),
        source,
        crate::push::later(ok, (a + b).len()),
    );
    assert forall|p: Seq<char>| #[trigger]
        answered(h, a + b + c, ok).agents.contains(p) implies h.agents.contains(p)
        && !surfaced@.pseudo.contains(p) by {
        if surfaced@.pseudo.contains(p) {
            assert(surfaced.pseudo.order().contains(p));
        }
    }
}

/// Shutdown clears everything at once: where the record is true, sweeping it
/// leaves no pseudo-agent and no lit token of ours.
pub proof fn law_shutdown_clears_everything(
    h: HostView,
    surfaced: Surfaced,
    source: Seq<char>,
    ok: spec_fn(nat) -> bool,
)
    requires
        on_record(h, surfaced@),
        h.agents.subset_of(surfaced@.pseudo),
        all_accepted(crate::daemon::sweep_of(surfaced, source), ok),
    ensures
        ({
            let after = answered(h, crate::daemon::sweep_of(surfaced, source), ok);
            &&& after.agents == Set::<Seq<char>>::empty()
            &&& after.panes == Set::<(Seq<char>, Seq<char>)>::empty()
            &&& after.workspaces == Set::<(Seq<char>, Seq<char>)>::empty()
        }),
{
    lemma_sweep(h, surfaced, source, ok);
    let after = answered(h, crate::daemon::sweep_of(surfaced, source), ok);
    assert(after.agents =~= Set::<Seq<char>>::empty());
    assert forall|x: (Seq<char>, Seq<char>)| !after.panes.contains(x) by {
        assert(x == (x.0, x.1));
        assert(!after.panes.contains((x.0, x.1)));
    }
    assert(after.panes =~= Set::<(Seq<char>, Seq<char>)>::empty());
    assert forall|x: (Seq<char>, Seq<char>)| !after.workspaces.contains(x) by {
        assert(x == (x.0, x.1));
        assert(!after.workspaces.contains((x.0, x.1)));
    }
    assert(after.workspaces =~= Set::<(Seq<char>, Seq<char>)>::empty());
}

/// Disabling clears everything at once, also what a dead daemon left behind: every
/// pseudo-agent of the spaces, and every status token on any of their panes and on
/// their workspaces, whichever severity it has.
pub proof fn law_disable_sweeps_leftovers(
    h: HostView,
    spaces: Seq<Space>,
    sweep: Surfaced,
    source: Seq<char>,
    ok: spec_fn(nat) -> bool,
)
    requires
        crate::daemon::covers(sweep@, spaces),
        all_accepted(crate::daemon::sweep_of(sweep, source), ok),
    ensures
        ({
            let after = answered(h, crate::daemon::sweep_of(sweep, source), ok);
            forall|i: int|
                0 <= i < spaces.len() ==> {
                    let sp = #[trigger] spaces[i];
                    &&& forall|p: Seq<char>|
                        sp@.pseudo_panes.contains(p) ==> !#[trigger] after.agents.contains(p)
                    &&& forall|p: Seq<char>, k: Seq<char>|
                        crate::daemon::hosts(sp, p) && crate::daemon::status_token_word(k)
                            ==> !#[trigger] after.panes.contains((p, k))
                    &&& forall|k: Seq<char>|
                        crate::daemon::status_token_word(k)
                            ==> !#[trigger] after.workspaces.contains((sp@.id, k))
                }
        }),
{
    lemma_sweep(h, sweep, source, ok);
    let after = answered(h, crate::daemon::sweep_of(sweep, source), ok);
    assert forall|i: int| 0 <= i < spaces.len() implies {
        let sp = #[trigger] spaces[i];
        &&& forall|p: Seq<char>|
            sp@.pseudo_panes.contains(p) ==> !#[trigger] after.agents.contains(p)
        &&& forall|p: Seq<char>, k: Seq<char>|
            crate::daemon::hosts(sp, p) && crate::daemon::status_token_word(k)
                ==> !#[trigger] after.panes.contains((p, k))
        &&& forall|k: Seq<char>|
            crate::daemon::status_token_word(k) ==> !#[trigger] after.workspaces.contains(
                (sp@.id, k),
            )
    } by {
        let sp = spaces[i];
        assert forall|p: Seq<char>| sp@.pseudo_panes.contains(p) implies
            !#[trigger] after.agents.contains(p) by {
            assert(sweep@.pseudo.contains(p));
        }
        assert forall|p: Seq<char>, k: Seq<char>|
            crate::daemon::hosts(sp, p) && crate::daemon::status_token_word(k) implies
            !#[trigger] after.panes.contains((p, k)) by {
            assert(sweep@.metadata.contains_key(p));
        }
        assert(sweep@.workspaces.contains_key(sp@.id));
    }
}

// ---- where the modes write --------------------------------------------------

/// A request that agents-panel mode may make for these spaces: on panes only, and
/// never a claim or a status on a pane with a real agent of its own.
pub open spec fn panel_request(
    request: crate::daemon::RequestView,
    spaces: Seq<Space>,
) -> bool {
    match request {
        crate::daemon::RequestView::ReleaseAgent { .. } => true,
        crate::daemon::RequestView::ClearPane { .. } => true,
        crate::daemon::RequestView::ReportAgent { pane, .. } => exists|i: int|
            0 <= i < spaces.len() && crate::push::host_pane(#[trigger] spaces[i]) == Some(pane),
        crate::daemon::RequestView::ReportPane { pane, .. } => exists|i: int|
            0 <= i < spaces.len() && crate::push::host_pane(#[trigger] spaces[i]) == Some(pane),
        _ => false,
    }
}

/// A request that sidebar mode may make: on workspaces, and releases of
/// pseudo-agents.
pub open spec fn sidebar_request(request: crate::daemon::RequestView) -> bool {
    request is ReleaseAgent || request is ClearWorkspace || request is ReportWorkspace
}

/// The two modes are strictly separate about where they write. Agents-panel mode
/// writes on panes only, claims and reports only on the host pane of a space (one
/// that carries our pseudo-agent, or a spare one), and leaves the record of
/// workspaces alone; sidebar mode writes on workspaces only, releases
/// pseudo-agents, and leaves the record of panes alone.
pub proof fn law_modes_write_apart(
    spaces: Seq<Space>,
    config: Config,
    source: Seq<char>,
    t: crate::surfaced::SurfacedView,
    ok: spec_fn(nat) -> bool,
)
    ensures
        ({
            let o = crate::push::pushed(spaces, config, source, t, ok);
            match config.mode {
                Mode::AgentsPanel => {
                    &&& o.surfaced.workspaces == t.workspaces
                    &&& forall|k: int|
                        0 <= k < o.requests.len() ==> panel_request(#[trigger] o.requests[k], spaces)
                },
                Mode::Sidebar => {
                    &&& o.surfaced.metadata == t.metadata
                    &&& forall|k: int|
                        0 <= k < o.requests.len() ==> sidebar_request(#[trigger] o.requests[k])
                },
            }
        }),
    decreases spaces.len(),
{
    if spaces.len() > 0 {
        let o = crate::push::pushed(spaces, config, source, t, ok);
        let sp = spaces[0];
        let first = crate::push::push_space(sp, config, source, t, ok);
        let later = crate::push::later(ok, first.requests.len());
        let todo = spaces.skip(1);
        let rest = crate::push::pushed(todo, config, source, first.surfaced, later);
        law_modes_write_apart(todo, config, source, first.surfaced, later);
        if config.mode is AgentsPanel {
            assert forall|k: int| 0 <= k < o.requests.len() implies panel_request(
                #[trigger] o.requests[k],
                spaces,
            ) by {
                if k < first.requests.len() {
                    assert(o.requests[k] == first.requests[k]);
                    assert(crate::push::host_pane(spaces[0]) == crate::push::host_pane(sp));
                } else {
                    let r = rest.requests[k - first.requests.len()];
                    assert(o.requests[k] == r);
                    assert(panel_request(r, todo));
                    if r is ReportAgent || r is ReportPane {
                        let pane = match r {
                            crate::daemon::RequestView::ReportAgent { pane, .. } => pane,
                            crate::daemon::RequestView::ReportPane { pane, .. } => pane,
                            _ => arbitrary(),
                        };
                        let i = choose|i: int|
                            0 <= i < todo.len() && crate::push::host_pane(#[trigger] todo[i])
                                == Some(pane);
                        assert(spaces[i + 1] == todo[i]);
                        assert(crate::push::host_pane(spaces[i + 1]) == Some(pane));
                    }
                }
            }
        } else {
            assert forall|k: int| 0 <= k < o.requests.len() implies sidebar_request(
                #[trigger] o.requests[k],
            ) by {
                if k < first.requests.len() {
                    assert(o.requests[k] == first.requests[k]);
                } else {
                    assert(o.requests[k] == rest.requests[k - first.requests.len()]);
                }
            }
        }
    }
}

/// A request that sets something.
pub open spec fn reports(request: crate::daemon::RequestView) -> bool {
    request is ReportAgent || request is ReportPane || request is ReportWorkspace
}

/// A space with an empty status has its row withdrawn: nothing is reported for
/// it, and what was on record for it is forgotten and cleared.
pub proof fn law_empty_status_is_withdrawn(
    sp: Space,
    config: Config,
    source: Seq<char>,
    t: crate::surfaced::SurfacedView,
    ok: spec_fn(nat) -> bool,
)
    requires
        crate::push::space_text(sp, config).len() == 0,
    ensures
        ({
            let o = crate::push::push_space(sp, config, source, t, ok);
            &&& forall|k: int| 0 <= k < o.requests.len() ==> !reports(#[trigger] o.requests[k])
            &&& match config.mode {
                Mode::AgentsPanel => crate::push::host_pane(sp) matches Some(pane) ==> {
                    &&& !o.surfaced.pseudo.contains(pane)
                    &&& !o.surfaced.metadata.contains_key(pane)
                    &&& o.requests.contains(crate::daemon::release(pane, source))
                    &&& t.metadata.contains_key(pane) ==> o.requests.contains(
                        crate::daemon::clear_pane(pane, source, t.metadata[pane]),
                    )
                },
                Mode::Sidebar => {
                    &&& !o.surfaced.workspaces.contains_key(sp@.id)
                    &&& t.workspaces.contains_key(sp@.id) ==> o.requests.contains(
                        crate::daemon::clear_workspace(sp@.id, source, t.workspaces[sp@.id]),
                    )
                },
            }
        }),
{
    let o = crate::push::push_space(sp, config, source, t, ok);
    match config.mode {
        Mode::AgentsPanel => {
            let drops = crate::daemon::releases(crate::push::extra_claims(sp), source);
            if let Some(pane) = crate::push::host_pane(sp) {
                assert(o.requests[drops.len() as int] == crate::daemon::release(pane, source));
                if t.metadata.contains_key(pane) {
                    assert(o.requests[drops.len() as int + 1] == crate::daemon::clear_pane(
                        pane,
                        source,
                        t.metadata[pane],
                    ));
                }
            }
        },
        Mode::Sidebar => {
            let drops = crate::daemon::releases(sp@.pseudo_panes, source);
            if t.workspaces.contains_key(sp@.id) {
                assert(o.requests[drops.len() as int] == crate::daemon::clear_workspace(
                    sp@.id,
                    source,
                    t.workspaces[sp@.id],
                ));
            }
        },
    }
}

/// A space with a status to show, where the host accepts everything, has exactly
/// that status reported, on the token of its severity, and that token on record.
pub proof fn law_status_is_reported(
    sp: Space,
    config: Config,
    source: Seq<char>,
    t: crate::surfaced::SurfacedView,
    ok: spec_fn(nat) -> bool,
)
    requires
        crate::push::space_text(sp, config).len() > 0,
        all_accepted(crate::push::push_space(sp, config, source, t, ok).requests, ok),
    ensures
        ({
            let o = crate::push::push_space(sp, config, source, t, ok);
            let token = crate::push::space_token(sp);
            let status = crate::push::space_text(sp, config);
            let ttl_ms = crate::daemon::ttl_of(config);
            match config.mode {
                Mode::AgentsPanel => crate::push::host_pane(sp) matches Some(pane) ==> {
                    &&& o.requests.len() > 0
                    &&& o.requests.last() == (crate::daemon::RequestView::ReportPane {
                        pane,
                        source,
                        token,
                        status,
                        ttl_ms,
                    })
                    &&& o.surfaced.pseudo.contains(pane)
                    &&& o.surfaced.metadata.contains_key(pane) && o.surfaced.metadata[pane] == token
                },
                Mode::Sidebar => {
                    &&& o.requests.len() > 0
                    &&& o.requests.last() == (crate::daemon::RequestView::ReportWorkspace {
                        workspace: sp@.id,
                        source,
                        token,
                        status,
                        ttl_ms,
                    })
                    &&& o.surfaced.workspaces.contains_key(sp@.id)
                        && o.surfaced.workspaces[sp@.id] == token
                },
            }
        }),
{
    let o = crate::push::push_space(sp, config, source, t, ok);
    match config.mode {
        Mode::AgentsPanel => {
            let drops = crate::daemon::releases(crate::push::extra_claims(sp), source);
            if let Some(pane) = crate::push::host_pane(sp) {
                let later = crate::push::later(ok, drops.len());
                assert(ok(drops.len()));
                assert(later(0));
                assert(ok((o.requests.len() - 1) as nat));
            }
        },
        Mode::Sidebar => {
            assert(ok((o.requests.len() - 1) as nat));
        },
    }
}

/// A space keeps at most one entry in the agents panel: where the host accepts
/// everything, of the panes that carried our pseudo-agent only the host pane may
/// still do so, and it does exactly while there is a status to show. In sidebar
/// mode none does.
pub proof fn law_one_entry_per_space(
    h: HostView,
    sp: Space,
    config: Config,
    source: Seq<char>,
    t: crate::surfaced::SurfacedView,
    ok: spec_fn(nat) -> bool,
)
    requires
        all_accepted(crate::push::push_space(sp, config, source, t, ok).requests, ok),
    ensures
        ({
            let o = crate::push::push_space(sp, config, source, t, ok);
            let after = answered(h, o.requests, ok);
            forall|p: Seq<char>|
                sp@.pseudo_panes.contains(p) ==> (#[trigger] after.agents.contains(p)
                    <==> config.mode is AgentsPanel && crate::push::host_pane(sp) == Some(p)
                    && crate::push::space_text(sp, config).len() > 0)
        }),
{
    let o = crate::push::push_space(sp, config, source, t, ok);
    let after = answered(h, o.requests, ok);
    let all = sp@.pseudo_panes;
    if all.len() > 0 {
        match config.mode {
            Mode::AgentsPanel => {
                let extra = crate::push::extra_claims(sp);
                let drops = crate::daemon::releases(extra, source);
                let pane = all[0];
                lemma_releases(h, extra, source, ok);
                assert forall|p: Seq<char>| all.contains(p) implies p == pane || extra.contains(
                    p,
                ) by {
                    let k = all.index_of(p);
                    if k > 0 {
                        assert(extra[k - 1] == p);
                    }
                }
                assert forall|k: nat| #![trigger ok(k)] k < extra.len() implies ok(k) by {
                    assert(k < o.requests.len());
                }
                let next = o.requests[drops.len() as int];
                let head = drops.push(next);
                lemma_answered_push(h, drops, next, ok);
                assert(ok(drops.len()));
                let tail = o.requests.skip(head.len() as int);
                assert(o.requests =~= head + tail);
                lemma_answered_concat(h, head, tail, ok);
                assert(forall|k: int| 0 <= k < tail.len() ==> !agent_request(#[trigger] tail[k]));
                lemma_agents_untouched(
                    answered(h, head, ok),
                    tail,
                    crate::push::later(ok, head.len()),
                );
            },
            Mode::Sidebar => {
                let drops = crate::daemon::releases(all, source);
                lemma_releases(h, all, source, ok);
                assert forall|k: nat| #![trigger ok(k)] k < all.len() implies ok(k) by {
                    assert(k < o.requests.len());
                }
                let tail = o.requests.skip(drops.len() as int);
                assert(o.requests =~= drops + tail);
                lemma_answered_concat(h, drops, tail, ok);
                assert(forall|k: int| 0 <= k < tail.len() ==> !agent_request(#[trigger] tail[k]));
                lemma_agents_untouched(
                    answered(h, drops, ok),
                    tail,
                    crate::push::later(ok, drops.len()),
                );
            },
        }
    }
}

// ---- what a run asks and leaves alone ---------------------------------------

/// A request of ours: under our source and our agent's name, and a report of a
/// status is of a status token, not empty, and lives for three refreshes.
pub open spec fn ours(
    request: crate::daemon::RequestView,
    config: Config,
    source: Seq<char>,
) -> bool {
    match request {
        crate::daemon::RequestView::ReleaseAgent { source: s, agent, .. } => s == source && agent
            == crate::collect::PSEUDO_AGENT@,
        crate::daemon::RequestView::ReportAgent { source: s, agent, state, .. } => s == source
            && agent == crate::collect::PSEUDO_AGENT@ && state == "idle"@,
        crate::daemon::RequestView::ClearPane { source: s, .. } => s == source,
        crate::daemon::RequestView::ClearWorkspace { source: s, .. } => s == source,
        crate::daemon::RequestView::ReportPane { source: s, token, status, ttl_ms, .. } => s
            == source && crate::daemon::status_token_word(token) && status.len() > 0 && ttl_ms
            == crate::daemon::ttl_of(config),
        crate::daemon::RequestView::ReportWorkspace { source: s, token, status, ttl_ms, .. } => s
            == source && crate::daemon::status_token_word(token) && status.len() > 0 && ttl_ms
            == crate::daemon::ttl_of(config),
        crate::daemon::RequestView::Notify { .. } => false,
    }
}

/// Every request of a refresh is made under our source, and every status that is
/// reported carries its time to live, so that it clears itself if the updater
/// dies.
pub proof fn law_statuses_expire(
    spaces: Seq<Space>,
    config: Config,
    source: Seq<char>,
    t: crate::surfaced::SurfacedView,
    ok: spec_fn(nat) -> bool,
)
    ensures
        ({
            let o = crate::push::pushed(spaces, config, source, t, ok);
            forall|k: int| 0 <= k < o.requests.len() ==> ours(#[trigger] o.requests[k], config, source)
        }),
    decreases spaces.len(),
{
    if spaces.len() > 0 {
        let o = crate::push::pushed(spaces, config, source, t, ok);
        let first = crate::push::push_space(spaces[0], config, source, t, ok);
        let later = crate::push::later(ok, first.requests.len());
        let rest = crate::push::pushed(spaces.skip(1), config, source, first.surfaced, later);
        law_statuses_expire(spaces.skip(1), config, source, first.surfaced, later);
        assert forall|k: int| 0 <= k < o.requests.len() implies ours(
            #[trigger] o.requests[k],
            config,
            source,
        ) by {
            if k < first.requests.len() {
                assert(o.requests[k] == first.requests[k]);
            } else {
                assert(o.requests[k] == rest.requests[k - first.requests.len()]);
            }
        }
    }
}

/// Some spaces cost no calls and change nothing on record: in agents-panel mode one
/// with neither an entry nor a spare pane, so that no pane with a real agent is
/// ever written on; in sidebar mode one with an empty status that has nothing set.
pub proof fn law_nothing_to_do_costs_nothing(
    sp: Space,
    config: Config,
    source: Seq<char>,
    t: crate::surfaced::SurfacedView,
    ok: spec_fn(nat) -> bool,
)
    requires
        sp@.pseudo_panes.len() == 0,
        match config.mode {
            Mode::AgentsPanel => sp@.spare_panes.len() == 0,
            Mode::Sidebar => crate::push::space_text(sp, config).len() == 0
                && !t.workspaces.contains_key(sp@.id),
        },
    ensures
        ({
            let o = crate::push::push_space(sp, config, source, t, ok);
            o.requests.len() == 0 && o.surfaced == t
        }),
{
    let o = crate::push::push_space(sp, config, source, t, ok);
    assert(sp@.pseudo_panes =~= Seq::<Seq<char>>::empty());
    assert(t.pseudo.difference(Seq::<Seq<char>>::empty().to_set()) =~= t.pseudo);
    if config.mode is Sidebar {
        assert(t.workspaces.remove(sp@.id) =~= t.workspaces);
    }
}

/// A pane whose claim is refused has just closed: no status is reported on it, and
/// what is on record for it stays.
pub proof fn law_refused_claim_reports_nothing(
    sp: Space,
    config: Config,
    source: Seq<char>,
    t: crate::surfaced::SurfacedView,
    ok: spec_fn(nat) -> bool,
)
    requires
        config.mode is AgentsPanel,
        crate::push::space_text(sp, config).len() > 0,
        crate::push::host_pane(sp) is Some,
        !ok(crate::push::extra_claims(sp).len()),
    ensures
        ({
            let o = crate::push::push_space(sp, config, source, t, ok);
            &&& forall|k: int| 0 <= k < o.requests.len() ==> !(#[trigger] o.requests[k] is ReportPane)
            &&& o.surfaced.metadata == t.metadata
            &&& o.surfaced.pseudo.subset_of(t.pseudo)
        }),
{
    let n = crate::push::extra_claims(sp).len();
    let later = crate::push::later(ok, n);
    assert(later(0) == ok(n));
}

// ---- leaving nothing behind -------------------------------------------------

/// A sidebar run claims nothing, and releases the panes that it was told of.
proof fn lemma_sidebar_agents(
    h: HostView,
    sp: Space,
    config: Config,
    source: Seq<char>,
    t: crate::surfaced::SurfacedView,
    ok: spec_fn(nat) -> bool,
)
    requires
        config.mode is Sidebar,
        releases_accepted(crate::push::push_space(sp, config, source, t, ok).requests, ok),
    ensures
        ({
            let after = answered(
                h,
                crate::push::push_space(sp, config, source, t, ok).requests,
                ok,
            );
            &&& after.agents.subset_of(h.agents)
            &&& forall|p: Seq<char>|
                sp@.pseudo_panes.contains(p) ==> !#[trigger] after.agents.contains(p)
        }),
{
    let o = crate::push::push_space(sp, config, source, t, ok);
    let drops = crate::daemon::releases(sp@.pseudo_panes, source);
    lemma_releases(h, sp@.pseudo_panes, source, ok);
    assert forall|k: nat| #![trigger ok(k)] k < drops.len() implies ok(k) by {
        assert(o.requests[k as int] is ReleaseAgent);
    }
    let tail = o.requests.skip(drops.len() as int);
    assert(o.requests =~= drops + tail);
    lemma_answered_concat(h, drops, tail, ok);
    assert(forall|k: int| 0 <= k < tail.len() ==> !agent_request(#[trigger] tail[k]));
    lemma_agents_untouched(answered(h, drops, ok), tail, crate::push::later(ok, drops.len()));
}

/// Sidebar mode cleans up after agents-panel mode: after a refresh no pane of the
/// spaces carries our pseudo-agent any more, and no pane was given it.
pub proof fn law_sidebar_releases_leftover_agents(
    h: HostView,
    spaces: Seq<Space>,
    config: Config,
    source: Seq<char>,
    t: crate::surfaced::SurfacedView,
    ok: spec_fn(nat) -> bool,
)
    requires
        config.mode is Sidebar,
        releases_accepted(crate::push::pushed(spaces, config, source, t, ok).requests, ok),
    ensures
        ({
            let after = answered(
                h,
                crate::push::pushed(spaces, config, source, t, ok).requests,
                ok,
            );
            &&& after.agents.subset_of(h.agents)
            &&& forall|i: int, p: Seq<char>|
                #![trigger spaces[i]@.pseudo_panes.contains(p)]
                0 <= i < spaces.len() && spaces[i]@.pseudo_panes.contains(p)
                    ==> !after.agents.contains(p)
        }),
    decreases spaces.len(),
{
    if spaces.len() > 0 {
        let first = crate::push::push_space(spaces[0], config, source, t, ok);
        let later = crate::push::later(ok, first.requests.len());
        let todo = spaces.skip(1);
        let rest = crate::push::pushed(todo, config, source, first.surfaced, later);
        lemma_releases_accepted_concat(first.requests, rest.requests, ok);
        lemma_sidebar_agents(h, spaces[0], config, source, t, ok);
        lemma_answered_concat(h, first.requests, rest.requests, ok);
        let mid = answered(h, first.requests, ok);
        law_sidebar_releases_leftover_agents(mid, todo, config, source, first.surfaced, later);
        let after = answered(mid, rest.requests, later);
        assert forall|i: int, p: Seq<char>|
            #![trigger spaces[i]@.pseudo_panes.contains(p)]
            0 <= i < spaces.len() && spaces[i]@.pseudo_panes.contains(p) implies
            !after.agents.contains(p) by {
            if i == 0 {
                assert(!mid.agents.contains(p));
            } else {
                assert(todo[i - 1]@.pseudo_panes.contains(p));
            }
        }
    }
}

/// Nothing is left behind: from a true record, whatever a run of refreshes pushed,
/// in either mode, sweeping the record that it leaves clears the host of everything
/// that is ours. So the next daemon, in the other mode too, starts afresh.
pub proof fn law_nothing_is_left_behind(
    h: HostView,
    run: Seq<Refresh>,
    t: crate::surfaced::SurfacedView,
    surfaced: Surfaced,
    source: Seq<char>,
    swept: spec_fn(nat) -> bool,
)
    requires
        on_record(h, t),
        h.agents.subset_of(t.pseudo),
        all_clears_accepted(run, t),
        all_releases_accepted(run, t),
        surfaced@ == record_over(run, t),
        all_accepted(crate::daemon::sweep_of(surfaced, source), swept),
    ensures
        ({
            let after = answered(
                host_over(run, h, t),
                crate::daemon::sweep_of(surfaced, source),
                swept,
            );
            &&& after.agents == Set::<Seq<char>>::empty()
            &&& after.panes == Set::<(Seq<char>, Seq<char>)>::empty()
            &&& after.workspaces == Set::<(Seq<char>, Seq<char>)>::empty()
        }),
{
    lemma_run_keeps_record(h, run, t);
    lemma_run_keeps_claims(h, run, t);
    law_shutdown_clears_everything(host_over(run, h, t), surfaced, source, swept);
}

spec fn agent_request(request: crate::daemon::RequestView) -> bool {
    request is ReleaseAgent || request is ReportAgent
}

/// Requests about tokens leave the agents alone.
proof fn lemma_agents_untouched(
    h: HostView,
    requests: Seq<crate::daemon::RequestView>,
    ok: spec_fn(nat) -> bool,
)
    requires
        forall|k: int| 0 <= k < requests.len() ==> !agent_request(#[trigger] requests[k]),
    ensures
        answered(h, requests, ok).agents == h.agents,
    decreases requests.len(),
{
    if requests.len() > 0 {
        let init = requests.drop_last();
        assert forall|k: int| 0 <= k < init.len() implies !agent_request(#[trigger] init[k]) by {
            assert(init[k] == requests[k]);
        }
        lemma_agents_untouched(h, init, ok);
        assert(requests.last() == requests[requests.len() - 1]);
    }
}

} // verus!
