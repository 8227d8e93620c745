//! Snapshot → spaces, worktree grouping, and git status.
//!
//! [`collect_spaces`] turns `workspace.list` + per-workspace `pane.list` into
//! [`Space`]s (recording each space's cwd and classifying panes into agent /
//! spare / pseudo buckets). [`group_worktree_families`] tags worktree-child
//! workspaces with their parent so [`snapshot`] can drop them — worktree children
//! render as single-row indented entries in the sidebar with no room for a status
//! row, so surfacing status on them is wasted. Nothing is summed across the
//! family: each work tree has its own status, and the child's own top-level card
//! (if any) is where it would show.

use crate::git;
use crate::model::{GitStatus, PaneInfo, Space, WorkspaceInfo, WorktreeListResult};
use crate::text;
use vstd::prelude::*;

verus! {

/// Pseudo-agent label marking our agents-panel entries (agents-panel mode) and
/// used to recognise / clean them up in sidebar mode.
pub const PSEUDO_AGENT: &'static str = "git";

// ---- panes ------------------------------------------------------------------

/// What a pane hosts.
#[derive(Debug, Clone, Copy, PartialEq, Eq, Structural)]
pub enum Bucket {
    /// A real agent.
    Agent,
    /// A plain shell.
    Spare,
    /// Our own pseudo-agent.
    Pseudo,
}

/// The bucket of a pane with this agent.
pub open spec fn bucket_of(agent: Option<Seq<char>>) -> Bucket {
    match agent {
        Some(a) => if a == PSEUDO_AGENT@ {
            Bucket::Pseudo
        } else if a.len() > 0 {
            Bucket::Agent
        } else {
            Bucket::Spare
        },
        None => Bucket::Spare,
    }
}

/// The ids of the panes in a bucket, in order.
pub open spec fn ids_in(panes: Seq<PaneInfo>, bucket: Bucket) -> Seq<Seq<char>>
    decreases panes.len(),
{
    if panes.len() == 0 {
        Seq::empty()
    } else {
        let init = ids_in(panes.drop_last(), bucket);
        if bucket_of(text::opt(panes.last().agent)) == bucket {
            init.push(panes.last().pane_id@)
        } else {
            init
        }
    }
}

/// The first non-empty cwd of the panes.
pub open spec fn first_cwd(panes: Seq<PaneInfo>) -> Option<Seq<char>>
    decreases panes.len(),
{
    if panes.len() == 0 {
        None
    } else if first_cwd(panes.drop_last()) is Some {
        first_cwd(panes.drop_last())
    } else {
        match panes.last().cwd {
            Some(c) => if c@.len() > 0 {
                Some(c@)
            } else {
                None
            },
            None => None,
        }
    }
}

/// The space that a workspace and its panes make.
pub open spec fn collected(
    ws: WorkspaceInfo,
    panes: Seq<PaneInfo>,
) -> crate::model::SpaceView {
    crate::model::SpaceView {
        id: ws.workspace_id@,
        label: if ws.label@.len() == 0 {
            ws.workspace_id@
        } else {
            ws.label@
        },
        focused: ws.focused,
        pane_count: panes.len(),
        cwd: first_cwd(panes),
        agent_panes: ids_in(panes, Bucket::Agent),
        spare_panes: ids_in(panes, Bucket::Spare),
        pseudo_panes: ids_in(panes, Bucket::Pseudo),
        family_parent: None,
    }
}

/// The bucket of a pane with this agent.
pub fn pane_bucket(agent: &Option<String>) -> (r: Bucket)
    ensures
        r == bucket_of(text::opt(*agent)),
{
    match agent {
        Some(a) => {
            if text::same(a.as_str(), PSEUDO_AGENT) {
                Bucket::Pseudo
            } else if !a.as_str().is_empty() {
                Bucket::Agent
            } else {
                Bucket::Spare
            }
        },
        None => Bucket::Spare,
    }
}

/// One workspace and its panes as a space, its git status still blank.
pub fn collect_space(ws: &WorkspaceInfo, panes: &Vec<PaneInfo>) -> (s: Space)
    ensures
        s@ == collected(*ws, panes@),
        s.git.blank(),
{
    let mut agent_panes: Vec<String> = Vec::new();  // panes with a real agent
    let mut spare_panes: Vec<String> = Vec::new();  // plain shell panes
    let mut pseudo_panes: Vec<String> = Vec::new();  // panes already carrying our agent
    let mut cwd: Option<String> = None;
    let mut i: usize = 0;
    assert(panes@.take(0) =~= Seq::<PaneInfo>::empty());
    assert(text::views(agent_panes@) =~= Seq::<Seq<char>>::empty());
    while i < panes.len()
        invariant
            i <= panes@.len(),
            text::opt(cwd) == first_cwd(panes@.take(i as int)),
            text::views(agent_panes@) == ids_in(panes@.take(i as int), Bucket::Agent),
            text::views(spare_panes@) == ids_in(panes@.take(i as int), Bucket::Spare),
            text::views(pseudo_panes@) == ids_in(panes@.take(i as int), Bucket::Pseudo),
        decreases panes@.len() - i,
    {
        let pane = &panes[i];
        assert(panes@.take(i + 1).drop_last() =~= panes@.take(i as int));
        let ghost (a, s, p) = (agent_panes@, spare_panes@, pseudo_panes@);
        // First pane with a non-empty cwd wins.
        if cwd.is_none() {
            if let Some(c) = &pane.cwd {
                if !c.as_str().is_empty() {
                    cwd = Some(c.clone());
                }
            }
        }
        match pane_bucket(&pane.agent) {
            Bucket::Pseudo => {
                pseudo_panes.push(pane.pane_id.clone());
                assert(text::views(pseudo_panes@) =~= text::views(p).push(pane.pane_id@));
            },
            Bucket::Agent => {
                agent_panes.push(pane.pane_id.clone());
                assert(text::views(agent_panes@) =~= text::views(a).push(pane.pane_id@));
            },
            Bucket::Spare => {
                spare_panes.push(pane.pane_id.clone());
                assert(text::views(spare_panes@) =~= text::views(s).push(pane.pane_id@));
            },
        }
        i += 1;
    }
    assert(panes@.take(i as int) =~= panes@);
    let label = if ws.label.as_str().is_empty() {
        ws.workspace_id.clone()
    } else {
        ws.label.clone()
    };
    Space {
        id: ws.workspace_id.clone(),
        label,
        focused: ws.focused,
        pane_count: panes.len(),
        cwd,
        agent_panes,
        spare_panes,
        pseudo_panes,
        git: GitStatus::default(),
        family_parent: None,
    }
}

/// The views of a run of spaces.
pub open spec fn space_views(spaces: Seq<Space>) -> Seq<crate::model::SpaceView> {
    Seq::new(spaces.len(), |i: int| spaces[i]@)
}

/// The spaces that a listing of workspaces and their panes makes.
pub open spec fn all_collected(
    listing: Seq<(WorkspaceInfo, Vec<PaneInfo>)>,
) -> Seq<crate::model::SpaceView> {
    Seq::new(listing.len(), |i: int| collected(listing[i].0, listing[i].1@))
}

/// Classify each space's panes into agent / spare / pseudo buckets, recording the
/// first pane's cwd (where git will run).
///
/// `listing` holds the entries of `workspace.list`, each with the answer of its
/// `pane.list`, whose panes arrive already ordered — so the "first pane's cwd"
/// matches the host's own branch derivation.
pub fn collect_spaces(listing: &Vec<(WorkspaceInfo, Vec<PaneInfo>)>) -> (spaces: Vec<Space>)
    ensures
        space_views(spaces@) == all_collected(listing@),
        forall|i: int| 0 <= i < spaces@.len() ==> (#[trigger] spaces@[i]).git.blank(),
{
    let mut spaces: Vec<Space> = Vec::new();
    let mut i: usize = 0;
    while i < listing.len()
        invariant
            i <= listing@.len(),
            spaces@.len() == i,
            forall|k: int|
                0 <= k < i ==> (#[trigger] spaces@[k])@ == collected(listing@[k].0, listing@[k].1@)
                    && spaces@[k].git.blank(),
        decreases listing@.len() - i,
    {
        spaces.push(collect_space(&listing[i].0, &listing[i].1));
        i += 1;
    }
    assert(space_views(spaces@) =~= all_collected(listing@));
    spaces
}

// ---- worktree families ------------------------------------------------------

/// The ids of a run of spaces.
pub open spec fn ids_of(spaces: Seq<crate::model::SpaceView>) -> Seq<Seq<char>> {
    Seq::new(spaces.len(), |i: int| spaces[i].id)
}

/// The last position at which `id` stands.
pub open spec fn last_at(ids: Seq<Seq<char>>, id: Seq<char>) -> Option<int>
    decreases ids.len(),
{
    if ids.len() == 0 {
        None
    } else if ids.last() == id {
        Some(ids.len() - 1)
    } else {
        last_at(ids.drop_last(), id)
    }
}

/// The repository that an answer of `worktree.list` is about; none where the
/// method failed (the workspace is not in a repository) or gives no key.
pub open spec fn repo_of(listing: Option<WorktreeListResult>) -> Option<Seq<char>> {
    match listing {
        Some(res) => if res.source.repo_key@.len() > 0 {
            Some(res.source.repo_key@)
        } else {
            None
        },
        None => None,
    }
}

/// The repository is among those that the answers are about.
pub open spec fn seen(listings: Seq<Option<WorktreeListResult>>, repo: Seq<char>) -> bool {
    exists|j: int| 0 <= j < listings.len() && repo_of(#[trigger] listings[j]) == Some(repo)
}

/// The parent of the family that the last of the answers forms: the open
/// workspace of the main checkout, when the repository was not seen before.
pub open spec fn family_head(
    ids: Seq<Seq<char>>,
    listings: Seq<Option<WorktreeListResult>>,
) -> Option<Seq<char>> {
    match repo_of(listings.last()) {
        Some(repo) => if seen(listings.drop_last(), repo) {
            None
        } else {
            match text::opt(listings.last()->0.source.source_workspace_id) {
                Some(id) => if last_at(ids, id) is Some {
                    Some(id)
                } else {
                    None
                },
                None => None,
            }
        },
        None => None,
    }
}

/// The answer lists an open worktree in workspace `i`.
pub open spec fn lists_child(
    ids: Seq<Seq<char>>,
    listing: WorktreeListResult,
    i: int,
) -> bool {
    exists|w: int|
        0 <= w < listing.worktrees@.len() && text::opt(
            (#[trigger] listing.worktrees@[w]).open_workspace_id,
        ) == Some(ids[i])
}

/// The parent that the answers give to workspace `i`: the head of the last family
/// that lists it (by the last workspace of that id) and of which it is not itself
/// the head.
pub open spec fn parent_of(
    ids: Seq<Seq<char>>,
    listings: Seq<Option<WorktreeListResult>>,
    i: int,
) -> Option<Seq<char>>
    decreases listings.len(),
{
    if listings.len() == 0 {
        None
    } else {
        match family_head(ids, listings) {
            Some(head) => if head != ids[i] && last_at(ids, ids[i]) == Some(i) && lists_child(
                ids,
                listings.last()->0,
                i,
            ) {
                Some(head)
            } else {
                parent_of(ids, listings.drop_last(), i)
            },
            None => parent_of(ids, listings.drop_last(), i),
        }
    }
}

/// The spaces with the worktree children tagged with their parents.
pub open spec fn grouped(
    spaces: Seq<crate::model::SpaceView>,
    listings: Seq<Option<WorktreeListResult>>,
) -> Seq<crate::model::SpaceView> {
    Seq::new(
        spaces.len(),
        |i: int|
            {
                match parent_of(ids_of(spaces), listings, i) {
                    Some(p) => crate::model::SpaceView { family_parent: Some(p), ..spaces[i] },
                    None => spaces[i],
                }
            },
    )
}

proof fn lemma_last_at(ids: Seq<Seq<char>>, id: Seq<char>)
    ensures
        last_at(ids, id) matches Some(i) ==> 0 <= i < ids.len() && ids[i] == id,
        last_at(ids, id) is None ==> forall|i: int| 0 <= i < ids.len() ==> ids[i] != id,
        last_at(ids, id) is Some <==> ids.contains(id),
    decreases ids.len(),
{
    if ids.len() > 0 {
        let init = ids.drop_last();
        lemma_last_at(init, id);
        if ids.last() == id {
            assert(ids[ids.len() - 1] == id);
        } else if last_at(init, id) is None {
            assert forall|i: int| 0 <= i < ids.len() implies ids[i] != id by {
                if i < init.len() {
                    assert(init[i] == ids[i]);
                }
            }
        }
    }
}

/// The last space with this id.
fn last_space(spaces: &Vec<Space>, id: &str) -> (r: Option<usize>)
    ensures
        r is Some <==> last_at(ids_of(space_views(spaces@)), id@) is Some,
        r matches Some(i) ==> i < spaces@.len() && last_at(ids_of(space_views(spaces@)), id@)
            == Some(i as int),
{
    let ghost ids = ids_of(space_views(spaces@));
    let mut n: usize = spaces.len();
    assert(ids.take(n as int) =~= ids);
    while n > 0
        invariant
            ids == ids_of(space_views(spaces@)),
            n <= spaces@.len(),
            last_at(ids, id@) == last_at(ids.take(n as int), id@),
        decreases n,
    {
        assert(ids.take(n as int).drop_last() =~= ids.take(n - 1));
        assert(ids.take(n as int).last() == spaces@[n - 1].id@);
        if text::same(spaces[n - 1].id.as_str(), id) {
            return Some(n - 1);
        }
        n -= 1;
    }
    None
}

/// Whether the repository is among those of the first `n` answers.
fn seen_before(listings: &Vec<Option<WorktreeListResult>>, n: usize, repo: &str) -> (r: bool)
    requires
        n <= listings@.len(),
        repo@.len() > 0,
    ensures
        r == seen(listings@.take(n as int), repo@),
{
    let mut j: usize = 0;
    while j < n
        invariant
            j <= n <= listings@.len(),
            repo@.len() > 0,
            forall|k: int| 0 <= k < j ==> repo_of(#[trigger] listings@[k]) != Some(repo@),
        decreases n - j,
    {
        if let Some(res) = &listings[j] {
            if text::same(res.source.repo_key.as_str(), repo) {
                assert(repo_of(listings@.take(n as int)[j as int]) == Some(repo@));
                return true;
            }
        }
        j += 1;
    }
    assert(forall|k: int| 0 <= k < n ==> listings@.take(n as int)[k] == listings@[k]);
    false
}

/// The parent of the family that answer `j` forms, if it forms one.
fn head_of(spaces: &Vec<Space>, listings: &Vec<Option<WorktreeListResult>>, j: usize) -> (r: Option<
    String,
>)
    requires
        j < listings@.len(),
    ensures
        text::opt(r) == family_head(ids_of(space_views(spaces@)), listings@.take(j + 1)),
{
    let ghost so_far = listings@.take(j + 1);
    assert(so_far.drop_last() =~= listings@.take(j as int));
    assert(so_far.last() == listings@[j as int]);
    if let Some(res) = &listings[j] {
        if res.source.repo_key.as_str().is_empty() || seen_before(
            listings,
            j,
            res.source.repo_key.as_str(),
        ) {
            return None;
        }
        // The family only forms when the repo's main checkout is itself open.
        if let Some(id) = &res.source.source_workspace_id {
            if last_space(spaces, id.as_str()).is_some() {
                return Some(id.clone());
            }
        }
    }
    None
}

/// The spaces tagged by the first `n` worktrees of a family with this head.
spec fn tagged(
    spaces: Seq<crate::model::SpaceView>,
    listing: WorktreeListResult,
    head: Seq<char>,
    n: int,
) -> Seq<crate::model::SpaceView> {
    let ids = ids_of(spaces);
    Seq::new(
        spaces.len(),
        |i: int|
            {
                if head != ids[i] && last_at(ids, ids[i]) == Some(i) && exists|w: int|
                    0 <= w < n && text::opt((#[trigger] listing.worktrees@[w]).open_workspace_id)
                        == Some(ids[i]) {
                    crate::model::SpaceView { family_parent: Some(head), ..spaces[i] }
                } else {
                    spaces[i]
                }
            },
    )
}

/// Tags one space with a parent.
fn set_parent(spaces: &mut Vec<Space>, i: usize, parent: &str)
    requires
        i < old(spaces)@.len(),
    ensures
        space_views(final(spaces)@) == space_views(old(spaces)@).update(
            i as int,
            crate::model::SpaceView { family_parent: Some(parent@), ..old(spaces)@[i as int]@ },
        ),
        forall|k: int|
            0 <= k < old(spaces)@.len() ==> (#[trigger] final(spaces)@[k]).git == old(
                spaces,
            )@[k].git,
{
    let ghost prev = spaces@;
    spaces[i].family_parent = Some(String::from_str(parent));
    assert(space_views(spaces@) =~= space_views(prev).update(
        i as int,
        crate::model::SpaceView { family_parent: Some(parent@), ..prev[i as int]@ },
    ));
}

/// Tags the children that one family lists.
fn tag_family(spaces: &mut Vec<Space>, listing: &WorktreeListResult, head: &str)
    ensures
        space_views(final(spaces)@) == tagged(
            space_views(old(spaces)@),
            *listing,
            head@,
            listing.worktrees@.len() as int,
        ),
        final(spaces)@.len() == old(spaces)@.len(),
        forall|k: int|
            0 <= k < old(spaces)@.len() ==> (#[trigger] final(spaces)@[k]).git == old(
                spaces,
            )@[k].git,
{
    let ghost start = space_views(spaces@);
    let ghost ids = ids_of(start);
    let mut w: usize = 0;
    assert(start =~= tagged(start, *listing, head@, 0));
    while w < listing.worktrees.len()
        invariant
            start == space_views(old(spaces)@),
            ids == ids_of(start),
            w <= listing.worktrees@.len(),
            space_views(spaces@) == tagged(start, *listing, head@, w as int),
            spaces@.len() == old(spaces)@.len(),
            forall|k: int|
                0 <= k < spaces@.len() ==> (#[trigger] spaces@[k]).git == old(spaces)@[k].git,
        decreases listing.worktrees@.len() - w,
    {
        let ghost now = space_views(spaces@);
        let ghost next = tagged(start, *listing, head@, w + 1);
        assert(ids_of(now) =~= ids);
        assert forall|i: int| 0 <= i < start.len() implies now[i].id == start[i].id by {}
        let ghost open = text::opt(listing.worktrees@[w as int].open_workspace_id);
        assert forall|i: int| 0 <= i < start.len() implies #[trigger] next[i] == if head@ != ids[i]
            && last_at(ids, ids[i]) == Some(i) && open == Some(ids[i]) {
            crate::model::SpaceView { family_parent: Some(head@), ..start[i] }
        } else {
            now[i]
        } by {
            if exists|v: int|
                0 <= v < w + 1 && text::opt(
                    (#[trigger] listing.worktrees@[v]).open_workspace_id,
                ) == Some(ids[i]) {
                let v = choose|v: int|
                    0 <= v < w + 1 && text::opt(
                        (#[trigger] listing.worktrees@[v]).open_workspace_id,
                    ) == Some(ids[i]);
                if v < w {
                    assert(text::opt(listing.worktrees@[v].open_workspace_id) == Some(ids[i]));
                }
            }
        }
        if let Some(child) = &listing.worktrees[w].open_workspace_id {
            proof {
                lemma_last_at(ids, child@);
            }
            if let Some(i) = last_space(spaces, child.as_str()) {
                assert(ids[i as int] == child@);
                if !text::same(child.as_str(), head) {
                    set_parent(spaces, i, head);
                    assert(space_views(spaces@) =~= next);
                } else {
                    assert(space_views(spaces@) =~= next);
                }
            } else {
                assert(space_views(spaces@) =~= next);
            }
        } else {
            assert(space_views(spaces@) =~= next);
        }
        w += 1;
    }
}

/// Tag worktree-child spaces with their group parent, from one `worktree.list` per
/// unique repo: the first one about it. `listings` holds the answers, one per space
/// in order, `None` where the method failed. Children whose repo's main checkout is
/// open get `family_parent`.
///
/// `worktree.list` errors for non-repo workspaces; that error is folded into
/// "leave it standalone".
pub fn group_worktree_families(
    spaces: &mut Vec<Space>,
    listings: &Vec<Option<WorktreeListResult>>,
)
    ensures
        space_views(final(spaces)@) == grouped(space_views(old(spaces)@), listings@),
        forall|i: int|
            0 <= i < old(spaces)@.len() ==> (#[trigger] final(spaces)@[i]).git == old(
                spaces,
            )@[i].git,
{
    let ghost start = space_views(spaces@);
    let ghost ids = ids_of(start);
    let mut j: usize = 0;
    assert(listings@.take(0) =~= Seq::<Option<WorktreeListResult>>::empty());
    assert(start =~= grouped(start, listings@.take(0)));
    while j < listings.len()
        invariant
            start == space_views(old(spaces)@),
            ids == ids_of(start),
            j <= listings@.len(),
            space_views(spaces@) == grouped(start, listings@.take(j as int)),
            spaces@.len() == old(spaces)@.len(),
            forall|k: int|
                0 <= k < spaces@.len() ==> (#[trigger] spaces@[k]).git == old(spaces)@[k].git,
        decreases listings@.len() - j,
    {
        let ghost so_far = listings@.take(j + 1);
        assert(so_far.drop_last() =~= listings@.take(j as int));
        assert(so_far.last() == listings@[j as int]);
        assert(ids_of(space_views(spaces@)) =~= ids);
        if let Some(head) = head_of(spaces, listings, j) {
            if let Some(res) = &listings[j] {
                tag_family(spaces, res, head.as_str());
                assert(space_views(spaces@) =~= grouped(start, so_far));
            }
        } else {
            assert(space_views(spaces@) =~= grouped(start, so_far));
        }
        j += 1;
    }
    assert(listings@.take(j as int) =~= listings@);
}

// ---- one answer per repo ----------------------------------------------------

/// The answers that count: the first one about each repo. The others, and those
/// about no repo, say no more than a failure does.
pub open spec fn first_per_repo(
    listings: Seq<Option<WorktreeListResult>>,
) -> Seq<Option<WorktreeListResult>>
    decreases listings.len(),
{
    if listings.len() == 0 {
        Seq::empty()
    } else {
        let prev = first_per_repo(listings.drop_last());
        match repo_of(listings.last()) {
            Some(repo) => if seen(listings.drop_last(), repo) {
                prev.push(None)
            } else {
                prev.push(listings.last())
            },
            None => prev.push(None),
        }
    }
}

/// A repository is seen in a run of answers if it is before the last, or there.
proof fn lemma_seen_push(answers: Seq<Option<WorktreeListResult>>, repo: Seq<char>)
    requires
        answers.len() > 0,
    ensures
        seen(answers, repo) == (seen(answers.drop_last(), repo) || repo_of(answers.last()) == Some(
            repo,
        )),
{
    let init = answers.drop_last();
    let n = init.len() as int;
    if seen(init, repo) {
        let j = choose|j: int| 0 <= j < init.len() && repo_of(#[trigger] init[j]) == Some(repo);
        assert(repo_of(answers[j]) == Some(repo));
    }
    if repo_of(answers.last()) == Some(repo) {
        assert(repo_of(answers[n]) == Some(repo));
    }
    if seen(answers, repo) {
        let j = choose|j: int|
            0 <= j < answers.len() && repo_of(#[trigger] answers[j]) == Some(repo);
        if j < n {
            assert(repo_of(init[j]) == Some(repo));
        }
    }
}

/// The answers that count are about the same repos.
proof fn lemma_first_seen(listings: Seq<Option<WorktreeListResult>>, repo: Seq<char>)
    ensures
        first_per_repo(listings).len() == listings.len(),
        seen(first_per_repo(listings), repo) == seen(listings, repo),
    decreases listings.len(),
{
    let first = first_per_repo(listings);
    if listings.len() > 0 {
        lemma_first_seen(listings.drop_last(), repo);
        assert(first.drop_last() =~= first_per_repo(listings.drop_last()));
        lemma_seen_push(listings, repo);
        lemma_seen_push(first, repo);
    } else {
        assert(first =~= listings);
    }
}

proof fn lemma_first_parent(
    ids: Seq<Seq<char>>,
    listings: Seq<Option<WorktreeListResult>>,
    i: int,
)
    ensures
        parent_of(ids, first_per_repo(listings), i) == parent_of(ids, listings, i),
    decreases listings.len(),
{
    let first = first_per_repo(listings);
    if listings.len() > 0 {
        let init = listings.drop_last();
        lemma_first_parent(ids, init, i);
        assert(first.drop_last() =~= first_per_repo(init));
        if let Some(repo) = repo_of(listings.last()) {
            lemma_first_seen(init, repo);
        }
        assert(family_head(ids, first) == family_head(ids, listings));
    } else {
        assert(first =~= listings);
    }
}

/// One `worktree.list` counts per unique repo: the first answer about each repo
/// forms all the families, whatever later answers about it say, and no two of the
/// answers that count are about the same repo.
pub proof fn law_one_answer_per_repo(
    spaces: Seq<crate::model::SpaceView>,
    listings: Seq<Option<WorktreeListResult>>,
)
    ensures
        grouped(spaces, first_per_repo(listings)) == grouped(spaces, listings),
        first_per_repo(listings).len() == listings.len(),
        forall|k: int, j: int|
            #![trigger first_per_repo(listings)[k], first_per_repo(listings)[j]]
            0 <= k < j < listings.len() && repo_of(first_per_repo(listings)[k]) is Some
                ==> repo_of(first_per_repo(listings)[k]) != repo_of(first_per_repo(listings)[j]),
{
    let ids = ids_of(spaces);
    let first = first_per_repo(listings);
    assert forall|i: int| 0 <= i < spaces.len() implies #[trigger] parent_of(ids, first, i)
        == parent_of(ids, listings, i) by {
        lemma_first_parent(ids, listings, i);
    }
    assert(grouped(spaces, first) =~= grouped(spaces, listings));
    lemma_first_distinct(listings);
}

proof fn lemma_first_distinct(listings: Seq<Option<WorktreeListResult>>)
    ensures
        first_per_repo(listings).len() == listings.len(),
        forall|k: int, j: int|
            #![trigger first_per_repo(listings)[k], first_per_repo(listings)[j]]
            0 <= k < j < listings.len() && repo_of(first_per_repo(listings)[k]) is Some
                ==> repo_of(first_per_repo(listings)[k]) != repo_of(first_per_repo(listings)[j]),
    decreases listings.len(),
{
    if listings.len() > 0 {
        let init = listings.drop_last();
        let (first, prev) = (first_per_repo(listings), first_per_repo(init));
        lemma_first_distinct(init);
        assert(first.drop_last() =~= prev);
        assert forall|k: int, j: int|
            #![trigger first[k], first[j]]
            0 <= k < j < listings.len() && repo_of(first[k]) is Some implies repo_of(first[k])
            != repo_of(first[j]) by {
            assert(first[k] == prev[k]);
            if j < init.len() {
                assert(first[j] == prev[j]);
            } else if repo_of(first[j]) == repo_of(first[k]) {
                let repo = repo_of(first[k])->0;
                assert(repo_of(prev[k]) == Some(repo));
                assert(seen(prev, repo));
                lemma_first_seen(init, repo);
            }
        }
    }
}

// ---- snapshot ---------------------------------------------------------------

/// The spaces that are no worktree children, in order.
pub open spec fn without_children(spaces: Seq<Space>) -> Seq<Space>
    decreases spaces.len(),
{
    if spaces.len() == 0 {
        Seq::empty()
    } else {
        let init = without_children(spaces.drop_last());
        if spaces.last().family_parent is None {
            init.push(spaces.last())
        } else {
            init
        }
    }
}

/// The spaces that are no worktree children, in order.
pub open spec fn standing(
    spaces: Seq<crate::model::SpaceView>,
) -> Seq<crate::model::SpaceView>
    decreases spaces.len(),
{
    if spaces.len() == 0 {
        Seq::empty()
    } else {
        let init = standing(spaces.drop_last());
        if spaces.last().family_parent is None {
            init.push(spaces.last())
        } else {
            init
        }
    }
}

/// The spaces of a snapshot: collected, grouped, children dropped.
pub open spec fn surveyed(
    listing: Seq<(WorkspaceInfo, Vec<PaneInfo>)>,
    worktrees: Seq<Option<WorktreeListResult>>,
) -> Seq<crate::model::SpaceView> {
    standing(grouped(all_collected(listing), worktrees))
}

/// What git printed for the `k`th space; nothing where no output is given.
pub open spec fn output_at(outputs: Seq<Option<Vec<u8>>>, k: int) -> Option<Seq<u8>> {
    if 0 <= k < outputs.len() {
        match outputs[k] {
            Some(b) => Some(b@),
            None => None,
        }
    } else {
        None
    }
}

proof fn lemma_standing_views(spaces: Seq<Space>)
    ensures
        space_views(without_children(spaces)) == standing(space_views(spaces)),
    decreases spaces.len(),
{
    if spaces.len() > 0 {
        lemma_standing_views(spaces.drop_last());
        assert(space_views(spaces).drop_last() =~= space_views(spaces.drop_last()));
        assert(space_views(without_children(spaces)) =~= standing(space_views(spaces)));
    } else {
        assert(space_views(without_children(spaces)) =~= standing(space_views(spaces)));
    }
}

/// Drop the worktree children: they render as single-row indented sidebar
/// entries, with no status row.
pub fn drop_worktree_children(spaces: &mut Vec<Space>)
    ensures
        final(spaces)@ == without_children(old(spaces)@),
{
    let ghost all = spaces@;
    let mut i: usize = 0;
    let ghost mut k: int = 0;
    assert(all.take(0) =~= Seq::<Space>::empty());
    assert(all.skip(0) =~= all);
    assert(spaces@.take(0) =~= Seq::<Space>::empty());
    while i < spaces.len()
        invariant
            all == old(spaces)@,
            0 <= i <= spaces@.len(),
            0 <= k <= all.len(),
            spaces@.len() - i == all.len() - k,
            spaces@.take(i as int) == without_children(all.take(k)),
            spaces@.skip(i as int) == all.skip(k),
        decreases spaces@.len() - i,
    {
        let ghost now = spaces@;
        assert(all.take(k + 1).drop_last() =~= all.take(k));
        assert(now[i as int] == now.skip(i as int)[0]);
        assert(all[k] == all.skip(k)[0]);
        assert(all.skip(k).skip(1) =~= all.skip(k + 1));
        if spaces[i].family_parent.is_some() {
            spaces.remove(i);
            assert(spaces@.take(i as int) =~= now.take(i as int));
            assert(spaces@.skip(i as int) =~= now.skip(i as int).skip(1));
        } else {
            assert(now.take(i + 1) =~= now.take(i as int).push(now[i as int]));
            assert(now.skip(i + 1) =~= now.skip(i as int).skip(1));
            i += 1;
        }
        proof {
            k = k + 1;
        }
    }
    assert(all.take(k) =~= all);
    assert(spaces@.take(i as int) =~= spaces@);
}

/// The spaces of a snapshot, before git is asked about them.
fn standing_spaces(
    listing: &Vec<(WorkspaceInfo, Vec<PaneInfo>)>,
    worktrees: &Vec<Option<WorktreeListResult>>,
) -> (spaces: Vec<Space>)
    ensures
        space_views(spaces@) == surveyed(listing@, worktrees@),
{
    let mut spaces = collect_spaces(listing);
    group_worktree_families(&mut spaces, worktrees);
    proof {
        lemma_standing_views(spaces@);
    }
    drop_worktree_children(&mut spaces);
    spaces
}

/// Where git has to be asked for a [`snapshot`]: the cwd of each surviving space,
/// in order.
pub fn status_dirs(
    listing: &Vec<(WorkspaceInfo, Vec<PaneInfo>)>,
    worktrees: &Vec<Option<WorktreeListResult>>,
) -> (dirs: Vec<Option<String>>)
    ensures
        dirs@.len() == surveyed(listing@, worktrees@).len(),
        forall|k: int|
            0 <= k < dirs@.len() ==> text::opt(#[trigger] dirs@[k]) == surveyed(
                listing@,
                worktrees@,
            )[k].cwd,
{
    let spaces = standing_spaces(listing, worktrees);
    let ghost all = surveyed(listing@, worktrees@);
    let mut dirs: Vec<Option<String>> = Vec::new();
    let mut k: usize = 0;
    while k < spaces.len()
        invariant
            space_views(spaces@) == all,
            k <= spaces@.len(),
            dirs@.len() == k,
            forall|m: int| 0 <= m < k ==> text::opt(#[trigger] dirs@[m]) == all[m].cwd,
        decreases spaces@.len() - k,
    {
        assert(all[k as int] == spaces@[k as int]@);
        let dir = match &spaces[k].cwd {
            Some(c) => Some(c.clone()),
            None => None,
        };
        dirs.push(dir);
        k += 1;
    }
    dirs
}

/// The git status of one space, from what git printed.
fn space_git(cwd: &Option<String>, outputs: &Vec<Option<Vec<u8>>>, k: usize) -> (g: GitStatus)
    ensures
        git::reported(g, text::opt(*cwd), output_at(outputs@, k as int)),
{
    if k >= outputs.len() {
        return GitStatus::default();
    }
    let dir: Option<&str> = match cwd {
        Some(c) => Some(c.as_str()),
        None => None,
    };
    let out: Option<&[u8]> = match &outputs[k] {
        Some(b) => Some(b.as_slice()),
        None => None,
    };
    git::status(dir, out)
}

/// Full pipeline: collect → group worktrees → drop children → git status.
///
/// Worktree children are dropped (they render as single-row indented sidebar
/// entries — no status row), then each surviving space gets its git status:
/// `outputs` holds what git printed in the [`status_dirs`], in order, `None`
/// where it failed.
pub fn snapshot(
    listing: &Vec<(WorkspaceInfo, Vec<PaneInfo>)>,
    worktrees: &Vec<Option<WorktreeListResult>>,
    outputs: &Vec<Option<Vec<u8>>>,
) -> (spaces: Vec<Space>)
    ensures
        space_views(spaces@) == surveyed(listing@, worktrees@),
        forall|k: int|
            0 <= k < spaces@.len() ==> git::reported(
                (#[trigger] spaces@[k]).git,
                text::opt(spaces@[k].cwd),
                output_at(outputs@, k),
            ),
{
    let mut spaces = standing_spaces(listing, worktrees);
    let ghost all = surveyed(listing@, worktrees@);
    let mut k: usize = 0;
    while k < spaces.len()
        invariant
            space_views(spaces@) == all,
            k <= spaces@.len(),
            forall|m: int|
                0 <= m < k ==> git::reported(
                    (#[trigger] spaces@[m]).git,
                    text::opt(spaces@[m].cwd),
                    output_at(outputs@, m),
                ),
        decreases spaces@.len() - k,
    {
        let ghost now = spaces@;
        let g = space_git(&spaces[k].cwd, outputs, k);
        spaces[k].git = g;
        assert(space_views(spaces@) =~= space_views(now));
        k += 1;
    }
    spaces
}

// ---- laws -------------------------------------------------------------------

/// Every pane lands in exactly one bucket.
pub proof fn law_panes_partitioned(ws: WorkspaceInfo, panes: Seq<PaneInfo>)
    ensures
        ({
            let s = collected(ws, panes);
            s.agent_panes.len() + s.spare_panes.len() + s.pseudo_panes.len() == s.pane_count
        }),
        forall|k: int|
            0 <= k < panes.len() ==> ids_in(
                panes,
                bucket_of(text::opt((#[trigger] panes[k]).agent)),
            ).contains(panes[k].pane_id@),
    decreases panes.len(),
{
    if panes.len() > 0 {
        let init = panes.drop_last();
        law_panes_partitioned(ws, init);
        assert forall|k: int| 0 <= k < panes.len() implies ids_in(
            panes,
            bucket_of(text::opt((#[trigger] panes[k]).agent)),
        ).contains(panes[k].pane_id@) by {
            let b = bucket_of(text::opt(panes[k].agent));
            let all = ids_in(panes, b);
            if k < init.len() {
                assert(init[k] == panes[k]);
                let part = ids_in(init, b);
                let m = choose|m: int| 0 <= m < part.len() && part[m] == panes[k].pane_id@;
                assert(all[m] == part[m]);
            } else {
                assert(all[all.len() - 1] == panes[k].pane_id@);
            }
        }
    }
}

/// A tagged space's parent is another space that is itself open.
pub proof fn law_parent_is_another_open_space(
    ids: Seq<Seq<char>>,
    listings: Seq<Option<WorktreeListResult>>,
    i: int,
)
    ensures
        parent_of(ids, listings, i) matches Some(p) ==> p != ids[i] && ids.contains(p),
    decreases listings.len(),
{
    if listings.len() > 0 {
        if let Some(head) = family_head(ids, listings) {
            lemma_last_at(ids, head);
        }
        law_parent_is_another_open_space(ids, listings.drop_last(), i);
    }
}

/// A worktree that a repository's first answer lists as open is tagged (and so
/// dropped from the snapshot), when the main checkout is open in another space.
pub proof fn law_open_worktree_is_tagged(
    ids: Seq<Seq<char>>,
    listings: Seq<Option<WorktreeListResult>>,
    j: int,
    i: int,
)
    requires
        0 <= j < listings.len(),
        0 <= i < ids.len(),
        last_at(ids, ids[i]) == Some(i),
        family_head(ids, listings.take(j + 1)) is Some,
        family_head(ids, listings.take(j + 1)) != Some(ids[i]),
        lists_child(ids, listings[j]->0, i),
    ensures
        parent_of(ids, listings, i) is Some,
    decreases listings.len(),
{
    if j == listings.len() - 1 {
        assert(listings.take(j + 1) =~= listings);
    } else {
        let init = listings.drop_last();
        assert(init.take(j + 1) =~= listings.take(j + 1));
        law_open_worktree_is_tagged(ids, init, j, i);
    }
}

/// A space that no answer lists as an open worktree stays standalone.
pub proof fn law_unlisted_space_stays_standalone(
    ids: Seq<Seq<char>>,
    listings: Seq<Option<WorktreeListResult>>,
    i: int,
)
    requires
        forall|j: int|
            0 <= j < listings.len() && (#[trigger] listings[j]) is Some ==> !lists_child(
                ids,
                listings[j]->0,
                i,
            ),
    ensures
        parent_of(ids, listings, i) is None,
    decreases listings.len(),
{
    if listings.len() > 0 {
        let init = listings.drop_last();
        assert forall|j: int| 0 <= j < init.len() && (#[trigger] init[j]) is Some implies
            !lists_child(ids, init[j]->0, i) by {
            assert(init[j] == listings[j]);
        }
        law_unlisted_space_stays_standalone(ids, init, i);
        assert(listings.last() == listings[listings.len() - 1]);
    }
}

/// Dropping the children keeps exactly the standalone spaces.
pub proof fn law_standing_keeps_standalone(spaces: Seq<crate::model::SpaceView>)
    ensures
        forall|k: int|
            0 <= k < standing(spaces).len() ==> (#[trigger] standing(spaces)[k]).family_parent
                is None && spaces.contains(standing(spaces)[k]),
        forall|i: int|
            0 <= i < spaces.len() && (#[trigger] spaces[i]).family_parent is None ==> standing(
                spaces,
            ).contains(spaces[i]),
    decreases spaces.len(),
{
    if spaces.len() > 0 {
        let init = spaces.drop_last();
        let kept = standing(spaces);
        law_standing_keeps_standalone(init);
        assert forall|k: int| 0 <= k < kept.len() implies (#[trigger] kept[k]).family_parent is None
            && spaces.contains(kept[k]) by {
            if k < standing(init).len() {
                assert(kept[k] == standing(init)[k]);
                let m = choose|m: int| 0 <= m < init.len() && init[m] == kept[k];
                assert(spaces[m] == kept[k]);
            } else {
                assert(spaces[spaces.len() - 1] == kept[k]);
            }
        }
        assert forall|i: int|
            0 <= i < spaces.len() && (#[trigger] spaces[i]).family_parent is None implies standing(
            spaces,
        ).contains(spaces[i]) by {
            if i < init.len() {
                assert(init[i] == spaces[i]);
                let m = choose|m: int| 0 <= m < standing(init).len() && standing(init)[m]
                    == spaces[i];
                assert(kept[m] == spaces[i]);
            } else {
                assert(kept[kept.len() - 1] == spaces[i]);
            }
        }
    }
}

/// One of the spaces, to which the answers give no parent.
pub open spec fn standalone(
    all: Seq<crate::model::SpaceView>,
    worktrees: Seq<Option<WorktreeListResult>>,
    space: crate::model::SpaceView,
) -> bool {
    exists|i: int|
        0 <= i < all.len() && parent_of(ids_of(all), worktrees, i) is None && #[trigger] all[i]
            == space
}

/// A snapshot holds exactly the spaces to which the answers give no parent: no
/// worktree child is in it, and no other space is missing.
pub proof fn law_snapshot_drops_exactly_the_children(
    listing: Seq<(WorkspaceInfo, Vec<PaneInfo>)>,
    worktrees: Seq<Option<WorktreeListResult>>,
)
    ensures
        ({
            let all = all_collected(listing);
            let ids = ids_of(all);
            let kept = surveyed(listing, worktrees);
            &&& forall|i: int|
                0 <= i < all.len() && parent_of(ids, worktrees, i) is None ==> kept.contains(
                    #[trigger] all[i],
                )
            &&& forall|k: int|
                0 <= k < kept.len() ==> standalone(all, worktrees, #[trigger] kept[k])
        }),
{
    let all = all_collected(listing);
    let ids = ids_of(all);
    let tags = grouped(all, worktrees);
    let kept = surveyed(listing, worktrees);
    law_standing_keeps_standalone(tags);
    assert forall|i: int|
        0 <= i < all.len() && parent_of(ids, worktrees, i) is None implies kept.contains(
        #[trigger] all[i],
    ) by {
        assert(tags[i] == all[i]);
    }
    assert forall|k: int| 0 <= k < kept.len() implies standalone(
        all,
        worktrees,
        #[trigger] kept[k],
    ) by {
        assert(tags.contains(kept[k]));
        let i = choose|i: int| 0 <= i < tags.len() && tags[i] == kept[k];
        assert(all[i] == kept[k]);
    }
}

/// The first pane with a non-empty cwd wins.
pub proof fn law_first_cwd_wins(panes: Seq<PaneInfo>, k: int)
    requires
        0 <= k < panes.len(),
        panes[k].cwd matches Some(c) && c@.len() > 0,
        forall|i: int|
            0 <= i < k ==> ((#[trigger] panes[i]).cwd matches Some(c) ==> c@.len() == 0),
    ensures
        first_cwd(panes) == text::opt(panes[k].cwd),
    decreases panes.len(),
{
    let init = panes.drop_last();
    if k < init.len() {
        assert(init[k] == panes[k]);
        law_first_cwd_wins(init, k);
    } else {
        lemma_no_cwd(init);
    }
}

proof fn lemma_no_cwd(panes: Seq<PaneInfo>)
    requires
        forall|i: int|
            0 <= i < panes.len() ==> ((#[trigger] panes[i]).cwd matches Some(c) ==> c@.len() == 0),
    ensures
        first_cwd(panes) is None,
    decreases panes.len(),
{
    if panes.len() > 0 {
        lemma_no_cwd(panes.drop_last());
        assert(panes.last() == panes[panes.len() - 1]);
    }
}

// ---- on the listings themselves ---------------------------------------------

/// What one more pane adds to a space: one to the count; its cwd where none is known
/// and it has one; and its id to one of the lists, to the spare panes where it has no
/// agent, to the pseudo panes where that is `git`, else to the agent panes. The rest
/// comes from the workspace; an unlabelled one is labelled by its id.
pub proof fn law_pane_added(ws: WorkspaceInfo, panes: Seq<PaneInfo>, pane: PaneInfo)
    ensures
        ({
            let none = collected(ws, Seq::empty());
            &&& none.pane_count == 0 && none.cwd is None
            &&& none.agent_panes.len() == 0 && none.spare_panes.len() == 0
                && none.pseudo_panes.len() == 0
        }),
        ({
            let (before, after) = (collected(ws, panes), collected(ws, panes.push(pane)));
            let id = pane.pane_id@;
            let shell = pane.agent is None || pane.agent->0@.len() == 0;
            let ours = pane.agent is Some && pane.agent->0@ == "git"@;
            &&& after.id == ws.workspace_id@
            &&& after.focused == ws.focused
            &&& ws.label@.len() > 0 ==> after.label == ws.label@
            &&& ws.label@.len() == 0 ==> after.label == ws.workspace_id@
            &&& after.family_parent is None
            &&& after.pane_count == before.pane_count + 1
            &&& before.cwd is Some ==> after.cwd == before.cwd
            &&& before.cwd is None && pane.cwd is Some && pane.cwd->0@.len() > 0 ==> after.cwd
                == Some(pane.cwd->0@)
            &&& before.cwd is None && (pane.cwd is None || pane.cwd->0@.len() == 0) ==> after.cwd
                is None
            &&& after.spare_panes == if shell {
                before.spare_panes.push(id)
            } else {
                before.spare_panes
            }
            &&& after.pseudo_panes == if ours {
                before.pseudo_panes.push(id)
            } else {
                before.pseudo_panes
            }
            &&& after.agent_panes == if !shell && !ours {
                before.agent_panes.push(id)
            } else {
                before.agent_panes
            }
        }),
{
    reveal_strlit("git");
    assert("git"@.len() == 3);
    assert(panes.push(pane).drop_last() =~= panes);
}

/// Every workspace of the listing makes one space, in order.
pub proof fn law_every_workspace_is_collected(listing: Seq<(WorkspaceInfo, Vec<PaneInfo>)>)
    ensures
        all_collected(listing).len() == listing.len(),
        forall|i: int|
            0 <= i < listing.len() ==> #[trigger] all_collected(listing)[i] == collected(
                listing[i].0,
                listing[i].1@,
            ),
        forall|i: int|
            0 <= i < listing.len() ==> (#[trigger] all_collected(listing)[i]).id
                == listing[i].0.workspace_id@,
{
}

/// The last position of an id is where no later one is equal.
proof fn lemma_is_last(ids: Seq<Seq<char>>, i: int)
    requires
        0 <= i < ids.len(),
        forall|k: int| i < k < ids.len() ==> #[trigger] ids[k] != ids[i],
    ensures
        last_at(ids, ids[i]) == Some(i),
    decreases ids.len(),
{
    if i < ids.len() - 1 {
        let init = ids.drop_last();
        assert(ids[ids.len() - 1] != ids[i]);
        assert forall|k: int| i < k < init.len() implies #[trigger] init[k] != init[i] by {
            assert(init[k] == ids[k]);
        }
        lemma_is_last(init, i);
        assert(init[i] == ids[i]);
    }
}

/// Where no later answer lists the workspace, its parent comes from this one.
proof fn lemma_parent_stays(
    ids: Seq<Seq<char>>,
    listings: Seq<Option<WorktreeListResult>>,
    j: int,
    i: int,
    head: Seq<char>,
)
    requires
        0 <= j < listings.len(),
        parent_of(ids, listings.take(j + 1), i) == Some(head),
        forall|m: int|
            j < m < listings.len() && (#[trigger] listings[m]) is Some ==> !lists_child(
                ids,
                listings[m]->0,
                i,
            ),
    ensures
        parent_of(ids, listings, i) == Some(head),
    decreases listings.len(),
{
    if j == listings.len() - 1 {
        assert(listings.take(j + 1) =~= listings);
    } else {
        let init = listings.drop_last();
        assert(init.take(j + 1) =~= listings.take(j + 1));
        assert forall|m: int| j < m < init.len() && (#[trigger] init[m]) is Some implies
            !lists_child(ids, init[m]->0, i) by {
            assert(init[m] == listings[m]);
        }
        lemma_parent_stays(ids, init, j, i, head);
        assert(listings.last() == listings[listings.len() - 1]);
    }
}

/// Every open worktree of a repo whose main checkout is open is a child, whichever
/// entry of the answer lists it. `j` is the first answer about its repo, its main
/// checkout is open in space `m`, and its entry `w` is open in another space `i` (the
/// last one of its id). Then `i` gets a parent, the space of the main checkout unless a
/// later answer lists it too, and no space of that id is in the snapshot.
pub proof fn law_every_open_worktree_is_a_child(
    spaces: Seq<crate::model::SpaceView>,
    listings: Seq<Option<WorktreeListResult>>,
    j: int,
    w: int,
    m: int,
    i: int,
)
    requires
        0 <= j < listings.len(),
        listings[j] is Some,
        listings[j]->0.source.repo_key@.len() > 0,
        forall|k: int|
            0 <= k < j && (#[trigger] listings[k]) is Some ==> listings[k]->0.source.repo_key@
                != listings[j]->0.source.repo_key@,
        0 <= m < spaces.len(),
        listings[j]->0.source.source_workspace_id is Some,
        listings[j]->0.source.source_workspace_id->0@ == spaces[m].id,
        0 <= w < listings[j]->0.worktrees@.len(),
        listings[j]->0.worktrees@[w].open_workspace_id is Some,
        0 <= i < spaces.len(),
        listings[j]->0.worktrees@[w].open_workspace_id->0@ == spaces[i].id,
        spaces[i].id != spaces[m].id,
        forall|k: int| i < k < spaces.len() ==> (#[trigger] spaces[k]).id != spaces[i].id,
    ensures
        grouped(spaces, listings)[i].family_parent is Some,
        (forall|k: int, v: int|
            #![trigger listings[k]->0.worktrees@[v]]
            j < k < listings.len() && listings[k] is Some && 0 <= v
                < listings[k]->0.worktrees@.len()
                && listings[k]->0.worktrees@[v].open_workspace_id is Some
                ==> listings[k]->0.worktrees@[v].open_workspace_id->0@ != spaces[i].id)
            ==> grouped(spaces, listings)[i].family_parent == Some(spaces[m].id),
        (forall|k: int| 0 <= k < spaces.len() && k != i ==> (#[trigger] spaces[k]).id != spaces[i].id)
            ==> forall|k: int|
            0 <= k < standing(grouped(spaces, listings)).len() ==> (#[trigger] standing(
                grouped(spaces, listings),
            )[k]).id != spaces[i].id,
{
    let ids = ids_of(spaces);
    let res = listings[j]->0;
    let so_far = listings.take(j + 1);
    let head = spaces[m].id;
    assert(so_far.last() == listings[j]);
    assert(so_far.drop_last() =~= listings.take(j));
    assert(ids[m] == head && ids[i] == spaces[i].id);
    lemma_last_at(ids, head);
    assert(ids.contains(head));
    assert(!seen(listings.take(j), res.source.repo_key@)) by {
        assert forall|k: int| 0 <= k < j implies repo_of(#[trigger] listings.take(j)[k]) != Some(
            res.source.repo_key@,
        ) by {
            assert(listings.take(j)[k] == listings[k]);
        }
    }
    assert(family_head(ids, so_far) == Some(head));
    assert forall|k: int| i < k < ids.len() implies #[trigger] ids[k] != ids[i] by {
        assert(spaces[k].id != spaces[i].id);
    }
    lemma_is_last(ids, i);
    assert(text::opt(res.worktrees@[w].open_workspace_id) == Some(ids[i]));
    assert(lists_child(ids, res, i));
    law_open_worktree_is_tagged(ids, listings, j, i);
    if forall|k: int, v: int|
        #![trigger listings[k]->0.worktrees@[v]]
        j < k < listings.len() && listings[k] is Some && 0 <= v < listings[k]->0.worktrees@.len()
            && listings[k]->0.worktrees@[v].open_workspace_id is Some
            ==> listings[k]->0.worktrees@[v].open_workspace_id->0@ != spaces[i].id {
        assert(parent_of(ids, so_far, i) == Some(head));
        assert forall|k: int| j < k < listings.len() && (#[trigger] listings[k]) is Some implies
            !lists_child(ids, listings[k]->0, i) by {
            if lists_child(ids, listings[k]->0, i) {
                let v = choose|v: int|
                    0 <= v < listings[k]->0.worktrees@.len() && text::opt(
                        (#[trigger] listings[k]->0.worktrees@[v]).open_workspace_id,
                    ) == Some(ids[i]);
                assert(listings[k]->0.worktrees@[v].open_workspace_id->0@ == spaces[i].id);
            }
        }
        lemma_parent_stays(ids, listings, j, i, head);
    }
    let tags = grouped(spaces, listings);
    law_standing_keeps_standalone(tags);
    if forall|k: int| 0 <= k < spaces.len() && k != i ==> (#[trigger] spaces[k]).id != spaces[i].id {
        assert forall|k: int| 0 <= k < standing(tags).len() implies (#[trigger] standing(
            tags,
        )[k]).id != spaces[i].id by {
            let s = standing(tags)[k];
            let n = choose|n: int| 0 <= n < tags.len() && tags[n] == s;
            assert(tags[n].id == spaces[n].id);
        }
    }
}

/// Nothing else makes a child, and a child keeps all else: a space whose parent is set
/// is listed, as open, by an answer that is the first about its repo and whose main
/// checkout is open in another space, and that is the parent.
pub proof fn law_only_open_worktrees_are_children(
    spaces: Seq<crate::model::SpaceView>,
    listings: Seq<Option<WorktreeListResult>>,
    i: int,
)
    requires
        0 <= i < spaces.len(),
    ensures
        grouped(spaces, listings).len() == spaces.len(),
        ({
            let (s, t) = (spaces[i], grouped(spaces, listings)[i]);
            &&& t.id == s.id && t.label == s.label && t.focused == s.focused
            &&& t.pane_count == s.pane_count && t.cwd == s.cwd
            &&& t.agent_panes == s.agent_panes && t.spare_panes == s.spare_panes
            &&& t.pseudo_panes == s.pseudo_panes
            &&& t.family_parent != s.family_parent ==> exists|j: int, w: int, m: int|
                #![trigger listings[j]->0.worktrees@[w], spaces[m]]
                {
                    &&& 0 <= j < listings.len() && listings[j] is Some
                    &&& listings[j]->0.source.repo_key@.len() > 0
                    &&& forall|k: int|
                        0 <= k < j && (#[trigger] listings[k]) is Some
                            ==> listings[k]->0.source.repo_key@
                            != listings[j]->0.source.repo_key@
                    &&& 0 <= w < listings[j]->0.worktrees@.len()
                    &&& listings[j]->0.worktrees@[w].open_workspace_id is Some
                    &&& listings[j]->0.worktrees@[w].open_workspace_id->0@ == s.id
                    &&& 0 <= m < spaces.len() && spaces[m].id != s.id
                    &&& t.family_parent == Some(spaces[m].id)
                    &&& listings[j]->0.source.source_workspace_id is Some
                    &&& listings[j]->0.source.source_workspace_id->0@ == spaces[m].id
                }
        }),
{
    let ids = ids_of(spaces);
    if parent_of(ids, listings, i) is Some {
        lemma_parent_witness(spaces, listings, i);
    }
}

/// The answer that gives a space its parent.
proof fn lemma_parent_witness(
    spaces: Seq<crate::model::SpaceView>,
    listings: Seq<Option<WorktreeListResult>>,
    i: int,
)
    requires
        0 <= i < spaces.len(),
        parent_of(ids_of(spaces), listings, i) is Some,
    ensures
        exists|j: int, w: int, m: int|
            #![trigger listings[j]->0.worktrees@[w], spaces[m]]
            {
                &&& 0 <= j < listings.len() && listings[j] is Some
                &&& listings[j]->0.source.repo_key@.len() > 0
                &&& forall|k: int|
                    0 <= k < j && (#[trigger] listings[k]) is Some
                        ==> listings[k]->0.source.repo_key@ != listings[j]->0.source.repo_key@
                &&& 0 <= w < listings[j]->0.worktrees@.len()
                &&& listings[j]->0.worktrees@[w].open_workspace_id is Some
                &&& listings[j]->0.worktrees@[w].open_workspace_id->0@ == spaces[i].id
                &&& 0 <= m < spaces.len() && spaces[m].id != spaces[i].id
                &&& parent_of(ids_of(spaces), listings, i) == Some(spaces[m].id)
                &&& listings[j]->0.source.source_workspace_id is Some
                &&& listings[j]->0.source.source_workspace_id->0@ == spaces[m].id
            },
    decreases listings.len(),
{
    let ids = ids_of(spaces);
    let init = listings.drop_last();
    let n = init.len() as int;
    let here = family_head(ids, listings) is Some && family_head(ids, listings)->0 != ids[i]
        && last_at(ids, ids[i]) == Some(i) && lists_child(ids, listings.last()->0, i);
    assert(listings.last() == listings[n]);
    if here {
        let head = family_head(ids, listings)->0;
        let res = listings[n]->0;
        lemma_last_at(ids, head);
        let m = last_at(ids, head)->0;
        assert(ids[m] == spaces[m].id);
        let w = choose|w: int|
            0 <= w < res.worktrees@.len() && text::opt(
                (#[trigger] res.worktrees@[w]).open_workspace_id,
            ) == Some(ids[i]);
        assert forall|k: int| 0 <= k < n && (#[trigger] listings[k]) is Some implies
            listings[k]->0.source.repo_key@ != res.source.repo_key@ by {
            assert(init[k] == listings[k]);
            if listings[k]->0.source.repo_key@ == res.source.repo_key@ {
                assert(repo_of(init[k]) == Some(res.source.repo_key@));
                assert(seen(init, res.source.repo_key@));
            }
        }
        assert(listings[n]->0.worktrees@[w].open_workspace_id->0@ == spaces[i].id);
    } else {
        lemma_parent_witness(spaces, init, i);
        let (j, w, m) = choose|j: int, w: int, m: int|
            #![trigger init[j]->0.worktrees@[w], spaces[m]]
            {
                &&& 0 <= j < init.len() && init[j] is Some
                &&& init[j]->0.source.repo_key@.len() > 0
                &&& forall|k: int|
                    0 <= k < j && (#[trigger] init[k]) is Some ==> init[k]->0.source.repo_key@
                        != init[j]->0.source.repo_key@
                &&& 0 <= w < init[j]->0.worktrees@.len()
                &&& init[j]->0.worktrees@[w].open_workspace_id is Some
                &&& init[j]->0.worktrees@[w].open_workspace_id->0@ == spaces[i].id
                &&& 0 <= m < spaces.len() && spaces[m].id != spaces[i].id
                &&& parent_of(ids, init, i) == Some(spaces[m].id)
                &&& init[j]->0.source.source_workspace_id is Some
                &&& init[j]->0.source.source_workspace_id->0@ == spaces[m].id
            };
        assert(init[j] == listings[j]);
        assert forall|k: int| 0 <= k < j && (#[trigger] listings[k]) is Some implies
            listings[k]->0.source.repo_key@ != listings[j]->0.source.repo_key@ by {
            assert(init[k] == listings[k]);
        }
        assert(listings[j]->0.worktrees@[w].open_workspace_id->0@ == spaces[i].id);
    }
}

/// Dropping the children is keeping those without a parent, in order; and that is
/// what a snapshot keeps of the grouped spaces.
pub proof fn law_dropping_is_filtering(
    spaces: Seq<Space>,
    listing: Seq<(WorkspaceInfo, Vec<PaneInfo>)>,
    worktrees: Seq<Option<WorktreeListResult>>,
)
    ensures
        without_children(spaces) == spaces.filter(|s: Space| s.family_parent is None),
        surveyed(listing, worktrees) == grouped(all_collected(listing), worktrees).filter(
            |s: crate::model::SpaceView| s.family_parent is None,
        ),
{
    lemma_without_filter(spaces);
    lemma_standing_filter(grouped(all_collected(listing), worktrees));
}

proof fn lemma_without_filter(spaces: Seq<Space>)
    ensures
        without_children(spaces) == spaces.filter(|s: Space| s.family_parent is None),
    decreases spaces.len(),
{
    reveal(Seq::filter);
    if spaces.len() > 0 {
        lemma_without_filter(spaces.drop_last());
    }
}

proof fn lemma_standing_filter(spaces: Seq<crate::model::SpaceView>)
    ensures
        standing(spaces) == spaces.filter(
            |s: crate::model::SpaceView| s.family_parent is None,
        ),
    decreases spaces.len(),
{
    reveal(Seq::filter);
    if spaces.len() > 0 {
        lemma_standing_filter(spaces.drop_last());
    }
}

/// The outputs belong to the spaces in order; a missing one is a failure.
pub proof fn law_outputs_in_order(outputs: Seq<Option<Vec<u8>>>, k: int)
    ensures
        0 <= k < outputs.len() && outputs[k] is Some ==> output_at(outputs, k) == Some(
            outputs[k]->0@,
        ),
        0 <= k < outputs.len() && outputs[k] is None ==> output_at(outputs, k) is None,
        k >= outputs.len() ==> output_at(outputs, k) is None,
{
}

/// The views of spaces are theirs, one by one.
pub proof fn law_space_views(spaces: Seq<Space>)
    ensures
        space_views(spaces).len() == spaces.len(),
        forall|i: int| 0 <= i < spaces.len() ==> #[trigger] space_views(spaces)[i] == spaces[i]@,
{
}

} // verus!
