//! Data types shared across the crate.
//!
//! [`Space`] is the per-workspace aggregate; [`GitStatus`] is the working-tree
//! summary that [`crate::git`] fills in for each space. The remaining types hold
//! the parts that are consumed of the `result` payloads of the host's read
//! methods (`workspace.list`, `pane.list`, `worktree.list`).

use crate::text;
use vstd::prelude::*;

verus! {

/// Git working-tree summary for one space, computed from
/// `git status --porcelain=v1 --branch`.
///
/// All counts are file counts (a file staged *and* modified in the worktree
/// counts once in each of `staged` and `modified`, matching common git prompts).
/// `is_repo` is `false` when the cwd is missing or not a git repository, in which
/// case every count is zero and no status is surfaced.
#[derive(Debug, Clone, PartialEq, Eq)]
pub struct GitStatus {
    /// Whether the space's cwd is inside a git work tree.
    pub is_repo: bool,
    /// Current branch name (or `HEAD` when detached, empty when unknown).
    pub branch: String,
    /// Commits ahead of the upstream, when tracking one.
    pub ahead: u32,
    /// Commits behind the upstream, when tracking one.
    pub behind: u32,
    /// Files with staged (index) changes.
    pub staged: u32,
    /// Files with unstaged worktree changes.
    pub modified: u32,
    /// Untracked files.
    pub untracked: u32,
    /// Unmerged (conflicted) paths.
    pub conflicts: u32,
}

impl GitStatus {
    /// Not a repository: no branch and every count zero.
    pub open spec fn blank(&self) -> bool {
        &&& !self.is_repo
        &&& self.branch@.len() == 0
        &&& self.ahead == 0 && self.behind == 0
        &&& self.staged == 0 && self.modified == 0 && self.untracked == 0 && self.conflicts == 0
    }

    /// Nothing in the work tree to surface.
    pub open spec fn clean(&self) -> bool {
        self.is_repo ==> self.staged == 0 && self.modified == 0 && self.untracked == 0
            && self.conflicts == 0
    }

    /// A repository with nothing to commit, push or pull.
    pub open spec fn fully_clean(&self) -> bool {
        self.is_repo && self.clean() && self.ahead == 0 && self.behind == 0
    }

    /// A non-repo or fully clean tree has nothing to surface.
    pub fn is_clean(&self) -> (r: bool)
        ensures
            r == self.clean(),
    {
        !self.is_repo || (self.staged == 0 && self.modified == 0 && self.untracked == 0
            && self.conflicts == 0)
    }

    /// Fully clean: a repo whose working tree is clean AND that has nothing to
    /// push (ahead=0) AND nothing to pull (behind=0). Unlike [`is_clean`], a
    /// non-repo is NOT fully clean — there is no repo to vouch for.
    ///
    /// [`is_clean`]: GitStatus::is_clean
    pub fn is_fully_clean(&self) -> (r: bool)
        ensures
            r == self.fully_clean(),
    {
        self.is_repo && self.is_clean() && self.ahead == 0 && self.behind == 0
    }
}

impl Default for GitStatus {
    fn default() -> (g: Self)
        ensures
            g.blank(),
    {
        GitStatus {
            is_repo: false,
            branch: String::new(),
            ahead: 0,
            behind: 0,
            staged: 0,
            modified: 0,
            untracked: 0,
            conflicts: 0,
        }
    }
}

/// Per-space aggregate for one host space (workspace).
#[derive(Debug, Clone)]
pub struct Space {
    /// Workspace id.
    pub id: String,
    pub label: String,
    pub focused: bool,
    pub pane_count: usize,
    /// cwd of the first pane with a non-empty cwd (where git runs).
    pub cwd: Option<String>,
    /// Panes with a real agent.
    pub agent_panes: Vec<String>,
    /// Plain shell panes.
    pub spare_panes: Vec<String>,
    /// Panes carrying our "git" pseudo-agent.
    pub pseudo_panes: Vec<String>,
    /// Git working-tree summary, filled by [`crate::git::status`].
    pub git: GitStatus,
    /// Workspace id of the worktree-group parent (set → this is a child).
    pub family_parent: Option<String>,
}

/// What is known of a space apart from its git status.
pub ghost struct SpaceView {
    pub id: Seq<char>,
    pub label: Seq<char>,
    pub focused: bool,
    pub pane_count: nat,
    pub cwd: Option<Seq<char>>,
    pub agent_panes: Seq<Seq<char>>,
    pub spare_panes: Seq<Seq<char>>,
    pub pseudo_panes: Seq<Seq<char>>,
    pub family_parent: Option<Seq<char>>,
}

impl View for Space {
    type V = SpaceView;

    open spec fn view(&self) -> SpaceView {
        SpaceView {
            id: self.id@,
            label: self.label@,
            focused: self.focused,
            pane_count: self.pane_count as nat,
            cwd: text::opt(self.cwd),
            agent_panes: text::views(self.agent_panes@),
            spare_panes: text::views(self.spare_panes@),
            pseudo_panes: text::views(self.pseudo_panes@),
            family_parent: text::opt(self.family_parent),
        }
    }
}

impl Default for Space {
    fn default() -> (s: Self)
        ensures
            s.id@.len() == 0,
            s.label@.len() == 0,
            !s.focused,
            s.pane_count == 0,
            s.cwd is None,
            s.agent_panes@.len() == 0,
            s.spare_panes@.len() == 0,
            s.pseudo_panes@.len() == 0,
            s.git.blank(),
            s.family_parent is None,
    {
        Space {
            id: String::new(),
            label: String::new(),
            focused: false,
            pane_count: 0,
            cwd: None,
            agent_panes: Vec::new(),
            spare_panes: Vec::new(),
            pseudo_panes: Vec::new(),
            git: GitStatus::default(),
            family_parent: None,
        }
    }
}

// ---- workspace.list ---------------------------------------------------------

/// `result` payload of `workspace.list`.
#[derive(Debug, Clone)]
pub struct WorkspaceListResult {
    pub workspaces: Vec<WorkspaceInfo>,
}

/// One entry of `workspaces`.
#[derive(Debug, Clone)]
pub struct WorkspaceInfo {
    pub workspace_id: String,
    pub label: String,
    pub focused: bool,
}

// ---- pane.list --------------------------------------------------------------

/// `result` payload of `pane.list`.
#[derive(Debug, Clone)]
pub struct PaneListResult {
    pub panes: Vec<PaneInfo>,
}

/// One entry of `panes`.
#[derive(Debug, Clone)]
pub struct PaneInfo {
    pub pane_id: String,
    pub cwd: Option<String>,
    pub agent: Option<String>,
}

// ---- worktree.list ----------------------------------------------------------

/// `result` payload of `worktree.list`.
#[derive(Debug, Clone)]
pub struct WorktreeListResult {
    pub source: WorktreeSource,
    pub worktrees: Vec<WorktreeEntry>,
}

/// The `source` object identifying the repo and its main checkout's workspace.
#[derive(Debug, Clone)]
pub struct WorktreeSource {
    pub repo_key: String,
    pub source_workspace_id: Option<String>,
}

/// One entry of `worktrees`; only the open workspace id matters for grouping.
#[derive(Debug, Clone)]
pub struct WorktreeEntry {
    pub open_workspace_id: Option<String>,
}

/// What clean and fully clean mean, on the fields.
pub proof fn law_clean_on_the_fields(g: GitStatus)
    ensures
        g.clean() <==> !g.is_repo || (g.staged == 0 && g.modified == 0 && g.untracked == 0
            && g.conflicts == 0),
        g.fully_clean() <==> g.is_repo && g.staged == 0 && g.modified == 0 && g.untracked == 0
            && g.conflicts == 0 && g.ahead == 0 && g.behind == 0,
        g.blank() <==> !g.is_repo && g.branch@.len() == 0 && g.ahead == 0 && g.behind == 0
            && g.staged == 0 && g.modified == 0 && g.untracked == 0 && g.conflicts == 0,
{
}

/// The view of a space holds every field apart from its git status.
pub proof fn law_view_of_a_space(s: Space)
    ensures
        s@.id == s.id@ && s@.label == s.label@ && s@.focused == s.focused,
        s@.pane_count == s.pane_count,
        s.cwd is Some <==> s@.cwd is Some,
        s.cwd matches Some(c) ==> s@.cwd == Some(c@),
        s.family_parent is Some <==> s@.family_parent is Some,
        s.family_parent matches Some(p) ==> s@.family_parent == Some(p@),
        s@.agent_panes.len() == s.agent_panes@.len(),
        s@.spare_panes.len() == s.spare_panes@.len(),
        s@.pseudo_panes.len() == s.pseudo_panes@.len(),
        forall|i: int|
            0 <= i < s.agent_panes@.len() ==> #[trigger] s@.agent_panes[i] == s.agent_panes@[i]@,
        forall|i: int|
            0 <= i < s.spare_panes@.len() ==> #[trigger] s@.spare_panes[i] == s.spare_panes@[i]@,
        forall|i: int|
            0 <= i < s.pseudo_panes@.len() ==> #[trigger] s@.pseudo_panes[i] == s.pseudo_panes@[i]@,
{
}

} // verus!
