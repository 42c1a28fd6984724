//! The values the library hands back and forth: what a Repo, a Branch, a tree node, a
//! hunk and a line are, with the mathematical views the contracts speak of.

use vstd::prelude::*;

verus! {

/// Lines added and deleted between the two sides of one file.
#[derive(Clone, Copy, Debug, PartialEq, Eq, Structural)]
pub struct Changes {
    pub add: u32,
    pub del: u32,
}

/// Which side of a diff a line belongs to.
#[derive(Clone, Copy, Debug, PartialEq, Eq, Structural)]
pub enum LineKind {
    Context,
    Add,
    Del,
}

/// One line of a hunk. `old_no` / `new_no` are 1-based line numbers; a deleted line has no
/// `new_no` because the worktree does not have it.
#[derive(Clone, Debug)]
pub struct DiffLine {
    pub kind: LineKind,
    pub old_no: Option<u32>,
    pub new_no: Option<u32>,
    pub content: String,
}

/// A `DiffLine` with its text as a sequence of characters.
pub struct DiffLineView {
    pub kind: LineKind,
    pub old_no: Option<u32>,
    pub new_no: Option<u32>,
    pub content: Seq<char>,
}

impl View for DiffLine {
    type V = DiffLineView;

    open spec fn view(&self) -> DiffLineView {
        DiffLineView {
            kind: self.kind,
            old_no: self.old_no,
            new_no: self.new_no,
            content: self.content@,
        }
    }
}

/// One `@@ -a,b +c,d @@` hunk and its lines.
#[derive(Clone, Debug)]
pub struct DiffHunk {
    pub header: String,
    pub lines: Vec<DiffLine>,
}

pub struct DiffHunkView {
    pub header: Seq<char>,
    pub lines: Seq<DiffLineView>,
}

impl View for DiffHunk {
    type V = DiffHunkView;

    open spec fn view(&self) -> DiffHunkView {
        DiffHunkView { header: self.header@, lines: self.lines@.map_values(|l: DiffLine| l@) }
    }
}

/// The diff of one file: its hunks, whether it could be read as text at all, and both
/// sides in full (the frontend highlights whole files).
#[derive(Clone, Debug)]
pub struct FileDiff {
    pub hunks: Vec<DiffHunk>,
    pub binary: bool,
    pub old_text: String,
    pub new_text: String,
}

/// A file as File View shows it: its worktree lines, or a note that it is not text.
#[derive(Clone, Debug)]
pub struct FileContent {
    pub lines: Vec<String>,
    /// A file Ziff cannot number by line, so File View shows it as such instead of
    /// rendering lossy text no Comment could anchor to.
    pub binary: bool,
}

/// A node of the sidebar's file tree.
#[derive(Debug)]
pub enum TreeNode {
    Dir { name: String, path: String, children: Vec<TreeNode> },
    File {
        name: String,
        path: String,
        /// The counts of a file that differs in this Diff Mode; none for one that does not.
        changes: Option<Changes>,
        /// Where the file used to be, when it was renamed into `path`.
        renamed_from: Option<String>,
    },
}

/// Where one side of a file's content comes from.
///
/// `Unstaged` compares an index blob against the file on disk, `Staged` compares two
/// blobs, and either side is `Missing` for a file that was added or deleted.
#[derive(Clone, Debug, PartialEq, Eq)]
pub enum Side {
    Missing,
    /// A blob, by its object id in hex.
    Blob(String),
    /// The worktree file at this repo-relative path.
    Worktree(String),
}

/// One file that differs between the two sides of a Diff Mode.
#[derive(Clone, Debug)]
pub struct ChangedFile {
    pub path: String,
    /// Where this file used to be, when it was renamed into `path`.
    pub old_path: Option<String>,
    pub old: Side,
    pub new: Side,
}

/// A changed file with its counts, as the sidebar tree needs it.
#[derive(Clone, Debug)]
pub struct CountedFile {
    pub path: String,
    pub old_path: Option<String>,
    pub changes: Changes,
}

/// A git repository the user added, identified by its canonical path.
#[derive(Clone, Debug)]
pub struct Repo {
    pub id: String,
    pub name: String,
    pub path: String,
    /// Base branch a Branch-mode diff is compared against by default.
    pub default_branch: String,
}

/// A local branch as the Base Branch picker shows it.
#[derive(Clone, Debug)]
pub struct Branch {
    pub name: String,
    pub is_current: bool,
    /// Commits this branch has that its upstream does not, or `None` when there is no
    /// upstream to count against -- which is not the same as being in sync.
    pub ahead: Option<u32>,
    pub behind: Option<u32>,
}

/// The branches, plus what HEAD is doing when it is not on any of them: the topbar has
/// to be able to say "no branch" rather than name one.
#[derive(Clone, Debug)]
pub struct BranchList {
    pub branches: Vec<Branch>,
    /// Short commit id when HEAD is detached, `None` when it is on a branch.
    pub detached_head: Option<String>,
}

/// Which two sides of the Repo a diff compares.
#[derive(Clone, Copy, Debug, PartialEq, Eq, Structural)]
pub enum DiffMode {
    /// index vs worktree.
    Unstaged,
    /// HEAD vs index.
    Staged,
    /// merge-base(Base Branch, branch) vs worktree.
    Branch,
}

/// What the frontend asks a diff of.
#[derive(Clone, Debug)]
pub struct DiffSpec {
    pub repo_id: String,
    pub branch: String,
    pub diff_mode: DiffMode,
    pub base_branch: Option<String>,
}

/// What a Fetch tells the user.
#[derive(Clone, Debug)]
pub struct FetchResult {
    pub success: bool,
    pub message: String,
}

} // verus!
