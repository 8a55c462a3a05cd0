//! The records the workspace view is built from, and what it produces.

use vstd::prelude::*;

verus! {

/// One changed path of a revision: a status letter (`A`, `M`, `D`, `R`, ...)
/// and the path.
#[derive(Debug, Clone)]
pub struct FileChange {
    pub status: char,
    pub path: String,
}

/// A single revision of the graph.
#[derive(Debug, Clone)]
pub struct RevisionInfo {
    pub change_id: String,
    pub commit_id: String,
    pub short_id: String,
    pub description: String,
    pub bookmarks: Vec<String>,
    pub is_empty: bool,
    pub is_immutable: bool,
    pub is_conflicted: bool,
    pub is_working_copy: bool,
    /// Parents in order; the first one is the primary parent.
    pub parent_change_ids: Vec<String>,
    pub author: String,
    pub timestamp: String,
    /// File changes, filled in lazily.
    pub files: Vec<FileChange>,
}

/// A linear chain of revisions private to one tip, from base to tip.
#[derive(Debug, Clone)]
pub struct Stack {
    /// The bookmark names at the tip of this stack.
    pub bookmarks: Vec<String>,
    /// Revisions from base (closest to trunk) to tip.
    pub revisions: Vec<RevisionInfo>,
}

/// Stacks, their shared ancestors, trunk and working copy.
#[derive(Debug, Clone)]
pub struct WorkspaceState {
    pub trunk: Option<RevisionInfo>,
    pub stacks: Vec<Stack>,
    pub shared_base: Vec<RevisionInfo>,
    /// The working copy, when it lies in no stack and not in the shared base.
    pub working_copy: Option<RevisionInfo>,
    pub uncommitted_files: Vec<FileChange>,
}

/// How results are written: text for people, or JSON for programs.
#[derive(Debug, Clone, Copy, PartialEq, Eq)]
pub enum OutputFormat {
    Human,
    Json,
}

impl Default for OutputFormat {
    fn default() -> (r: OutputFormat)
        ensures
            r == OutputFormat::Human,
    {
        OutputFormat::Human
    }
}

/// `b` holds the same data as `a`, field by field.
pub open spec fn same_revision(a: RevisionInfo, b: RevisionInfo) -> bool {
    same_except_files(a, b) && a.files@ == b.files@
}

/// `b` holds the same data as `a` in every field but `files`.
pub open spec fn same_except_files(a: RevisionInfo, b: RevisionInfo) -> bool {
    &&& a.change_id@ == b.change_id@
    &&& a.commit_id@ == b.commit_id@
    &&& a.short_id@ == b.short_id@
    &&& a.description@ == b.description@
    &&& a.bookmarks@ == b.bookmarks@
    &&& a.is_empty == b.is_empty
    &&& a.is_immutable == b.is_immutable
    &&& a.is_conflicted == b.is_conflicted
    &&& a.is_working_copy == b.is_working_copy
    &&& a.parent_change_ids@ == b.parent_change_ids@
    &&& a.author@ == b.author@
    &&& a.timestamp@ == b.timestamp@
}

/// A copy of a list of strings.
pub fn copy_strings(v: &Vec<String>) -> (r: Vec<String>)
    ensures
        r@ == v@,
{
    let mut r: Vec<String> = Vec::new();
    let mut i: usize = 0;
    while i < v.len()
        invariant
            i <= v@.len(),
            r@ == v@.subrange(0, i as int),
        decreases v@.len() - i,
    {
        r.push(v[i].clone());
        i = i + 1;
    }
    assert(r@ =~= v@);
    r
}

impl FileChange {
    /// A copy of this file change.
    pub fn duplicate(&self) -> (r: FileChange)
        ensures
            r == *self,
    {
        FileChange { status: self.status, path: self.path.clone() }
    }
}

/// A copy of a list of file changes.
pub fn copy_files(v: &Vec<FileChange>) -> (r: Vec<FileChange>)
    ensures
        r@ == v@,
{
    let mut r: Vec<FileChange> = Vec::new();
    let mut i: usize = 0;
    while i < v.len()
        invariant
            i <= v@.len(),
            r@ == v@.subrange(0, i as int),
        decreases v@.len() - i,
    {
        r.push(v[i].duplicate());
        i = i + 1;
    }
    assert(r@ =~= v@);
    r
}

impl RevisionInfo {
    /// A copy of this revision.
    pub fn duplicate(&self) -> (r: RevisionInfo)
        ensures
            same_revision(*self, r),
    {
        RevisionInfo {
            change_id: self.change_id.clone(),
            commit_id: self.commit_id.clone(),
            short_id: self.short_id.clone(),
            description: self.description.clone(),
            bookmarks: copy_strings(&self.bookmarks),
            is_empty: self.is_empty,
            is_immutable: self.is_immutable,
            is_conflicted: self.is_conflicted,
            is_working_copy: self.is_working_copy,
            parent_change_ids: copy_strings(&self.parent_change_ids),
            author: self.author.clone(),
            timestamp: self.timestamp.clone(),
            files: copy_files(&self.files),
        }
    }
}

} // verus!
