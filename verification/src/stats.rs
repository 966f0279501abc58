//! What a sync run did.

use vstd::prelude::*;

use crate::protocol::SkippedFile;

verus! {

/// What happened to one file, for an itemized report.
#[derive(Debug, Clone, Copy, PartialEq, Eq, Structural)]
pub enum ItemizeAction {
    /// New on the destination.
    Create,
    /// Changed.
    Update,
    /// Removed from the destination.
    Delete,
    /// Already in sync.
    Skip,
}

/// One line of an itemized report.
#[derive(Debug, Clone)]
pub struct ItemizeEntry {
    /// What happened.
    pub action: ItemizeAction,
    /// Path relative to the sync root.
    pub path: String,
    /// The file-type letter: `f` file, `d` directory, `L` link, `S` special.
    pub kind: char,
    /// The size of the file, where the line is part of a listing.
    pub size: Option<u64>,
}

/// The model of [`ItemizeEntry`].
pub struct LineV {
    pub action: ItemizeAction,
    pub path: Seq<char>,
    pub kind: char,
    pub size: Option<u64>,
}

impl View for ItemizeEntry {
    type V = LineV;

    open spec fn view(&self) -> LineV {
        LineV { action: self.action, path: self.path@, kind: self.kind, size: self.size }
    }
}

/// The line of a change, which gives no size.
pub open spec fn change(action: ItemizeAction, path: Seq<char>, kind: char) -> LineV {
    LineV { action, path, kind, size: None }
}

/// The models of a sequence of report lines.
pub open spec fn itemize_views(v: Seq<ItemizeEntry>) -> Seq<LineV> {
    v.map_values(|e: ItemizeEntry| e@)
}

impl ItemizeEntry {
    /// A report line.
    pub fn new(action: ItemizeAction, path: String, kind: char) -> (r: ItemizeEntry)
        ensures
            r@ == change(action, path@, kind),
    {
        ItemizeEntry { action, path, kind, size: None }
    }

    /// The line with the size of the file.
    pub fn with_size(self, size: u64) -> (r: ItemizeEntry)
        ensures
            r@ == (LineV { size: Some(size), ..self@ }),
    {
        ItemizeEntry { action: self.action, path: self.path, kind: self.kind, size: Some(size) }
    }
}

/// The counts and lists that a sync run reports.
#[derive(Debug, Clone)]
pub struct SyncStats {
    /// Files sent.
    pub files_sent: usize,
    /// Files received.
    pub files_received: usize,
    /// Content bytes moved.
    pub bytes_transferred: u64,
    /// How long the run took, in nanoseconds.
    pub duration: u64,
    /// Per-file report lines.
    pub changes: Vec<ItemizeEntry>,
    /// Files that were skipped instead of applied.
    pub skipped: Vec<SkippedFile>,
}

impl Default for SyncStats {
    fn default() -> (r: SyncStats)
        ensures
            r.files_sent == 0,
            r.files_received == 0,
            r.bytes_transferred == 0,
            r.duration == 0,
            r.changes@.len() == 0,
            r.skipped@.len() == 0,
    {
        SyncStats {
            files_sent: 0,
            files_received: 0,
            bytes_transferred: 0,
            duration: 0,
            changes: Vec::new(),
            skipped: Vec::new(),
        }
    }
}

/// The line of a change tells what happened to which path and its type, and
/// gives no size.
pub proof fn law_lines_tell_the_change(action: ItemizeAction, path: Seq<char>, kind: char)
    ensures
        change(action, path, kind).action == action,
        change(action, path, kind).path == path,
        change(action, path, kind).kind == kind,
        change(action, path, kind).size is None,
{
}

/// The model of a report line shows each of its fields as it is.
pub proof fn law_models_show_the_line(e: ItemizeEntry)
    ensures
        e@.action == e.action,
        e@.path == e.path@,
        e@.kind == e.kind,
        e@.size == e.size,
{
}

} // verus!
