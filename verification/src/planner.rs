//! The sync planner: source manifest × destination manifest → plan.
//!
//! For every source entry the plan says whether it is created, updated,
//! skipped, or has only its attributes re-applied, and for every destination
//! entry whether it is deleted.

use std::collections::HashMap;

use vstd::prelude::*;

use crate::order;
use crate::order::KeyIndex;
use crate::protocol;
use crate::protocol::{FileKind, LinkKind};
use crate::scanner;
use crate::scanner::{FileEntry, Manifest};
use crate::stats;
use crate::stats::{ItemizeAction, ItemizeEntry};
use crate::text;
use crate::wire;

verus! {

broadcast use vstd::std_specs::hash::group_hash_axioms;

/// What to do with a file.
#[derive(Debug, Clone, Copy, PartialEq, Eq, Structural)]
pub enum SyncAction {
    /// Unchanged: do nothing.
    Skip,
    /// New file or directory.
    Create,
    /// Exists but differs.
    Update,
    /// Exists in the destination but not in the source.
    Delete,
    /// Content in sync, attributes drifted: re-apply them.
    MetaOnly,
}

/// A single planned operation.
#[derive(Debug, Clone)]
pub struct SyncTask {
    /// Path relative to the sync root.
    pub relative_path: String,
    /// The action to perform.
    pub action: SyncAction,
    /// Size of the source file (0 for deletes and directories).
    pub source_size: u64,
    /// Whether a directory is concerned.
    pub is_dir: bool,
    /// Link target; `Some` makes it a contentless link.
    pub link_target: Option<String>,
    /// How a link task is materialized.
    pub link_kind: LinkKind,
    /// Hard-link target; `Some` makes it a hard link.
    pub link_to: Option<String>,
    /// Kind and device number of a special file.
    pub special: Option<(FileKind, Option<u64>)>,
    /// On-disk source of content that lives outside the sync root.
    pub source_path: Option<String>,
    /// Whether the content lives outside the sync root.
    pub dereferenced: bool,
}

/// The model of [`SyncTask`].
pub struct TaskV {
    pub relative_path: Seq<char>,
    pub action: SyncAction,
    pub source_size: u64,
    pub is_dir: bool,
    pub link_target: Option<Seq<char>>,
    pub link_kind: LinkKind,
    pub link_to: Option<Seq<char>>,
    pub special: Option<(FileKind, Option<u64>)>,
    pub source_path: Option<Seq<char>>,
    pub dereferenced: bool,
}

impl View for SyncTask {
    type V = TaskV;

    open spec fn view(&self) -> TaskV {
        TaskV {
            relative_path: self.relative_path@,
            action: self.action,
            source_size: self.source_size,
            is_dir: self.is_dir,
            link_target: text::opt_view(self.link_target),
            link_kind: self.link_kind,
            link_to: text::opt_view(self.link_to),
            special: self.special,
            source_path: text::opt_view(self.source_path),
            dereferenced: self.dereferenced,
        }
    }
}

/// The models of a sequence of tasks.
pub open spec fn task_views(v: Seq<SyncTask>) -> Seq<TaskV> {
    v.map_values(|t: SyncTask| t@)
}

/// The result of planning a sync.
#[derive(Debug, Clone)]
pub struct SyncPlan {
    /// Entries to create.
    pub creates: Vec<SyncTask>,
    /// Entries to update.
    pub updates: Vec<SyncTask>,
    /// Destination entries to delete.
    pub deletes: Vec<SyncTask>,
    /// Entries that are already in sync.
    pub skips: Vec<SyncTask>,
    /// Entries whose attributes alone are re-applied.
    pub meta: Vec<SyncTask>,
}

/// Planner options.
#[derive(Debug, Clone)]
pub struct PlannerConfig {
    /// Compare content hashes instead of size and time.
    pub checksum: bool,
    /// Compare sizes only.
    pub size_only: bool,
    /// Skip files whose destination is newer.
    pub update_only: bool,
    /// Skip files and links that already exist on the receiver; directories
    /// are still replaced.
    pub ignore_existing: bool,
    /// Never create new files; directories are still created.
    pub existing: bool,
    /// Transfer everything, ignoring the quick check.
    pub ignore_times: bool,
    /// Remove destination entries that the source does not have.
    pub delete: bool,
    /// Bound the deletes to what lies under these roots; `None` leaves the
    /// whole destination in scope.
    pub delete_scope: Option<Vec<String>>,
    /// Re-apply permission bits that drifted.
    pub preserve_perms: bool,
    /// Re-apply times that drifted.
    pub preserve_times: bool,
}

impl Default for PlannerConfig {
    fn default() -> (r: PlannerConfig)
        ensures
            !r.checksum && !r.size_only && !r.update_only && !r.ignore_existing,
            !r.existing && !r.ignore_times && !r.delete,
            r.delete_scope is None,
            !r.preserve_perms && !r.preserve_times,
    {
        PlannerConfig {
            checksum: false,
            size_only: false,
            update_only: false,
            ignore_existing: false,
            existing: false,
            ignore_times: false,
            delete: false,
            delete_scope: None,
            preserve_perms: false,
            preserve_times: false,
        }
    }
}

/// Whether a kind is a contentless special file.
pub open spec fn special(kind: FileKind) -> bool {
    kind == FileKind::Fifo || kind == FileKind::Socket || kind == FileKind::BlockDevice || kind
        == FileKind::CharDevice
}

/// Whether the modification times agree to the nanosecond.
pub open spec fn same_time(src: scanner::EntryV, dst: scanner::EntryV) -> bool {
    src.mtime_sec == dst.mtime_sec && src.mtime_nsec == dst.mtime_nsec
}

/// Whether both hashes are known and equal.
pub open spec fn same_content_hash(src: scanner::EntryV, dst: scanner::EntryV) -> bool {
    src.file_hash is Some && src.file_hash == dst.file_hash
}

/// Whether the destination holds the source's content, by the quick check
/// that the configuration selects.
pub open spec fn content_in_sync(
    cfg: PlannerConfig,
    src: scanner::EntryV,
    dst: scanner::EntryV,
) -> bool {
    if cfg.checksum {
        same_content_hash(src, dst)
    } else {
        src.size == dst.size && (cfg.size_only || same_time(src, dst))
    }
}

/// Whether an existing file or link is left untouched because it exists.
pub open spec fn kept_as_existing(
    cfg: PlannerConfig,
    src: scanner::EntryV,
    dst: scanner::EntryV,
) -> bool {
    cfg.ignore_existing && !src.is_dir && !dst.is_dir
}

/// Whether the destination was modified after the source.
pub open spec fn newer(src: scanner::EntryV, dst: scanner::EntryV) -> bool {
    dst.mtime_sec > src.mtime_sec || (dst.mtime_sec == src.mtime_sec && dst.mtime_nsec
        > src.mtime_nsec)
}

/// Whether the destination is left untouched because it is newer.
pub open spec fn kept_as_newer(
    cfg: PlannerConfig,
    src: scanner::EntryV,
    dst: scanner::EntryV,
) -> bool {
    cfg.update_only && newer(src, dst)
}

/// Whether an entry on both sides needs no transfer.
pub open spec fn in_sync(cfg: PlannerConfig, src: scanner::EntryV, dst: scanner::EntryV) -> bool {
    if kept_as_existing(cfg, src, dst) {
        true
    } else if src.is_dir != dst.is_dir {
        false
    } else if src.link_target is Some || dst.link_target is Some {
        src.link_target == dst.link_target && (cfg.checksum || cfg.size_only || same_time(
            src,
            dst,
        ))
    } else if special(src.kind) || special(dst.kind) {
        src.kind == dst.kind && src.rdev == dst.rdev && src.mtime_sec == dst.mtime_sec
    } else {
        kept_as_newer(cfg, src, dst) || (!cfg.ignore_times && content_in_sync(cfg, src, dst))
    }
}

/// Whether a preserved attribute drifted.
pub open spec fn attrs_drifted(
    cfg: PlannerConfig,
    src: scanner::EntryV,
    dst: scanner::EntryV,
) -> bool {
    ||| cfg.preserve_perms && (src.mode & 0o7777) != (dst.mode & 0o7777)
    ||| cfg.preserve_times && !same_time(src, dst)
}

/// What happens to a source entry whose destination counterpart is `dst`.
pub open spec fn decision(
    cfg: PlannerConfig,
    src: scanner::EntryV,
    dst: Option<scanner::EntryV>,
) -> SyncAction {
    match dst {
        None => if cfg.existing && !src.is_dir {
            SyncAction::Skip
        } else {
            SyncAction::Create
        },
        Some(d) => if src.is_dir && d.is_dir {
            SyncAction::Skip
        } else if !in_sync(cfg, src, d) {
            SyncAction::Update
        } else if !src.is_dir && src.link_target is None && !special(src.kind)
            && !kept_as_newer(cfg, src, d) && !kept_as_existing(cfg, src, d) && attrs_drifted(
            cfg,
            src,
            d,
        ) {
            SyncAction::MetaOnly
        } else {
            SyncAction::Skip
        },
    }
}

/// The entry at a path: the last one, where a path occurs twice.
pub open spec fn entry_at(v: Seq<scanner::EntryV>, p: Seq<char>) -> Option<scanner::EntryV> {
    let i = order::last_index(scanner::paths(v), p);
    if i < 0 {
        None
    } else {
        Some(v[i])
    }
}

/// What happens to the source entry at position `i`.
pub open spec fn decision_at(
    cfg: PlannerConfig,
    source: Seq<scanner::EntryV>,
    dest: Seq<scanner::EntryV>,
    i: int,
) -> SyncAction {
    decision(cfg, source[i], entry_at(dest, source[i].relative_path))
}

/// Whether the source entry at position `i` is a regular file with the inode
/// `ino`.
pub open spec fn has_inode(source: Seq<scanner::EntryV>, i: int, ino: u64) -> bool {
    source[i].kind == FileKind::File && source[i].inode == Some(ino)
}

/// Whether the destination already holds the content of the source entry at
/// position `i`, so that other names of its inode can link to it.
pub open spec fn anchors(
    cfg: PlannerConfig,
    source: Seq<scanner::EntryV>,
    dest: Seq<scanner::EntryV>,
    i: int,
) -> bool {
    match entry_at(dest, source[i].relative_path) {
        Some(d) => d.link_target is None && in_sync(cfg, source[i], d) && content_in_sync(
            cfg,
            source[i],
            d,
        ),
        None => false,
    }
}

/// Whether the source entry at position `i` is transferred.
pub open spec fn transfers(
    cfg: PlannerConfig,
    source: Seq<scanner::EntryV>,
    dest: Seq<scanner::EntryV>,
    i: int,
) -> bool {
    decision_at(cfg, source, dest, i) == SyncAction::Create || decision_at(cfg, source, dest, i)
        == SyncAction::Update
}

/// The first of the first `n` source entries that anchors the inode, or -1.
pub open spec fn first_anchor(
    cfg: PlannerConfig,
    source: Seq<scanner::EntryV>,
    dest: Seq<scanner::EntryV>,
    ino: u64,
    n: int,
) -> int
    decreases n,
{
    if n <= 0 {
        -1
    } else {
        let earlier = first_anchor(cfg, source, dest, ino, n - 1);
        if earlier >= 0 {
            earlier
        } else if has_inode(source, n - 1, ino) && anchors(cfg, source, dest, n - 1) {
            n - 1
        } else {
            -1
        }
    }
}

/// The first of the first `n` source entries with the inode that is
/// transferred, or -1.
pub open spec fn first_transferred(
    cfg: PlannerConfig,
    source: Seq<scanner::EntryV>,
    dest: Seq<scanner::EntryV>,
    ino: u64,
    n: int,
) -> int
    decreases n,
{
    if n <= 0 {
        -1
    } else {
        let earlier = first_transferred(cfg, source, dest, ino, n - 1);
        if earlier >= 0 {
            earlier
        } else if has_inode(source, n - 1, ino) && transfers(cfg, source, dest, n - 1) {
            n - 1
        } else {
            -1
        }
    }
}

/// The position whose content a file with the inode can link to, once the
/// first `n` source entries are planned: one that the destination already
/// holds, else the first one transferred; -1 when there is none.
pub open spec fn representative(
    cfg: PlannerConfig,
    source: Seq<scanner::EntryV>,
    dest: Seq<scanner::EntryV>,
    ino: u64,
    n: int,
) -> int {
    let anchor = first_anchor(cfg, source, dest, ino, source.len() as int);
    if anchor >= 0 {
        anchor
    } else {
        first_transferred(cfg, source, dest, ino, n)
    }
}

/// The path that the source entry at position `i` is hard-linked to.
pub open spec fn link_source(
    cfg: PlannerConfig,
    source: Seq<scanner::EntryV>,
    dest: Seq<scanner::EntryV>,
    i: int,
) -> Option<Seq<char>> {
    match source[i].inode {
        Some(ino) => if source[i].kind == FileKind::File && representative(
            cfg,
            source,
            dest,
            ino,
            i,
        ) >= 0 {
            Some(source[representative(cfg, source, dest, ino, i)].relative_path)
        } else {
            None
        },
        None => None,
    }
}

/// The task for an entry, not hard-linked.
pub open spec fn plain_task(src: scanner::EntryV, action: SyncAction) -> TaskV {
    TaskV {
        relative_path: src.relative_path,
        action,
        source_size: src.size,
        is_dir: src.is_dir,
        link_target: src.link_target,
        link_kind: src.link_kind,
        link_to: None,
        special: if special(src.kind) {
            Some((src.kind, src.rdev))
        } else {
            None
        },
        source_path: src.source_path,
        dereferenced: src.dereferenced,
    }
}

/// The task for the source entry at position `i`.
pub open spec fn task_at(
    cfg: PlannerConfig,
    source: Seq<scanner::EntryV>,
    dest: Seq<scanner::EntryV>,
    i: int,
) -> TaskV {
    let action = decision_at(cfg, source, dest, i);
    if action == SyncAction::Create || action == SyncAction::Update {
        TaskV { link_to: link_source(cfg, source, dest, i), ..plain_task(source[i], action) }
    } else {
        plain_task(source[i], action)
    }
}

/// The tasks with the given action among those for the first `n` source
/// entries, in source order.
pub open spec fn tasks_with(
    cfg: PlannerConfig,
    source: Seq<scanner::EntryV>,
    dest: Seq<scanner::EntryV>,
    n: int,
    action: SyncAction,
) -> Seq<TaskV>
    decreases n,
{
    if n <= 0 {
        Seq::empty()
    } else {
        let front = tasks_with(cfg, source, dest, n - 1, action);
        if decision_at(cfg, source, dest, n - 1) == action {
            front.push(task_at(cfg, source, dest, n - 1))
        } else {
            front
        }
    }
}

/// Whether a destination path may be deleted.
pub open spec fn deletable(scope: Option<Seq<Seq<char>>>, rel: Seq<char>) -> bool {
    match scope {
        None => true,
        Some(roots) => under_some(roots, rel),
    }
}

/// Whether a path lies under one of the roots.
pub open spec fn under_some(roots: Seq<Seq<char>>, rel: Seq<char>) -> bool {
    exists|i: int| 0 <= i < roots.len() && #[trigger] scoped(roots[i], rel)
}

/// Whether a path is the root or lies below it, whatever the separators.
pub open spec fn scoped(root: Seq<char>, rel: Seq<char>) -> bool {
    let p = text::swap_char(rel, '\\', '/');
    let r = text::swap_char(root, '\\', '/');
    p == r || r.push('/').is_prefix_of(p)
}

proof fn lemma_under(roots: Seq<Seq<char>>, rel: Seq<char>, i: int)
    requires
        0 <= i < roots.len(),
        scoped(roots[i], rel),
    ensures
        under_some(roots, rel),
{
}

/// The model of a delete scope.
pub open spec fn scope_view(scope: Option<Vec<String>>) -> Option<Seq<Seq<char>>> {
    match scope {
        Some(v) => Some(text::views(v@)),
        None => None,
    }
}

/// The task that deletes a destination entry.
pub open spec fn delete_task(dst: scanner::EntryV) -> TaskV {
    TaskV {
        relative_path: dst.relative_path,
        action: SyncAction::Delete,
        source_size: 0,
        is_dir: dst.is_dir,
        link_target: None,
        link_kind: LinkKind::Symlink,
        link_to: None,
        special: None,
        source_path: None,
        dereferenced: false,
    }
}

/// Whether a destination entry is deleted.
pub open spec fn deleted(
    cfg: PlannerConfig,
    source: Seq<scanner::EntryV>,
    dst: scanner::EntryV,
) -> bool {
    cfg.delete && entry_at(source, dst.relative_path) is None && deletable(
        scope_view(cfg.delete_scope),
        dst.relative_path,
    )
}

/// The deletions among the first `n` destination entries.
pub open spec fn deletions(
    cfg: PlannerConfig,
    source: Seq<scanner::EntryV>,
    dest: Seq<scanner::EntryV>,
    n: int,
) -> Seq<TaskV>
    decreases n,
{
    if n <= 0 {
        Seq::empty()
    } else {
        let front = deletions(cfg, source, dest, n - 1);
        if deleted(cfg, source, dest[n - 1]) {
            front.push(delete_task(dest[n - 1]))
        } else {
            front
        }
    }
}

/// The file-type letter of a task.
pub open spec fn kind_letter(t: TaskV) -> char {
    if t.is_dir {
        'd'
    } else if t.link_target is Some {
        'L'
    } else if t.special is Some {
        'S'
    } else {
        'f'
    }
}

/// The report lines for a sequence of tasks.
pub open spec fn report(action: ItemizeAction, tasks: Seq<TaskV>) -> Seq<stats::LineV> {
    tasks.map_values(
        |t: TaskV| stats::change(action, wire::wire_text(t.relative_path), kind_letter(t)),
    )
}

/// Every source entry gets exactly one task: each one has one of the four
/// actions, and together the four lists are as long as the source.
pub proof fn law_every_entry_is_planned_once(
    cfg: PlannerConfig,
    source: Seq<scanner::EntryV>,
    dest: Seq<scanner::EntryV>,
    n: int,
)
    requires
        0 <= n <= source.len(),
    ensures
        forall|i: int|
            0 <= i < n ==> #[trigger] decision_at(cfg, source, dest, i) != SyncAction::Delete,
        tasks_with(cfg, source, dest, n, SyncAction::Create).len() + tasks_with(
            cfg,
            source,
            dest,
            n,
            SyncAction::Update,
        ).len() + tasks_with(cfg, source, dest, n, SyncAction::Skip).len() + tasks_with(
            cfg,
            source,
            dest,
            n,
            SyncAction::MetaOnly,
        ).len() == n,
    decreases n,
{
    if n > 0 {
        law_every_entry_is_planned_once(cfg, source, dest, n - 1);
    }
}

/// The order of the destination's entries does not matter: the source's entries
/// get the same tasks in the same order, and the same deletions are made.
pub proof fn law_destination_order_does_not_matter(
    cfg: PlannerConfig,
    source: Seq<scanner::EntryV>,
    dest: Seq<scanner::EntryV>,
    other: Seq<scanner::EntryV>,
    action: SyncAction,
)
    requires
        scanner::paths_once(dest),
        dest.to_multiset() == other.to_multiset(),
    ensures
        tasks_with(cfg, source, dest, source.len() as int, action) == tasks_with(
            cfg,
            source,
            other,
            source.len() as int,
            action,
        ),
        deletions(cfg, source, dest, dest.len() as int).to_multiset() == deletions(
            cfg,
            source,
            other,
            other.len() as int,
        ).to_multiset(),
{
    lemma_same_entries(dest, other);
    lemma_tasks_by_entries(cfg, source, dest, other, source.len() as int, action);
    lemma_deletions_permuted(cfg, source, dest, other);
}

/// Where no path occurs twice, the entry at a path does not depend on the order.
proof fn lemma_same_entries(dest: Seq<scanner::EntryV>, other: Seq<scanner::EntryV>)
    requires
        scanner::paths_once(dest),
        dest.to_multiset() == other.to_multiset(),
    ensures
        forall|p: Seq<char>| #[trigger] entry_at(dest, p) == entry_at(other, p),
{
    assert(dest.no_duplicates());
    dest.lemma_multiset_has_no_duplicates();
    other.lemma_multiset_has_no_duplicates_conv();
    assert forall|p: Seq<char>| #[trigger] entry_at(dest, p) == entry_at(other, p) by {
        order::lemma_last_index(scanner::paths(dest), p);
        order::lemma_last_index(scanner::paths(other), p);
        let i = order::last_index(scanner::paths(dest), p);
        let j = order::last_index(scanner::paths(other), p);
        if i >= 0 {
            vstd::seq_lib::to_multiset_contains(dest, dest[i]);
            vstd::seq_lib::to_multiset_contains(other, dest[i]);
            let k = choose|k: int| 0 <= k < other.len() && other[k] == dest[i];
            assert(scanner::paths(other)[k] == p);
        }
        if j >= 0 {
            vstd::seq_lib::to_multiset_contains(other, other[j]);
            vstd::seq_lib::to_multiset_contains(dest, other[j]);
            let k = choose|k: int| 0 <= k < dest.len() && dest[k] == other[j];
            assert(scanner::paths(dest)[k] == p);
            assert(dest[i].relative_path == p && dest[k].relative_path == p);
            assert(k == i);
        }
    }
}

/// Two destinations with the same entry at every path give the same tasks.
proof fn lemma_tasks_by_entries(
    cfg: PlannerConfig,
    source: Seq<scanner::EntryV>,
    dest: Seq<scanner::EntryV>,
    other: Seq<scanner::EntryV>,
    n: int,
    action: SyncAction,
)
    requires
        forall|p: Seq<char>| #[trigger] entry_at(dest, p) == entry_at(other, p),
        0 <= n <= source.len(),
    ensures
        tasks_with(cfg, source, dest, n, action) == tasks_with(cfg, source, other, n, action),
    decreases n,
{
    if n > 0 {
        lemma_tasks_by_entries(cfg, source, dest, other, n - 1, action);
        match source[n - 1].inode {
            Some(ino) => {
                lemma_firsts_by_entries(cfg, source, dest, other, ino, source.len() as int);
                lemma_firsts_by_entries(cfg, source, dest, other, ino, n - 1);
            },
            None => {},
        }
    }
}

proof fn lemma_firsts_by_entries(
    cfg: PlannerConfig,
    source: Seq<scanner::EntryV>,
    dest: Seq<scanner::EntryV>,
    other: Seq<scanner::EntryV>,
    ino: u64,
    n: int,
)
    requires
        forall|p: Seq<char>| #[trigger] entry_at(dest, p) == entry_at(other, p),
    ensures
        first_anchor(cfg, source, dest, ino, n) == first_anchor(cfg, source, other, ino, n),
        first_transferred(cfg, source, dest, ino, n) == first_transferred(
            cfg,
            source,
            other,
            ino,
            n,
        ),
    decreases n,
{
    if n > 0 {
        lemma_firsts_by_entries(cfg, source, dest, other, ino, n - 1);
    }
}

/// The same destination entries in another order give the same deletions.
proof fn lemma_deletions_permuted(
    cfg: PlannerConfig,
    source: Seq<scanner::EntryV>,
    dest: Seq<scanner::EntryV>,
    other: Seq<scanner::EntryV>,
)
    requires
        dest.to_multiset() == other.to_multiset(),
    ensures
        deletions(cfg, source, dest, dest.len() as int).to_multiset() == deletions(
            cfg,
            source,
            other,
            other.len() as int,
        ).to_multiset(),
    decreases dest.len(),
{
    vstd::seq_lib::to_multiset_len(dest);
    vstd::seq_lib::to_multiset_len(other);
    if dest.len() > 0 {
        let last = dest.last();
        vstd::seq_lib::to_multiset_contains(dest, last);
        vstd::seq_lib::to_multiset_contains(other, last);
        let k = choose|k: int| 0 <= k < other.len() && other[k] == last;
        let m = dest.len() - 1;
        vstd::seq_lib::to_multiset_remove(dest, m);
        vstd::seq_lib::to_multiset_remove(other, k);
        lemma_deletions_permuted(cfg, source, dest.remove(m), other.remove(k));
        lemma_deletions_remove(cfg, source, dest, m);
        lemma_deletions_remove(cfg, source, other, k);
    }
}

/// Deletions with one destination entry less.
proof fn lemma_deletions_remove(
    cfg: PlannerConfig,
    source: Seq<scanner::EntryV>,
    dest: Seq<scanner::EntryV>,
    k: int,
)
    requires
        0 <= k < dest.len(),
    ensures
        deletions(cfg, source, dest, dest.len() as int).to_multiset() == if deleted(
            cfg,
            source,
            dest[k],
        ) {
            deletions(cfg, source, dest.remove(k), dest.len() - 1).to_multiset().insert(
                delete_task(dest[k]),
            )
        } else {
            deletions(cfg, source, dest.remove(k), dest.len() - 1).to_multiset()
        },
    decreases dest.len(),
{
    let n = dest.len() as int;
    let less = dest.remove(k);
    let front = deletions(cfg, source, dest, n - 1);
    if k == n - 1 {
        lemma_deletions_prefix(cfg, source, dest, less, n - 1);
        vstd::seq_lib::to_multiset_build(front, delete_task(dest[k]));
    } else {
        let short = dest.drop_last();
        lemma_deletions_remove(cfg, source, short, k);
        lemma_deletions_prefix(cfg, source, dest, short, n - 1);
        lemma_deletions_prefix(cfg, source, short.remove(k), less, n - 2);
        let task = delete_task(dest[n - 1]);
        assert(less[n - 2] == dest[n - 1]);
        let back = deletions(cfg, source, less, n - 2);
        vstd::seq_lib::to_multiset_build(front, task);
        vstd::seq_lib::to_multiset_build(back, task);
        let gone = delete_task(dest[k]);
        assert(back.to_multiset().insert(gone).insert(task) =~= back.to_multiset().insert(
            task,
        ).insert(gone));
    }
}

/// Deletions among the first entries depend on those alone.
proof fn lemma_deletions_prefix(
    cfg: PlannerConfig,
    source: Seq<scanner::EntryV>,
    a: Seq<scanner::EntryV>,
    b: Seq<scanner::EntryV>,
    n: int,
)
    requires
        0 <= n <= a.len(),
        n <= b.len(),
        forall|i: int| 0 <= i < n ==> #[trigger] a[i] == b[i],
    ensures
        deletions(cfg, source, a, n) == deletions(cfg, source, b, n),
    decreases n,
{
    if n > 0 {
        lemma_deletions_prefix(cfg, source, a, b, n - 1);
    }
}

/// A listed task is the task of a source entry with that action.
pub proof fn law_tasks_come_from_the_source(
    cfg: PlannerConfig,
    source: Seq<scanner::EntryV>,
    dest: Seq<scanner::EntryV>,
    n: int,
    action: SyncAction,
    k: int,
) -> (i: int)
    requires
        0 <= n <= source.len(),
        0 <= k < tasks_with(cfg, source, dest, n, action).len(),
    ensures
        0 <= i < n,
        decision_at(cfg, source, dest, i) == action,
        tasks_with(cfg, source, dest, n, action)[k] == task_at(cfg, source, dest, i),
    decreases n,
{
    let front = tasks_with(cfg, source, dest, n - 1, action);
    if k < front.len() {
        law_tasks_come_from_the_source(cfg, source, dest, n - 1, action, k)
    } else {
        n - 1
    }
}

/// Without the delete option nothing is deleted; with it, a deleted path is
/// never one of the source's and always in scope.
pub proof fn law_deletes_spare_the_source(
    cfg: PlannerConfig,
    source: Seq<scanner::EntryV>,
    dest: Seq<scanner::EntryV>,
    n: int,
)
    requires
        0 <= n <= dest.len(),
    ensures
        !cfg.delete ==> deletions(cfg, source, dest, n).len() == 0,
        forall|k: int|
            0 <= k < deletions(cfg, source, dest, n).len() ==> {
                let t = #[trigger] deletions(cfg, source, dest, n)[k];
                &&& t.action == SyncAction::Delete
                &&& !scanner::paths(source).contains(t.relative_path)
                &&& deletable(scope_view(cfg.delete_scope), t.relative_path)
                &&& scanner::paths(dest).contains(t.relative_path)
            },
    decreases n,
{
    if n > 0 {
        law_deletes_spare_the_source(cfg, source, dest, n - 1);
        let d = dest[n - 1];
        if deleted(cfg, source, d) {
            order::lemma_last_index(scanner::paths(source), d.relative_path);
            assert(scanner::paths(dest)[n - 1] == d.relative_path);
            if scanner::paths(source).contains(d.relative_path) {
                let i = choose|i: int|
                    0 <= i < scanner::paths(source).len() && scanner::paths(source)[i] == d.relative_path;
                assert(false);
            }
        }
    }
}

/// Under `ignore_existing` an existing file or link is never touched.
pub proof fn law_ignore_existing_never_touches(
    cfg: PlannerConfig,
    src: scanner::EntryV,
    dst: scanner::EntryV,
)
    requires
        cfg.ignore_existing,
        !src.is_dir,
        !dst.is_dir,
    ensures
        decision(cfg, src, Some(dst)) == SyncAction::Skip,
{
}

/// Under `update_only` a regular file that is newer on the destination is
/// never touched.
pub proof fn law_update_only_never_touches_newer(
    cfg: PlannerConfig,
    src: scanner::EntryV,
    dst: scanner::EntryV,
)
    requires
        cfg.update_only,
        newer(src, dst),
        src.is_dir == dst.is_dir,
        src.link_target is None,
        dst.link_target is None,
        !special(src.kind),
        !special(dst.kind),
    ensures
        decision(cfg, src, Some(dst)) == SyncAction::Skip,
{
}

/// Under `existing` only directories are created.
pub proof fn law_existing_creates_only_directories(
    cfg: PlannerConfig,
    source: Seq<scanner::EntryV>,
    dest: Seq<scanner::EntryV>,
    i: int,
)
    requires
        cfg.existing,
        0 <= i < source.len(),
        decision_at(cfg, source, dest, i) == SyncAction::Create,
    ensures
        source[i].is_dir,
{
}

/// Entries that equal their counterparts need nothing, unless the quick check
/// is off or lacks the hashes it is told to compare.
pub proof fn law_equal_entries_are_skipped(cfg: PlannerConfig, e: scanner::EntryV)
    requires
        !cfg.ignore_times,
        cfg.checksum ==> e.file_hash is Some,
    ensures
        decision(cfg, e, Some(e)) == SyncAction::Skip,
{
}

/// Syncing a tree onto an equal one transfers nothing.
pub proof fn law_equal_trees_transfer_nothing(
    cfg: PlannerConfig,
    tree: Seq<scanner::EntryV>,
    n: int,
)
    requires
        !cfg.ignore_times,
        forall|i: int| 0 <= i < tree.len() && cfg.checksum ==> (#[trigger] tree[i]).file_hash is Some,
        scanner::paths(tree).no_duplicates(),
        0 <= n <= tree.len(),
    ensures
        tasks_with(cfg, tree, tree, n, SyncAction::Create).len() == 0,
        tasks_with(cfg, tree, tree, n, SyncAction::Update).len() == 0,
        tasks_with(cfg, tree, tree, n, SyncAction::MetaOnly).len() == 0,
        deletions(cfg, tree, tree, n).len() == 0,
    decreases n,
{
    if n > 0 {
        law_equal_trees_transfer_nothing(cfg, tree, n - 1);
        let e = tree[n - 1];
        assert(scanner::paths(tree)[n - 1] == e.relative_path);
        order::lemma_last_index_is(scanner::paths(tree), e.relative_path, n - 1);
        law_equal_entries_are_skipped(cfg, e);
    }
}

proof fn lemma_first_anchor(
    cfg: PlannerConfig,
    source: Seq<scanner::EntryV>,
    dest: Seq<scanner::EntryV>,
    ino: u64,
    n: int,
)
    requires
        0 <= n <= source.len(),
    ensures
        -1 <= first_anchor(cfg, source, dest, ino, n) < n || n == 0,
        first_anchor(cfg, source, dest, ino, n) >= 0 ==> {
            let j = first_anchor(cfg, source, dest, ino, n);
            0 <= j < n && has_inode(source, j, ino) && anchors(cfg, source, dest, j)
        },
    decreases n,
{
    if n > 0 {
        lemma_first_anchor(cfg, source, dest, ino, n - 1);
    }
}

proof fn lemma_first_transferred(
    cfg: PlannerConfig,
    source: Seq<scanner::EntryV>,
    dest: Seq<scanner::EntryV>,
    ino: u64,
    n: int,
)
    requires
        0 <= n <= source.len(),
    ensures
        first_transferred(cfg, source, dest, ino, n) >= 0 ==> {
            let j = first_transferred(cfg, source, dest, ino, n);
            0 <= j < n && has_inode(source, j, ino) && transfers(cfg, source, dest, j)
                && first_transferred(cfg, source, dest, ino, j) < 0
        },
    decreases n,
{
    if n > 0 {
        lemma_first_transferred(cfg, source, dest, ino, n - 1);
    }
}

/// A hard link points at another name of the same inode whose content is on
/// the destination: one already in sync there, or an earlier one that
/// transfers its content.
pub proof fn law_hardlinks_have_content(
    cfg: PlannerConfig,
    source: Seq<scanner::EntryV>,
    dest: Seq<scanner::EntryV>,
    i: int,
) -> (j: int)
    requires
        0 <= i < source.len(),
        transfers(cfg, source, dest, i),
        task_at(cfg, source, dest, i).link_to is Some,
    ensures
        0 <= j < source.len(),
        j != i,
        source[j].kind == FileKind::File,
        source[j].inode is Some,
        source[j].inode == source[i].inode,
        task_at(cfg, source, dest, i).link_to == Some(source[j].relative_path),
        anchors(cfg, source, dest, j) || (j < i && transfers(cfg, source, dest, j) && task_at(
            cfg,
            source,
            dest,
            j,
        ).link_to is None),
{
    let ino = source[i].inode->0;
    let j = representative(cfg, source, dest, ino, i);
    lemma_first_anchor(cfg, source, dest, ino, source.len() as int);
    lemma_first_transferred(cfg, source, dest, ino, i);
    if first_anchor(cfg, source, dest, ino, source.len() as int) >= 0 {
        // An anchor is in sync, so it is not transferred itself.
        let d = entry_at(dest, source[j].relative_path)->0;
        assert(in_sync(cfg, source[j], d));
        assert(!transfers(cfg, source, dest, j));
    } else {
        assert(representative(cfg, source, dest, ino, j) < 0);
    }
    j
}

impl SyncPlan {
    /// A plan without tasks.
    pub fn new() -> (r: SyncPlan)
        ensures
            r.creates@.len() == 0,
            r.updates@.len() == 0,
            r.deletes@.len() == 0,
            r.skips@.len() == 0,
            r.meta@.len() == 0,
    {
        SyncPlan {
            creates: Vec::new(),
            updates: Vec::new(),
            deletes: Vec::new(),
            skips: Vec::new(),
            meta: Vec::new(),
        }
    }

    /// Every task that transfers something: the creates, then the updates.
    pub fn tasks(&self) -> (out: Vec<&SyncTask>)
        ensures
            out@.len() == self.creates@.len() + self.updates@.len(),
            forall|i: int|
                0 <= i < out@.len() ==> *#[trigger] out@[i] == (self.creates@ + self.updates@)[i],
    {
        let mut out: Vec<&SyncTask> = Vec::new();
        let mut i: usize = 0;
        while i < self.creates.len()
            invariant
                i <= self.creates.len(),
                out@.len() == i,
                forall|j: int| 0 <= j < i ==> *#[trigger] out@[j] == self.creates@[j],
            decreases self.creates.len() - i,
        {
            out.push(&self.creates[i]);
            i += 1;
        }
        let mut k: usize = 0;
        while k < self.updates.len()
            invariant
                k <= self.updates.len(),
                out@.len() == self.creates@.len() + k,
                forall|j: int|
                    0 <= j < out@.len() ==> *#[trigger] out@[j] == (self.creates@
                        + self.updates@)[j],
            decreases self.updates.len() - k,
        {
            out.push(&self.updates[k]);
            k += 1;
        }
        out
    }

    /// The report lines for the creates, the updates, the attribute-only
    /// updates and the skips, in this order.
    pub fn itemize(&self) -> (out: Vec<ItemizeEntry>)
        ensures
            stats::itemize_views(out@) == report(ItemizeAction::Create, task_views(self.creates@))
                + report(ItemizeAction::Update, task_views(self.updates@)) + report(
                ItemizeAction::Update,
                task_views(self.meta@),
            ) + report(ItemizeAction::Skip, task_views(self.skips@)),
    {
        let mut out: Vec<ItemizeEntry> = Vec::new();
        assert(stats::itemize_views(out@) =~= Seq::empty());
        itemize_all(ItemizeAction::Create, &self.creates, &mut out);
        itemize_all(ItemizeAction::Update, &self.updates, &mut out);
        itemize_all(ItemizeAction::Update, &self.meta, &mut out);
        itemize_all(ItemizeAction::Skip, &self.skips, &mut out);
        assert(stats::itemize_views(out@) =~= report(
            ItemizeAction::Create,
            task_views(self.creates@),
        ) + report(ItemizeAction::Update, task_views(self.updates@)) + report(
            ItemizeAction::Update,
            task_views(self.meta@),
        ) + report(ItemizeAction::Skip, task_views(self.skips@)));
        out
    }
}

impl Default for SyncPlan {
    fn default() -> (r: SyncPlan)
        ensures
            r.creates@.len() == 0,
            r.updates@.len() == 0,
            r.deletes@.len() == 0,
            r.skips@.len() == 0,
            r.meta@.len() == 0,
    {
        SyncPlan::new()
    }
}

/// Append the report lines for `tasks`.
fn itemize_all(action: ItemizeAction, tasks: &Vec<SyncTask>, out: &mut Vec<ItemizeEntry>)
    ensures
        stats::itemize_views(final(out)@) == stats::itemize_views(old(out)@) + report(
            action,
            task_views(tasks@),
        ),
{
    let ghost lines = report(action, task_views(tasks@));
    let mut i: usize = 0;
    while i < tasks.len()
        invariant
            i <= tasks.len(),
            lines == report(action, task_views(tasks@)),
            stats::itemize_views(out@) == stats::itemize_views(old(out)@) + lines.take(i as int),
        decreases tasks.len() - i,
    {
        let line = itemize_entry(action, &tasks[i]);
        let ghost before = out@;
        out.push(line);
        proof {
            assert(stats::itemize_views(out@) =~= stats::itemize_views(before).push(line@));
            assert(lines[i as int] == line@);
            assert(lines.take(i + 1) =~= lines.take(i as int).push(line@));
        }
        i += 1;
    }
    assert(lines.take(i as int) =~= lines);
}

/// The report line for one task.
pub fn itemize_entry(action: ItemizeAction, task: &SyncTask) -> (r: ItemizeEntry)
    ensures
        r@ == stats::change(
            action,
            wire::wire_text(task@.relative_path),
            kind_letter(task@),
        ),
{
    ItemizeEntry::new(action, wire::wire_rel(task.relative_path.as_str()), task_kind(task))
}

/// The file-type letter of a task: `d` directory, `L` link, `S` special, `f`
/// file.
pub fn task_kind(task: &SyncTask) -> (c: char)
    ensures
        c == kind_letter(task@),
{
    if task.is_dir {
        'd'
    } else if task.link_target.is_some() {
        'L'
    } else if task.special.is_some() {
        'S'
    } else {
        'f'
    }
}

/// The planner: source manifest × destination manifest → [`SyncPlan`].
#[derive(Debug, Clone)]
pub struct Planner {
    config: PlannerConfig,
}

impl Default for Planner {
    fn default() -> (r: Planner)
        ensures
            !r.cfg().checksum && !r.cfg().size_only && !r.cfg().update_only,
            !r.cfg().ignore_existing && !r.cfg().existing && !r.cfg().ignore_times,
            !r.cfg().delete && r.cfg().delete_scope is None,
            !r.cfg().preserve_perms && !r.cfg().preserve_times,
    {
        Planner { config: PlannerConfig::default() }
    }
}

impl Planner {
    /// The configuration.
    pub closed spec fn cfg(&self) -> PlannerConfig {
        self.config
    }

    /// Create a planner with the given configuration.
    pub fn new(config: PlannerConfig) -> (r: Planner)
        ensures
            r.cfg() == config,
    {
        Planner { config }
    }

    /// Plan a sync between two manifests.
    pub fn plan(&self, source: &Manifest, dest: &Manifest) -> (plan: SyncPlan)
        ensures
            task_views(plan.creates@) == tasks_with(
                self.cfg(),
                source.entries(),
                dest.entries(),
                source.entries().len() as int,
                SyncAction::Create,
            ),
            task_views(plan.updates@) == tasks_with(
                self.cfg(),
                source.entries(),
                dest.entries(),
                source.entries().len() as int,
                SyncAction::Update,
            ),
            task_views(plan.skips@) == tasks_with(
                self.cfg(),
                source.entries(),
                dest.entries(),
                source.entries().len() as int,
                SyncAction::Skip,
            ),
            task_views(plan.meta@) == tasks_with(
                self.cfg(),
                source.entries(),
                dest.entries(),
                source.entries().len() as int,
                SyncAction::MetaOnly,
            ),
            task_views(plan.deletes@) == deletions(
                self.cfg(),
                source.entries(),
                dest.entries(),
                dest.entries().len() as int,
            ),
    {
        let ghost cfg = self.config;
        let ghost sv = source.entries();
        let ghost dv = dest.entries();
        let src_index = index_of(source);
        let dst_index = index_of(dest);
        let mut plan = SyncPlan::new();

        // Positions whose content other names of the same inode can link to.
        let mut reps: HashMap<u64, usize> = HashMap::new();
        let mut i: usize = 0;
        while i < source.files.len()
            invariant
                i <= source.files.len(),
                cfg == self.config,
                sv == source.entries(),
                dv == dest.entries(),
                dst_index.well_formed(),
                dst_index@ == scanner::paths(dv),
                forall|ino: u64|
                    #![trigger reps@.dom().contains(ino)]
                    reps@.dom().contains(ino) <==> first_anchor(cfg, sv, dv, ino, i as int) >= 0,
                forall|ino: u64|
                    #![trigger reps@[ino]]
                    reps@.dom().contains(ino) ==> reps@[ino] == first_anchor(
                        cfg,
                        sv,
                        dv,
                        ino,
                        i as int,
                    ) && reps@[ino] < source.files.len(),
            decreases source.files.len() - i,
        {
            let src = &source.files[i];
            assert(sv[i as int] == src@);
            let anchored = self.anchored(src, dest, &dst_index);
            assert(anchored == anchors(cfg, sv, dv, i as int));
            let ghost old_reps = reps@;
            if src.kind == FileKind::File && anchored {
                match src.inode {
                    Some(ino) => {
                        if !reps.contains_key(&ino) {
                            reps.insert(ino, i);
                        }
                    },
                    None => {},
                }
            }
            proof {
                assert forall|ino: u64|
                    #![trigger reps@.dom().contains(ino)]
                    reps@.dom().contains(ino) <==> first_anchor(cfg, sv, dv, ino, i + 1) >= 0 by {
                    assert(old_reps.dom().contains(ino) <==> first_anchor(
                        cfg,
                        sv,
                        dv,
                        ino,
                        i as int,
                    ) >= 0);
                }
                assert forall|ino: u64|
                    #![trigger reps@[ino]]
                    reps@.dom().contains(ino) implies reps@[ino] == first_anchor(
                    cfg,
                    sv,
                    dv,
                    ino,
                    i + 1,
                ) && reps@[ino] < source.files.len() by {
                    assert(old_reps.dom().contains(ino) ==> old_reps[ino] == first_anchor(
                        cfg,
                        sv,
                        dv,
                        ino,
                        i as int,
                    ));
                }
            }
            i += 1;
        }

        let mut k: usize = 0;
        proof {
            assert(task_views(plan.creates@) =~= Seq::empty());
            assert(task_views(plan.updates@) =~= Seq::empty());
            assert(task_views(plan.skips@) =~= Seq::empty());
            assert(task_views(plan.meta@) =~= Seq::empty());
        }
        while k < source.files.len()
            invariant
                k <= source.files.len(),
                cfg == self.config,
                sv == source.entries(),
                dv == dest.entries(),
                dst_index.well_formed(),
                dst_index@ == scanner::paths(dv),
                plan.deletes@.len() == 0,
                task_views(plan.creates@) == tasks_with(cfg, sv, dv, k as int, SyncAction::Create),
                task_views(plan.updates@) == tasks_with(cfg, sv, dv, k as int, SyncAction::Update),
                task_views(plan.skips@) == tasks_with(cfg, sv, dv, k as int, SyncAction::Skip),
                task_views(plan.meta@) == tasks_with(cfg, sv, dv, k as int, SyncAction::MetaOnly),
                forall|ino: u64|
                    #![trigger reps@.dom().contains(ino)]
                    reps@.dom().contains(ino) <==> representative(cfg, sv, dv, ino, k as int) >= 0,
                forall|ino: u64|
                    #![trigger reps@[ino]]
                    reps@.dom().contains(ino) ==> reps@[ino] == representative(
                        cfg,
                        sv,
                        dv,
                        ino,
                        k as int,
                    ) && reps@[ino] < source.files.len(),
            decreases source.files.len() - k,
        {
            let src = &source.files[k];
            assert(sv[k as int] == src@);
            let action = self.decide(src, dest, &dst_index);
            assert(action == decision_at(cfg, sv, dv, k as int));
            let ghost old_reps = reps@;
            let plain = Self::task_for(src, action);
            let task = if action == SyncAction::Create || action == SyncAction::Update {
                Self::assign_hardlink(src, plain, source, k, &mut reps)
            } else {
                plain
            };
            proof {
                assert(task@ == task_at(cfg, sv, dv, k as int));
                assert forall|ino: u64|
                    #![trigger reps@.dom().contains(ino)]
                    reps@.dom().contains(ino) <==> representative(cfg, sv, dv, ino, k + 1)
                        >= 0 by {
                    assert(old_reps.dom().contains(ino) <==> representative(
                        cfg,
                        sv,
                        dv,
                        ino,
                        k as int,
                    ) >= 0);
                }
                assert forall|ino: u64|
                    #![trigger reps@[ino]]
                    reps@.dom().contains(ino) implies reps@[ino] == representative(
                    cfg,
                    sv,
                    dv,
                    ino,
                    k + 1,
                ) && reps@[ino] < source.files.len() by {
                    assert(old_reps.dom().contains(ino) ==> old_reps[ino] == representative(
                        cfg,
                        sv,
                        dv,
                        ino,
                        k as int,
                    ));
                }
            }
            let ghost was = plan;
            match action {
                SyncAction::Create => {
                    plan.creates.push(task);
                    assert(task_views(plan.creates@) =~= task_views(was.creates@).push(task@));
                },
                SyncAction::Update => {
                    plan.updates.push(task);
                    assert(task_views(plan.updates@) =~= task_views(was.updates@).push(task@));
                },
                SyncAction::MetaOnly => {
                    plan.meta.push(task);
                    assert(task_views(plan.meta@) =~= task_views(was.meta@).push(task@));
                },
                _ => {
                    plan.skips.push(task);
                    assert(task_views(plan.skips@) =~= task_views(was.skips@).push(task@));
                },
            }
            k += 1;
        }

        let mut d: usize = 0;
        assert(task_views(plan.deletes@) =~= Seq::empty());
        while d < dest.files.len()
            invariant
                d <= dest.files.len(),
                cfg == self.config,
                sv == source.entries(),
                dv == dest.entries(),
                src_index.well_formed(),
                src_index@ == scanner::paths(sv),
                task_views(plan.creates@) == tasks_with(
                    cfg,
                    sv,
                    dv,
                    sv.len() as int,
                    SyncAction::Create,
                ),
                task_views(plan.updates@) == tasks_with(
                    cfg,
                    sv,
                    dv,
                    sv.len() as int,
                    SyncAction::Update,
                ),
                task_views(plan.skips@) == tasks_with(
                    cfg,
                    sv,
                    dv,
                    sv.len() as int,
                    SyncAction::Skip,
                ),
                task_views(plan.meta@) == tasks_with(
                    cfg,
                    sv,
                    dv,
                    sv.len() as int,
                    SyncAction::MetaOnly,
                ),
                task_views(plan.deletes@) == deletions(cfg, sv, dv, d as int),
            decreases dest.files.len() - d,
        {
            let dst = &dest.files[d];
            assert(dv[d as int] == dst@);
            if self.config.delete {
                let key = text::chars_of(dst.relative_path.as_str());
                let known = src_index.find_last(&key);
                if known.is_none() && self.delete_in_scope(dst.relative_path.as_str()) {
                    let ghost was = plan.deletes@;
                    let task = SyncTask {
                        relative_path: text::copy_str(dst.relative_path.as_str()),
                        action: SyncAction::Delete,
                        source_size: 0,
                        is_dir: dst.is_dir,
                        link_target: None,
                        link_kind: LinkKind::Symlink,
                        link_to: None,
                        special: None,
                        source_path: None,
                        dereferenced: false,
                    };
                    plan.deletes.push(task);
                    assert(task_views(plan.deletes@) =~= task_views(was).push(task@));
                }
            }
            d += 1;
        }
        plan
    }

    /// What happens to a source entry.
    fn decide(&self, src: &FileEntry, dest: &Manifest, index: &KeyIndex) -> (r: SyncAction)
        requires
            index.well_formed(),
            index@ == scanner::paths(dest.entries()),
        ensures
            r == decision(self.cfg(), src@, entry_at(dest.entries(), src@.relative_path)),
    {
        let key = text::chars_of(src.relative_path.as_str());
        match index.find_last(&key) {
            None => {
                if self.config.existing && !src.is_dir {
                    SyncAction::Skip
                } else {
                    SyncAction::Create
                }
            },
            Some(at) => {
                let dst = &dest.files[at];
                assert(dest.entries()[at as int] == dst@);
                if src.is_dir && dst.is_dir {
                    return SyncAction::Skip;
                }
                match self.compare(src, dst) {
                    SyncAction::Skip => {
                        if !src.is_dir && src.link_target.is_none() && !Self::is_special(src.kind)
                            && !self.flag_forced_skip(src, dst) && self.attrs_differ(src, dst) {
                            SyncAction::MetaOnly
                        } else {
                            SyncAction::Skip
                        }
                    },
                    _ => SyncAction::Update,
                }
            },
        }
    }

    /// Whether the destination already holds the content of a source entry.
    fn anchored(&self, src: &FileEntry, dest: &Manifest, index: &KeyIndex) -> (r: bool)
        requires
            index.well_formed(),
            index@ == scanner::paths(dest.entries()),
        ensures
            r == match entry_at(dest.entries(), src@.relative_path) {
                Some(d) => d.link_target is None && in_sync(self.cfg(), src@, d)
                    && content_in_sync(self.cfg(), src@, d),
                None => false,
            },
    {
        let key = text::chars_of(src.relative_path.as_str());
        match index.find_last(&key) {
            None => false,
            Some(at) => {
                let dst = &dest.files[at];
                assert(dest.entries()[at as int] == dst@);
                dst.link_target.is_none() && self.compare(src, dst) == SyncAction::Skip
                    && self.content_matches(src, dst)
            },
        }
    }

    /// Whether a destination path may be deleted: unrestricted, or under one
    /// of the scope's roots.
    pub fn delete_in_scope(&self, rel: &str) -> (r: bool)
        ensures
            r == deletable(scope_view(self.cfg().delete_scope), rel@),
    {
        match &self.config.delete_scope {
            None => true,
            Some(scope) => {
                let p = text::replace_char(rel, '\\', '/');
                let ghost roots = text::views(scope@);
                let mut i: usize = 0;
                while i < scope.len()
                    invariant
                        i <= scope.len(),
                        p@ == text::swap_char(rel@, '\\', '/'),
                        roots == text::views(scope@),
                        scope_view(self.cfg().delete_scope) == Some(roots),
                        forall|j: int| 0 <= j < i ==> !#[trigger] scoped(roots[j], rel@),
                    decreases scope.len() - i,
                {
                    let root = text::replace_char(scope[i].as_str(), '\\', '/');
                    let mut below = text::copy_str(root.as_str());
                    below.push('/');
                    assert(roots[i as int] == scope[i as int]@);
                    if text::same(p.as_str(), root.as_str()) || text::begins_with(
                        p.as_str(),
                        below.as_str(),
                    ) {
                        proof {
                            lemma_under(roots, rel@, i as int);
                        }
                        return true;
                    }
                    i += 1;
                }
                false
            },
        }
    }

    /// Whether a content-matched file still needs its attributes re-applied.
    pub fn attrs_differ(&self, src: &FileEntry, dst: &FileEntry) -> (r: bool)
        ensures
            r == attrs_drifted(self.cfg(), src@, dst@),
    {
        let perms = self.config.preserve_perms && (src.mode & 0o7777) != (dst.mode & 0o7777);
        let times = self.config.preserve_times && !Self::times_match(src, dst);
        perms || times
    }

    /// Whether the destination was modified after the source.
    pub fn is_newer(src: &FileEntry, dst: &FileEntry) -> (r: bool)
        ensures
            r == newer(src@, dst@),
    {
        dst.mtime_sec > src.mtime_sec || (dst.mtime_sec == src.mtime_sec && dst.mtime_nsec
            > src.mtime_nsec)
    }

    /// Whether a skip was forced by a flag rather than by the quick check.
    pub fn flag_forced_skip(&self, src: &FileEntry, dst: &FileEntry) -> (r: bool)
        ensures
            r == (kept_as_newer(self.cfg(), src@, dst@) || kept_as_existing(
                self.cfg(),
                src@,
                dst@,
            )),
    {
        (self.config.update_only && Self::is_newer(src, dst)) || (self.config.ignore_existing
            && !src.is_dir && !dst.is_dir)
    }

    /// Whether the destination entry already holds the source's content.
    pub fn content_matches(&self, src: &FileEntry, dst: &FileEntry) -> (r: bool)
        ensures
            r == content_in_sync(self.cfg(), src@, dst@),
    {
        if self.config.checksum {
            return match (&src.file_hash, &dst.file_hash) {
                (Some(a), Some(b)) => protocol::same_hash(a, b),
                _ => false,
            };
        }
        if self.config.size_only {
            return src.size == dst.size;
        }
        src.size == dst.size && Self::times_match(src, dst)
    }

    /// Decide the action for an entry that exists on both sides.
    pub fn compare(&self, src: &FileEntry, dst: &FileEntry) -> (r: SyncAction)
        ensures
            r == if in_sync(self.cfg(), src@, dst@) {
                SyncAction::Skip
            } else {
                SyncAction::Update
            },
    {
        if self.config.ignore_existing && !src.is_dir && !dst.is_dir {
            return SyncAction::Skip;
        }
        if src.is_dir != dst.is_dir {
            return SyncAction::Update;
        }
        if src.link_target.is_some() || dst.link_target.is_some() {
            if text::same_opt(&src.link_target, &dst.link_target) && (self.config.checksum
                || self.config.size_only || Self::times_match(src, dst)) {
                return SyncAction::Skip;
            }
            return SyncAction::Update;
        }
        if Self::is_special(src.kind) || Self::is_special(dst.kind) {
            return if src.kind == dst.kind && src.rdev == dst.rdev && src.mtime_sec
                == dst.mtime_sec {
                SyncAction::Skip
            } else {
                SyncAction::Update
            };
        }
        if self.config.update_only && Self::is_newer(src, dst) {
            return SyncAction::Skip;
        }
        if self.config.ignore_times {
            return SyncAction::Update;
        }
        if self.content_matches(src, dst) {
            SyncAction::Skip
        } else {
            SyncAction::Update
        }
    }

    /// Make `task` a hard link when its source inode already has a
    /// representative position; otherwise `at` becomes that position.
    fn assign_hardlink(
        src: &FileEntry,
        task: SyncTask,
        source: &Manifest,
        at: usize,
        reps: &mut HashMap<u64, usize>,
    ) -> (t: SyncTask)
        requires
            forall|ino: u64|
                #![trigger old(reps)@[ino]]
                old(reps)@.dom().contains(ino) ==> old(reps)@[ino] < source.files.len(),
        ensures
            match src.inode {
                Some(ino) => if src.kind == FileKind::File {
                    if old(reps)@.dom().contains(ino) {
                        &&& t@ == (TaskV {
                            link_to: Some(
                                source.entries()[old(reps)@[ino] as int].relative_path,
                            ),
                            ..task@
                        })
                        &&& final(reps)@ == old(reps)@
                    } else {
                        &&& t == task
                        &&& final(reps)@ == old(reps)@.insert(ino, at)
                    }
                } else {
                    t == task && final(reps)@ == old(reps)@
                },
                None => t == task && final(reps)@ == old(reps)@,
            },
    {
        let mut task = task;
        if src.kind == FileKind::File {
            match src.inode {
                Some(ino) => {
                    let known = match reps.get(&ino) {
                        Some(found) => Some(*found),
                        None => None,
                    };
                    match known {
                        Some(found) => {
                            assert(old(reps)@[ino] == found);
                            let target = text::copy_str(
                                source.files[found].relative_path.as_str(),
                            );
                            assert(source.entries()[found as int] == source.files[found as int]@);
                            task.link_to = Some(target);
                        },
                        None => {
                            reps.insert(ino, at);
                        },
                    }
                },
                None => {},
            }
        }
        task
    }

    /// Whether `kind` is a contentless special file.
    pub fn is_special(kind: FileKind) -> (r: bool)
        ensures
            r == special(kind),
    {
        match kind {
            FileKind::Fifo | FileKind::Socket | FileKind::BlockDevice | FileKind::CharDevice => true,
            _ => false,
        }
    }

    /// Whether the modification times agree to the nanosecond.
    pub fn times_match(src: &FileEntry, dst: &FileEntry) -> (r: bool)
        ensures
            r == same_time(src@, dst@),
    {
        src.mtime_sec == dst.mtime_sec && src.mtime_nsec == dst.mtime_nsec
    }

    /// Build the task for a source entry.
    pub fn task_for(src: &FileEntry, action: SyncAction) -> (t: SyncTask)
        ensures
            t@ == plain_task(src@, action),
    {
        SyncTask {
            relative_path: text::copy_str(src.relative_path.as_str()),
            action,
            source_size: src.size,
            is_dir: src.is_dir,
            link_target: protocol::copy_opt(&src.link_target),
            link_kind: src.link_kind,
            link_to: None,
            special: if Self::is_special(src.kind) {
                Some((src.kind, src.rdev))
            } else {
                None
            },
            source_path: protocol::copy_opt(&src.source_path),
            dereferenced: src.dereferenced,
        }
    }
}

/// Index the paths of a manifest.
fn index_of(m: &Manifest) -> (r: KeyIndex)
    ensures
        r.well_formed(),
        r@ == scanner::paths(m.entries()),
{
    let mut keys: Vec<Vec<char>> = Vec::new();
    let mut i: usize = 0;
    while i < m.files.len()
        invariant
            i <= m.files.len(),
            keys.len() == i,
            forall|j: int| 0 <= j < i ==> (#[trigger] keys@[j])@ == m.files@[j].relative_path@,
        decreases m.files.len() - i,
    {
        keys.push(text::chars_of(m.files[i].relative_path.as_str()));
        i += 1;
    }
    assert(order::key_views(keys@) =~= scanner::paths(m.entries()));
    KeyIndex::new(keys)
}

/// Whether an entry is a regular file.
pub open spec fn is_regular(e: scanner::EntryV) -> bool {
    !e.is_dir && e.link_target is None && e.kind == FileKind::File
}

/// A regular file on both sides is transferred exactly when it differs in what is
/// compared: the content hashes under `checksum`, otherwise the size, and the
/// modification time to the nanosecond unless `size_only`. `ignore_times`
/// transfers it always; only `ignore_existing`, and `update_only` where the
/// destination was modified later, keep it from being transferred.
pub proof fn law_files_that_differ_are_updated(
    cfg: PlannerConfig,
    src: scanner::EntryV,
    dst: scanner::EntryV,
)
    requires
        is_regular(src),
        is_regular(dst),
        !cfg.ignore_existing,
        !cfg.update_only || dst.mtime_sec < src.mtime_sec || (dst.mtime_sec == src.mtime_sec
            && dst.mtime_nsec <= src.mtime_nsec),
    ensures
        cfg.ignore_times ==> decision(cfg, src, Some(dst)) == SyncAction::Update,
        !cfg.checksum && src.size != dst.size ==> decision(cfg, src, Some(dst))
            == SyncAction::Update,
        !cfg.checksum && !cfg.size_only && src.mtime_sec != dst.mtime_sec ==> decision(
            cfg,
            src,
            Some(dst),
        ) == SyncAction::Update,
        !cfg.checksum && !cfg.size_only && src.mtime_nsec != dst.mtime_nsec ==> decision(
            cfg,
            src,
            Some(dst),
        ) == SyncAction::Update,
        cfg.checksum && (src.file_hash is None || src.file_hash != dst.file_hash) ==> decision(
            cfg,
            src,
            Some(dst),
        ) == SyncAction::Update,
        !cfg.ignore_times && !cfg.checksum && src.size == dst.size && (cfg.size_only || (
        src.mtime_sec == dst.mtime_sec && src.mtime_nsec == dst.mtime_nsec)) ==> decision(
            cfg,
            src,
            Some(dst),
        ) != SyncAction::Update,
        !cfg.ignore_times && cfg.checksum && src.file_hash is Some && src.file_hash
            == dst.file_hash ==> decision(cfg, src, Some(dst)) != SyncAction::Update,
{
}

/// A file that is in sync gets its attributes re-applied exactly when one that
/// is preserved drifted: the permission bits, or the modification time.
pub proof fn law_drifted_attributes_are_reapplied(
    cfg: PlannerConfig,
    src: scanner::EntryV,
    dst: scanner::EntryV,
)
    requires
        is_regular(src),
        is_regular(dst),
        !cfg.ignore_existing,
        !cfg.update_only || dst.mtime_sec < src.mtime_sec || (dst.mtime_sec == src.mtime_sec
            && dst.mtime_nsec <= src.mtime_nsec),
        decision(cfg, src, Some(dst)) != SyncAction::Update,
    ensures
        cfg.preserve_perms && src.mode & 0o7777 != dst.mode & 0o7777 ==> decision(
            cfg,
            src,
            Some(dst),
        ) == SyncAction::MetaOnly,
        cfg.preserve_times && (src.mtime_sec != dst.mtime_sec || src.mtime_nsec != dst.mtime_nsec)
            ==> decision(cfg, src, Some(dst)) == SyncAction::MetaOnly,
        (!cfg.preserve_perms || src.mode & 0o7777 == dst.mode & 0o7777) && (!cfg.preserve_times
            || (src.mtime_sec == dst.mtime_sec && src.mtime_nsec == dst.mtime_nsec))
            ==> decision(cfg, src, Some(dst)) == SyncAction::Skip,
{
}

/// What the destination lacks is created, but for files under `existing`; a
/// directory that is there needs nothing; and what changed between directory and
/// file is replaced.
pub proof fn law_missing_and_replaced_entries_are_transferred(
    cfg: PlannerConfig,
    src: scanner::EntryV,
    dst: scanner::EntryV,
)
    ensures
        decision(cfg, src, None) == SyncAction::Create <==> src.is_dir || !cfg.existing,
        decision(cfg, src, None) == SyncAction::Skip <==> !src.is_dir && cfg.existing,
        src.is_dir && dst.is_dir ==> decision(cfg, src, Some(dst)) == SyncAction::Skip,
        src.is_dir != dst.is_dir ==> decision(cfg, src, Some(dst)) == SyncAction::Update,
{
}

/// A link is replaced when it points elsewhere, or was a link on one side only;
/// one that points where it did is left alone unless its time differs and times
/// are compared. Links never have attributes re-applied.
pub proof fn law_links_that_point_elsewhere_are_replaced(
    cfg: PlannerConfig,
    src: scanner::EntryV,
    dst: scanner::EntryV,
)
    requires
        !cfg.ignore_existing,
        !src.is_dir,
        !dst.is_dir,
        src.link_target is Some || dst.link_target is Some,
    ensures
        src.link_target != dst.link_target ==> decision(cfg, src, Some(dst))
            == SyncAction::Update,
        src.link_target == dst.link_target && (cfg.checksum || cfg.size_only || (src.mtime_sec
            == dst.mtime_sec && src.mtime_nsec == dst.mtime_nsec)) ==> decision(
            cfg,
            src,
            Some(dst),
        ) == SyncAction::Skip,
        src.link_target == dst.link_target && !cfg.checksum && !cfg.size_only && (src.mtime_sec
            != dst.mtime_sec || src.mtime_nsec != dst.mtime_nsec) ==> decision(
            cfg,
            src,
            Some(dst),
        ) == SyncAction::Update,
{
}

/// A fifo, socket or device is replaced when its kind, its device number or its
/// time in seconds differs, and left alone otherwise.
pub proof fn law_special_files_that_differ_are_replaced(
    cfg: PlannerConfig,
    src: scanner::EntryV,
    dst: scanner::EntryV,
)
    requires
        !cfg.ignore_existing,
        !src.is_dir,
        !dst.is_dir,
        src.link_target is None,
        dst.link_target is None,
        src.kind == FileKind::Fifo || src.kind == FileKind::Socket || src.kind
            == FileKind::BlockDevice || src.kind == FileKind::CharDevice,
    ensures
        src.kind != dst.kind || src.rdev != dst.rdev || src.mtime_sec != dst.mtime_sec
            ==> decision(cfg, src, Some(dst)) == SyncAction::Update,
        src.kind == dst.kind && src.rdev == dst.rdev && src.mtime_sec == dst.mtime_sec
            ==> decision(cfg, src, Some(dst)) == SyncAction::Skip,
{
}

/// Under `update_only` a regular file that was modified later on the destination,
/// be it by a nanosecond, is left alone, and one that was not is treated as
/// without the option.
pub proof fn law_update_only_spares_later_files(
    cfg: PlannerConfig,
    src: scanner::EntryV,
    dst: scanner::EntryV,
)
    requires
        cfg.update_only,
        is_regular(src),
        is_regular(dst),
    ensures
        dst.mtime_sec > src.mtime_sec || (dst.mtime_sec == src.mtime_sec && dst.mtime_nsec
            > src.mtime_nsec) ==> decision(cfg, src, Some(dst)) == SyncAction::Skip,
        dst.mtime_sec < src.mtime_sec || (dst.mtime_sec == src.mtime_sec && dst.mtime_nsec
            <= src.mtime_nsec) ==> decision(cfg, src, Some(dst)) == decision(
            (PlannerConfig { update_only: false, ..cfg }),
            src,
            Some(dst),
        ),
{
}

/// What a task says of its file is what the manifest says of it; only a transfer
/// is ever a hard link.
pub proof fn law_tasks_describe_their_file(
    cfg: PlannerConfig,
    source: Seq<scanner::EntryV>,
    dest: Seq<scanner::EntryV>,
    i: int,
)
    requires
        0 <= i < source.len(),
    ensures
        ({
            let t = task_at(cfg, source, dest, i);
            let e = source[i];
            &&& t.relative_path == e.relative_path
            &&& t.source_size == e.size
            &&& t.is_dir == e.is_dir
            &&& t.link_target == e.link_target
            &&& t.link_kind == e.link_kind
            &&& t.source_path == e.source_path
            &&& t.dereferenced == e.dereferenced
            &&& t.action == decision(cfg, e, entry_at(dest, e.relative_path))
            &&& t.special is Some <==> e.kind == FileKind::Fifo || e.kind == FileKind::Socket
                || e.kind == FileKind::BlockDevice || e.kind == FileKind::CharDevice
            &&& t.special is Some ==> t.special == Some((e.kind, e.rdev))
            &&& t.link_to is Some ==> e.kind == FileKind::File && e.inode is Some && (t.action
                == SyncAction::Create || t.action == SyncAction::Update)
        }),
{
}

/// Every source entry is in the list of its action, in the order of the source.
pub proof fn law_every_entry_is_listed(
    cfg: PlannerConfig,
    source: Seq<scanner::EntryV>,
    dest: Seq<scanner::EntryV>,
    n: int,
    i: int,
) -> (k: int)
    requires
        0 <= i < n <= source.len(),
    ensures
        ({
            let list = tasks_with(cfg, source, dest, n, decision_at(cfg, source, dest, i));
            0 <= k < list.len() && list[k] == task_at(cfg, source, dest, i)
                && list[k].relative_path == source[i].relative_path
        }),
    decreases n,
{
    let action = decision_at(cfg, source, dest, i);
    if i == n - 1 {
        tasks_with(cfg, source, dest, n - 1, action).len() as int
    } else {
        law_every_entry_is_listed(cfg, source, dest, n - 1, i)
    }
}

/// The counterpart of a path is the last entry with exactly that path.
pub proof fn law_counterparts_have_the_path(v: Seq<scanner::EntryV>, p: Seq<char>)
    ensures
        entry_at(v, p) is Some <==> scanner::paths(v).contains(p),
        entry_at(v, p) matches Some(e) ==> e.relative_path == p && v.contains(e),
        forall|e: scanner::EntryV|
            e.relative_path == p ==> #[trigger] entry_at(v.push(e), p) == Some(e),
{
    order::lemma_last_index(scanner::paths(v), p);
    let i = order::last_index(scanner::paths(v), p);
    if i >= 0 {
        assert(v[i].relative_path == p);
    }
    assert forall|e: scanner::EntryV| e.relative_path == p implies #[trigger] entry_at(
        v.push(e),
        p,
    ) == Some(e) by {
        assert(scanner::paths(v.push(e)) =~= scanner::paths(v).push(e.relative_path));
    }
}

/// With the delete option, everything in scope that the source lacks is deleted:
/// each such entry of the destination is listed, under its own path.
pub proof fn law_extra_entries_are_deleted(
    cfg: PlannerConfig,
    source: Seq<scanner::EntryV>,
    dest: Seq<scanner::EntryV>,
    n: int,
    i: int,
) -> (k: int)
    requires
        cfg.delete,
        0 <= i < n <= dest.len(),
        !scanner::paths(source).contains(dest[i].relative_path),
        deletable(scope_view(cfg.delete_scope), dest[i].relative_path),
    ensures
        0 <= k < deletions(cfg, source, dest, n).len(),
        deletions(cfg, source, dest, n)[k].relative_path == dest[i].relative_path,
        deletions(cfg, source, dest, n)[k].is_dir == dest[i].is_dir,
        deletions(cfg, source, dest, n)[k].action == SyncAction::Delete,
    decreases n,
{
    if i == n - 1 {
        law_counterparts_have_the_path(source, dest[i].relative_path);
        deletions(cfg, source, dest, n - 1).len() as int
    } else {
        law_extra_entries_are_deleted(cfg, source, dest, n - 1, i)
    }
}

/// A scope covers its roots and what lies below them, and nothing beside them;
/// an empty scope covers nothing.
pub proof fn law_scopes_cover_what_lies_below(
    root: Seq<char>,
    name: Seq<char>,
    rel: Seq<char>,
    more: Seq<Seq<char>>,
)
    ensures
        deletable(None, rel),
        !deletable(Some(Seq::empty()), rel),
        deletable(Some(more.push(root)), root),
        deletable(Some(more.push(root)), root.push('/') + name),
        deletable(Some(more), rel) ==> deletable(Some(more.push(root)), rel),
        !root.contains('\\') && !rel.contains('\\') && deletable(Some(seq![root]), rel) ==> rel
            == root || root.push('/').is_prefix_of(rel),
{
    let roots = more.push(root);
    assert(roots[more.len() as int] == root);
    assert(scoped(roots[more.len() as int], root));
    let below = root.push('/') + name;
    let p = text::swap_char(below, '\\', '/');
    let r = text::swap_char(root, '\\', '/');
    assert(r.push('/') =~= p.take(r.len() as int + 1));
    assert(scoped(roots[more.len() as int], below));
    if deletable(Some(more), rel) {
        let i = choose|i: int| 0 <= i < more.len() && #[trigger] scoped(more[i], rel);
        assert(scoped(roots[i], rel));
    }
    if !root.contains('\\') && !rel.contains('\\') && deletable(Some(seq![root]), rel) {
        let i = choose|i: int| 0 <= i < 1 && #[trigger] scoped(seq![root][i], rel);
        assert forall|k: int| 0 <= k < rel.len() implies rel[k] != '\\' by {
            assert(rel.contains(rel[k]));
        }
        assert forall|k: int| 0 <= k < root.len() implies root[k] != '\\' by {
            assert(root.contains(root[k]));
        }
        assert(text::swap_char(rel, '\\', '/') =~= rel);
        assert(r =~= root);
    }
}

/// The names of one inode share its content: of two regular files with one inode
/// that are both transferred, the later one is a hard link; so is every one that
/// is transferred while another name's content is already on the destination.
pub proof fn law_names_of_one_inode_share_content(
    cfg: PlannerConfig,
    source: Seq<scanner::EntryV>,
    dest: Seq<scanner::EntryV>,
    j: int,
    i: int,
)
    requires
        0 <= j < source.len(),
        0 <= i < source.len(),
        source[i].kind == FileKind::File,
        source[j].kind == FileKind::File,
        source[i].inode is Some,
        source[i].inode == source[j].inode,
        transfers(cfg, source, dest, i),
        anchors(cfg, source, dest, j) || (j < i && transfers(cfg, source, dest, j)),
    ensures
        task_at(cfg, source, dest, i).link_to is Some,
{
    let ino = source[i].inode->0;
    if anchors(cfg, source, dest, j) {
        lemma_anchor_is_found(cfg, source, dest, ino, source.len() as int, j);
    } else {
        lemma_transferred_is_found(cfg, source, dest, ino, i, j);
    }
}

proof fn lemma_anchor_is_found(
    cfg: PlannerConfig,
    source: Seq<scanner::EntryV>,
    dest: Seq<scanner::EntryV>,
    ino: u64,
    n: int,
    j: int,
)
    requires
        0 <= j < n,
        has_inode(source, j, ino),
        anchors(cfg, source, dest, j),
    ensures
        first_anchor(cfg, source, dest, ino, n) >= 0,
    decreases n,
{
    if j < n - 1 {
        lemma_anchor_is_found(cfg, source, dest, ino, n - 1, j);
    }
}

proof fn lemma_transferred_is_found(
    cfg: PlannerConfig,
    source: Seq<scanner::EntryV>,
    dest: Seq<scanner::EntryV>,
    ino: u64,
    n: int,
    j: int,
)
    requires
        0 <= j < n,
        has_inode(source, j, ino),
        transfers(cfg, source, dest, j),
    ensures
        first_transferred(cfg, source, dest, ino, n) >= 0,
    decreases n,
{
    if j < n - 1 {
        lemma_transferred_is_found(cfg, source, dest, ino, n - 1, j);
    }
}

/// What counts as already on the destination has the source's content there: a
/// file that is no link, with equal hashes under `checksum` and equal size
/// otherwise.
pub proof fn law_anchors_hold_the_content(
    cfg: PlannerConfig,
    source: Seq<scanner::EntryV>,
    dest: Seq<scanner::EntryV>,
    i: int,
)
    requires
        anchors(cfg, source, dest, i),
    ensures
        entry_at(dest, source[i].relative_path) matches Some(d) && d.link_target is None && (
        cfg.checksum ==> source[i].file_hash is Some && d.file_hash == source[i].file_hash) && (
        !cfg.checksum ==> d.size == source[i].size) && (!cfg.checksum && !cfg.size_only
            ==> d.mtime_sec == source[i].mtime_sec && d.mtime_nsec == source[i].mtime_nsec),
{
}

/// The letter of a task tells what it is.
pub proof fn law_letters_tell_the_kind(t: TaskV)
    ensures
        t.is_dir <==> kind_letter(t) == 'd',
        !t.is_dir && t.link_target is Some <==> kind_letter(t) == 'L',
        !t.is_dir && t.link_target is None && t.special is Some <==> kind_letter(t) == 'S',
        !t.is_dir && t.link_target is None && t.special is None <==> kind_letter(t) == 'f',
{
}

/// A report has one line for each task, in order, under the path as it travels
/// and with the letter of its kind.
pub proof fn law_reports_name_every_task(action: ItemizeAction, tasks: Seq<TaskV>, i: int)
    requires
        0 <= i < tasks.len(),
    ensures
        report(action, tasks).len() == tasks.len(),
        report(action, tasks)[i].action == action,
        report(action, tasks)[i].path == wire::wire_text(tasks[i].relative_path),
        report(action, tasks)[i].kind == kind_letter(tasks[i]),
        report(action, tasks)[i].size is None,
{
}

/// Only what is transferred becomes a hard link: an entry that is in place, or
/// gets its attributes alone, is linked to nothing.
pub proof fn law_only_transfers_become_hard_links(
    cfg: PlannerConfig,
    source: Seq<scanner::EntryV>,
    dest: Seq<scanner::EntryV>,
    i: int,
)
    ensures
        ({
            let t = task_at(cfg, source, dest, i);
            let d = decision_at(cfg, source, dest, i);
            &&& t.action == d
            &&& d != SyncAction::Create && d != SyncAction::Update ==> t.link_to is None
            &&& d == SyncAction::Create || d == SyncAction::Update ==> t.link_to == link_source(
                cfg,
                source,
                dest,
                i,
            )
        }),
{
}

/// The model of a task shows each of its fields as it is.
pub proof fn law_models_show_the_task(t: SyncTask)
    ensures
        t@.relative_path == t.relative_path@,
        t@.action == t.action,
        t@.source_size == t.source_size,
        t@.is_dir == t.is_dir,
        t@.link_kind == t.link_kind,
        t@.special == t.special,
        t@.dereferenced == t.dereferenced,
        t.link_target matches Some(x) ==> t@.link_target == Some(x@),
        t.link_target is None ==> t@.link_target is None,
        t.link_to matches Some(x) ==> t@.link_to == Some(x@),
        t.link_to is None ==> t@.link_to is None,
        t.source_path matches Some(x) ==> t@.source_path == Some(x@),
        t.source_path is None ==> t@.source_path is None,
{
}

/// A file that is already in place with the content of the source anchors the
/// other names of its inode.
pub proof fn law_unchanged_files_are_anchors(
    cfg: PlannerConfig,
    source: Seq<scanner::EntryV>,
    dest: Seq<scanner::EntryV>,
    i: int,
    d: scanner::EntryV,
)
    requires
        is_regular(source[i]),
        is_regular(d),
        entry_at(dest, source[i].relative_path) == Some(d),
        !cfg.ignore_times,
        cfg.checksum ==> source[i].file_hash is Some && source[i].file_hash == d.file_hash,
        !cfg.checksum ==> source[i].size == d.size && (cfg.size_only || (source[i].mtime_sec
            == d.mtime_sec && source[i].mtime_nsec == d.mtime_nsec)),
    ensures
        anchors(cfg, source, dest, i),
{
}

/// The name that a hard link leads to is the first one of its inode that is
/// already in place, and without such a name the first one that is transferred.
pub proof fn law_hard_links_lead_to_the_first_holder(
    cfg: PlannerConfig,
    source: Seq<scanner::EntryV>,
    dest: Seq<scanner::EntryV>,
    i: int,
    k: int,
)
    requires
        0 <= i < source.len(),
        transfers(cfg, source, dest, i),
        source[i].kind == FileKind::File,
        source[i].inode is Some,
        0 <= k < source.len(),
        source[k].kind == FileKind::File,
        source[k].inode == source[i].inode,
        forall|j: int|
            #![trigger source[j]]
            0 <= j < k && source[j].kind == FileKind::File && source[j].inode == source[i].inode
                ==> !anchors(cfg, source, dest, j),
    ensures
        anchors(cfg, source, dest, k) ==> task_at(cfg, source, dest, i).link_to == Some(
            source[k].relative_path,
        ),
        k < i && transfers(cfg, source, dest, k) && (forall|j: int|
            #![trigger source[j]]
            0 <= j < source.len() && source[j].kind == FileKind::File && source[j].inode
                == source[i].inode ==> !anchors(cfg, source, dest, j)) && (forall|j: int|
            #![trigger source[j]]
            0 <= j < k && source[j].kind == FileKind::File && source[j].inode == source[i].inode
                ==> !transfers(cfg, source, dest, j)) ==> task_at(cfg, source, dest, i).link_to
            == Some(source[k].relative_path),
{
    let ino = source[i].inode->0;
    let n = source.len() as int;
    lemma_anchor_found(cfg, source, dest, ino, n);
    lemma_transferred_found(cfg, source, dest, ino, i);
    let a = first_anchor(cfg, source, dest, ino, n);
    let t = first_transferred(cfg, source, dest, ino, i);
    if anchors(cfg, source, dest, k) {
        assert(has_inode(source, k, ino));
        assert(a >= 0);
        if a < k {
            assert(source[a].kind == FileKind::File);
        }
        assert(a == k);
    }
    if k < i && transfers(cfg, source, dest, k) && (forall|j: int|
        #![trigger source[j]]
        0 <= j < source.len() && source[j].kind == FileKind::File && source[j].inode
            == source[i].inode ==> !anchors(cfg, source, dest, j)) && (forall|j: int|
        #![trigger source[j]]
        0 <= j < k && source[j].kind == FileKind::File && source[j].inode == source[i].inode
            ==> !transfers(cfg, source, dest, j)) {
        assert(has_inode(source, k, ino));
        if a >= 0 {
            assert(source[a].kind == FileKind::File);
        }
        assert(t >= 0);
        if t < k {
            assert(source[t].kind == FileKind::File);
        }
        assert(t == k);
    }
}

proof fn lemma_anchor_found(
    cfg: PlannerConfig,
    source: Seq<scanner::EntryV>,
    dest: Seq<scanner::EntryV>,
    ino: u64,
    n: int,
)
    requires
        0 <= n <= source.len(),
    ensures
        ({
            let a = first_anchor(cfg, source, dest, ino, n);
            &&& -1 <= a < n
            &&& a >= 0 ==> has_inode(source, a, ino) && anchors(cfg, source, dest, a)
            &&& forall|j: int|
                0 <= j < n && #[trigger] has_inode(source, j, ino) && anchors(cfg, source, dest, j)
                    ==> 0 <= a <= j
        }),
    decreases n,
{
    if n > 0 {
        lemma_anchor_found(cfg, source, dest, ino, n - 1);
    }
}

proof fn lemma_transferred_found(
    cfg: PlannerConfig,
    source: Seq<scanner::EntryV>,
    dest: Seq<scanner::EntryV>,
    ino: u64,
    n: int,
)
    requires
        0 <= n <= source.len(),
    ensures
        ({
            let t = first_transferred(cfg, source, dest, ino, n);
            &&& -1 <= t < n
            &&& t >= 0 ==> has_inode(source, t, ino) && transfers(cfg, source, dest, t)
            &&& forall|j: int|
                0 <= j < n && #[trigger] has_inode(source, j, ino) && transfers(
                    cfg,
                    source,
                    dest,
                    j,
                ) ==> 0 <= t <= j
        }),
    decreases n,
{
    if n > 0 {
        lemma_transferred_found(cfg, source, dest, ino, n - 1);
    }
}

/// A file takes the place of a special file, and of a link.
pub proof fn law_files_replace_other_kinds(
    cfg: PlannerConfig,
    src: scanner::EntryV,
    dst: scanner::EntryV,
)
    requires
        !cfg.ignore_existing,
        is_regular(src),
        !dst.is_dir,
        dst.link_target is Some || dst.kind == FileKind::Fifo || dst.kind == FileKind::Socket
            || dst.kind == FileKind::BlockDevice || dst.kind == FileKind::CharDevice,
    ensures
        decision(cfg, src, Some(dst)) == SyncAction::Update,
{
}

/// Nothing is deleted without being asked for, nothing that the source has, and
/// nothing outside the scope.
pub proof fn law_only_extra_entries_are_deleted(
    cfg: PlannerConfig,
    source: Seq<scanner::EntryV>,
    dest: Seq<scanner::EntryV>,
    n: int,
    k: int,
) -> (i: int)
    requires
        0 <= n <= dest.len(),
        0 <= k < deletions(cfg, source, dest, n).len(),
    ensures
        0 <= i < n,
        deletions(cfg, source, dest, n)[k].relative_path == dest[i].relative_path,
        deletions(cfg, source, dest, n)[k].is_dir == dest[i].is_dir,
        cfg.delete,
        !scanner::paths(source).contains(dest[i].relative_path),
        deletable(scope_view(cfg.delete_scope), dest[i].relative_path),
    decreases n,
{
    let front = deletions(cfg, source, dest, n - 1);
    if deleted(cfg, source, dest[n - 1]) && k == front.len() {
        law_counterparts_have_the_path(source, dest[n - 1].relative_path);
        n - 1
    } else {
        law_only_extra_entries_are_deleted(cfg, source, dest, n - 1, k)
    }
}

} // verus!
