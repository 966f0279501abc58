//! The planner on small trees.

use cp2::planner::{Planner, PlannerConfig, SyncAction, SyncTask};
use cp2::protocol::{FileKind, LinkKind};
use cp2::scanner::{FileEntry, Manifest};

fn entry(rel: &str, size: u64, mtime: i64, hash: Option<[u8; 32]>) -> FileEntry {
    FileEntry {
        relative_path: rel.to_string(),
        size,
        mode: 0o644,
        mtime_sec: mtime,
        file_hash: hash,
        is_dir: false,
        link_target: None,
        link_kind: LinkKind::Symlink,
        inode: None,
        kind: FileKind::File,
        rdev: None,
        uid: None,
        gid: None,
        mtime_nsec: 0,
        atime_sec: 0,
        atime_nsec: 0,
        xattrs: None,
        source_path: None,
        dereferenced: false,
    }
}

fn manifest(files: Vec<FileEntry>) -> Manifest {
    Manifest {
        root: ".".to_string(),
        total_bytes: files.iter().map(|f| f.size).sum(),
        files,
        skipped: Vec::new(),
    }
}

#[test]
fn plan_new_files() {
    let src = manifest(vec![
        entry("a.txt", 10, 100, None),
        entry("b.txt", 20, 100, None),
    ]);
    let dst = manifest(vec![]);
    let plan = Planner::default().plan(&src, &dst);
    assert_eq!(plan.creates.len(), 2);
    assert!(plan.deletes.is_empty());
}

#[test]
fn plan_unchanged_skip() {
    let src = manifest(vec![entry("a.txt", 10, 100, None)]);
    let dst = manifest(vec![entry("a.txt", 10, 100, None)]);
    let plan = Planner::default().plan(&src, &dst);
    assert_eq!(plan.skips.len(), 1);
    assert!(plan.creates.is_empty() && plan.updates.is_empty());
}

#[test]
fn plan_size_change_update() {
    let src = manifest(vec![entry("a.txt", 12, 100, None)]);
    let dst = manifest(vec![entry("a.txt", 10, 100, None)]);
    let plan = Planner::default().plan(&src, &dst);
    assert_eq!(plan.updates.len(), 1);
}

#[test]
fn plan_mtime_change_update() {
    let src = manifest(vec![entry("a.txt", 10, 200, None)]);
    let dst = manifest(vec![entry("a.txt", 10, 100, None)]);
    let plan = Planner::default().plan(&src, &dst);
    assert_eq!(plan.updates.len(), 1);
}

#[test]
fn meta_only_on_mode_drift() {
    // Content in sync (size+mtime match) but the destination's perms
    // drifted — the planner must emit a metadata-only task, not a skip.
    let mut dst = entry("a.txt", 10, 100, None);
    dst.mode = 0o600 | 0o100_000; // raw st_mode with file-type bits
    let src = manifest(vec![entry("a.txt", 10, 100, None)]);
    let dst_manifest = manifest(vec![dst]);
    let plan = Planner::new(PlannerConfig {
        delete: true,
        preserve_perms: true,
        preserve_times: true,
        ..PlannerConfig::default()
    })
    .plan(&src, &dst_manifest);
    assert_eq!(plan.meta.len(), 1, "mode drift must be a meta task: {plan:?}");
    assert_eq!(plan.skips.len(), 0);
    assert_eq!(plan.meta[0].action, SyncAction::MetaOnly);
    // File-type bits in the raw st_mode must not count as a drift.
    let mut same = dst_manifest.clone();
    same.files[0].mode = 0o644 | 0o100_000;
    let plan2 = Planner::new(PlannerConfig {
        preserve_perms: true,
        ..PlannerConfig::default()
    })
    .plan(&src, &same);
    assert_eq!(plan2.meta.len(), 0, "type bits are not a perm drift");
    assert_eq!(plan2.skips.len(), 1);
}

#[test]
fn update_and_ignore_existing_skips_never_meta_update() {
    // rsync -u skips newer destination files *completely*: a metadata-
    // only pass would rewind the newer file's mtime to the source's.
    // Same for --ignore-existing ("do nothing to existing files"). The
    // flag-forced skips must stay plain skips even when attrs drift.
    let mut dst = entry("a.txt", 10, 100, None);
    dst.mode = 0o600;
    dst.mtime_sec = 200; // newer than the source (100)
    let src = manifest(vec![entry("a.txt", 10, 100, None)]);
    let dst_manifest = manifest(vec![dst]);
    for update in [false, true] {
        let plan = Planner::new(PlannerConfig {
            update_only: update,
            ignore_existing: !update,
            ..PlannerConfig::default()
        })
        .plan(&src, &dst_manifest);
        assert!(
            plan.meta.is_empty(),
            "flag-forced skip must not become a meta update (update_only={update}): {plan:?}"
        );
        assert_eq!(plan.skips.len(), 1);
    }
}

#[test]
fn no_meta_without_preserve_perms() {
    // `--no-perms`: a mode drift is deliberately ignored.
    let mut dst = entry("a.txt", 10, 100, None);
    dst.mode = 0o600;
    let src = manifest(vec![entry("a.txt", 10, 100, None)]);
    let dst_manifest = manifest(vec![dst]);
    let plan = Planner::default().plan(&src, &dst_manifest);
    assert!(plan.meta.is_empty());
    assert_eq!(plan.skips.len(), 1);
}

#[test]
fn meta_only_on_checksum_time_drift() {
    // `--checksum` with equal hashes but a drifted mtime: content matches,
    // times preserved — a metadata-only task (rsync re-applies the time).
    let h = Some([7u8; 32]);
    let mut dst = entry("a.txt", 10, 200, h);
    dst.mtime_nsec = 5;
    let src = manifest(vec![entry("a.txt", 10, 100, h)]);
    let dst_manifest = manifest(vec![dst]);
    let plan = Planner::new(PlannerConfig {
        checksum: true,
        preserve_times: true,
        ..PlannerConfig::default()
    })
    .plan(&src, &dst_manifest);
    assert_eq!(plan.meta.len(), 1);
    assert!(plan.updates.is_empty(), "content matches — no transfer");
}

#[test]
fn plan_delete() {
    let src = manifest(vec![]);
    let dst = manifest(vec![entry("old.txt", 10, 100, None)]);
    let plan = Planner::new(PlannerConfig {
        delete: true,
        ..PlannerConfig::default()
    })
    .plan(&src, &dst);
    assert_eq!(plan.deletes.len(), 1);
}

#[test]
fn plan_delete_respects_files_from_scope() {
    // `--files-from` + `--delete`: only destination paths under the
    // listed roots (or the roots themselves) are deleted; a sibling
    // sharing a prefix (`data.txt` vs `data/…`) and everything outside
    // the listed paths survive.
    let src = manifest(vec![]);
    let dst = manifest(vec![
        entry("data/old.txt", 10, 100, None),
        entry("data/sub/deep.txt", 10, 100, None),
        entry("unrelated.txt", 10, 100, None),
        entry("data.txt", 10, 100, None),
    ]);
    let plan = Planner::new(PlannerConfig {
        delete: true,
        delete_scope: Some(vec![
            "data/old.txt".to_string(),
            "data/sub".to_string(),
        ]),
        ..PlannerConfig::default()
    })
    .plan(&src, &dst);
    let deleted: Vec<&str> = plan
        .deletes
        .iter()
        .map(|t| t.relative_path.as_str())
        .collect();
    assert_eq!(deleted, vec!["data/old.txt", "data/sub/deep.txt"]);
    // No scope = the whole destination may be trimmed.
    let plan = Planner::new(PlannerConfig {
        delete: true,
        ..PlannerConfig::default()
    })
    .plan(&src, &dst);
    assert_eq!(plan.deletes.len(), 4);
}

#[test]
fn plan_no_delete_by_default() {
    let src = manifest(vec![]);
    let dst = manifest(vec![entry("old.txt", 10, 100, None)]);
    let plan = Planner::default().plan(&src, &dst);
    assert!(plan.deletes.is_empty());
}

#[test]
fn plan_checksum_mode() {
    let h1 = Some([1u8; 32]);
    let h2 = Some([2u8; 32]);
    let src = manifest(vec![entry("a.txt", 10, 100, h1)]);
    let dst = manifest(vec![entry("a.txt", 10, 100, h2)]);
    let plan = Planner::new(PlannerConfig {
        checksum: true,
        ..PlannerConfig::default()
    })
    .plan(&src, &dst);
    assert_eq!(plan.updates.len(), 1);
}

#[test]
fn plan_checksum_match_skip() {
    let h = Some([7u8; 32]);
    let src = manifest(vec![entry("a.txt", 10, 100, h)]);
    let dst = manifest(vec![entry("a.txt", 10, 100, h)]);
    let plan = Planner::new(PlannerConfig {
        checksum: true,
        ..PlannerConfig::default()
    })
    .plan(&src, &dst);
    assert_eq!(plan.skips.len(), 1);
}

#[test]
fn plan_update_only() {
    let src = manifest(vec![entry("a.txt", 10, 100, None)]);
    let dst = manifest(vec![entry("a.txt", 20, 200, None)]);
    let plan = Planner::new(PlannerConfig {
        update_only: true,
        ..PlannerConfig::default()
    })
    .plan(&src, &dst);
    assert_eq!(plan.skips.len(), 1);
}

#[test]
fn plan_ignore_existing() {
    let src = manifest(vec![entry("a.txt", 50, 300, None)]);
    let dst = manifest(vec![entry("a.txt", 10, 100, None)]);
    let plan = Planner::new(PlannerConfig {
        ignore_existing: true,
        ..PlannerConfig::default()
    })
    .plan(&src, &dst);
    assert_eq!(plan.skips.len(), 1);
}

#[test]
fn plan_ignore_existing_preserves_file_over_link() {
    // rsync semantics: a destination *file* at the link's path exists —
    // the type change is ignored and the file is preserved.
    let src = manifest(vec![link_entry("l", "target.txt")]);
    let dst = manifest(vec![entry("l", 10, 100, None)]);
    let plan = Planner::new(PlannerConfig {
        ignore_existing: true,
        ..PlannerConfig::default()
    })
    .plan(&src, &dst);
    assert_eq!(plan.skips.len(), 1);
    assert!(plan.updates.is_empty(), "the dest file must not be replaced");
}

#[test]
fn plan_ignore_existing_preserves_link_over_file() {
    // The reverse type change: a stale destination link survives too.
    let src = manifest(vec![entry("l", 10, 100, None)]);
    let dst = manifest(vec![link_entry("l", "target.txt")]);
    let plan = Planner::new(PlannerConfig {
        ignore_existing: true,
        ..PlannerConfig::default()
    })
    .plan(&src, &dst);
    assert_eq!(plan.skips.len(), 1);
    assert!(plan.updates.is_empty(), "the dest link must not be replaced");
}

#[test]
fn plan_ignore_existing_skips_link_retarget() {
    // A drifted link target is still "existing": no re-creation.
    let src = manifest(vec![link_entry("l", "new.txt")]);
    let dst = manifest(vec![link_entry("l", "old.txt")]);
    let plan = Planner::new(PlannerConfig {
        ignore_existing: true,
        ..PlannerConfig::default()
    })
    .plan(&src, &dst);
    assert_eq!(plan.skips.len(), 1);
    assert!(plan.updates.is_empty());
}

#[test]
fn plan_ignore_existing_still_replaces_directories() {
    // rsync "does not ignore existing directories": a directory blocking
    // a file (or a file blocking a directory) is still replaced.
    let src = manifest(vec![entry("x", 10, 100, None)]);
    let mut dst = manifest(vec![entry("x", 0, 100, None)]);
    dst.files[0].is_dir = true;
    let plan = Planner::new(PlannerConfig {
        ignore_existing: true,
        ..PlannerConfig::default()
    })
    .plan(&src, &dst);
    assert_eq!(plan.updates.len(), 1);
    assert!(!plan.updates[0].is_dir, "the file replaces the directory");

    let mut src = manifest(vec![entry("y", 0, 100, None)]);
    src.files[0].is_dir = true;
    let dst = manifest(vec![entry("y", 10, 100, None)]);
    let plan = Planner::new(PlannerConfig {
        ignore_existing: true,
        ..PlannerConfig::default()
    })
    .plan(&src, &dst);
    assert_eq!(plan.updates.len(), 1);
    assert!(plan.updates[0].is_dir, "the directory replaces the file");
}

#[test]
fn plan_existing_suppresses_file_creates_only() {
    let mut file = entry("new.txt", 50, 300, None);
    let mut dir = entry("emptydir", 0, 300, None);
    dir.is_dir = true;
    file.is_dir = false;
    let src = manifest(vec![file, dir]);
    let dst = manifest(vec![]);
    let plan = Planner::new(PlannerConfig {
        existing: true,
        ..PlannerConfig::default()
    })
    .plan(&src, &dst);
    // The file create is suppressed; the empty directory is still created.
    assert_eq!(plan.creates.len(), 1);
    assert!(plan.creates[0].is_dir);
    assert_eq!(plan.skips.len(), 1);
    assert!(!plan.skips[0].is_dir);
}

#[test]
fn plan_ignore_times_forces_update() {
    // Identical size+mtime would normally skip; --ignore-times transfers.
    let src = manifest(vec![entry("a.txt", 10, 100, None)]);
    let dst = manifest(vec![entry("a.txt", 10, 100, None)]);
    let plan = Planner::new(PlannerConfig {
        ignore_times: true,
        ..PlannerConfig::default()
    })
    .plan(&src, &dst);
    assert_eq!(plan.updates.len(), 1);
    assert!(plan.skips.is_empty());
}

#[test]
fn plan_ignore_times_respects_update_only() {
    // --update still wins over --ignore-times (destination is newer).
    let src = manifest(vec![entry("a.txt", 10, 100, None)]);
    let dst = manifest(vec![entry("a.txt", 20, 200, None)]);
    let plan = Planner::new(PlannerConfig {
        ignore_times: true,
        update_only: true,
        ..PlannerConfig::default()
    })
    .plan(&src, &dst);
    assert_eq!(plan.skips.len(), 1);
}

fn link_entry(rel: &str, target: &str) -> FileEntry {
    FileEntry {
        relative_path: rel.to_string(),
        size: 0,
        mode: 0,
        mtime_sec: 100,
        file_hash: None,
        is_dir: false,
        link_target: Some(target.to_string()),
        link_kind: LinkKind::Symlink,
        inode: None,
        kind: FileKind::Symlink,
        rdev: None,
        uid: None,
        gid: None,
        mtime_nsec: 0,
        atime_sec: 0,
        atime_nsec: 0,
        xattrs: None,
        source_path: None,
        dereferenced: false,
    }
}

#[test]
fn plan_symlink_same_target_skips() {
    let src = manifest(vec![link_entry("l", "target.txt")]);
    let dst = manifest(vec![link_entry("l", "target.txt")]);
    let plan = Planner::default().plan(&src, &dst);
    assert_eq!(plan.skips.len(), 1);
    assert!(plan.updates.is_empty());
}

#[test]
fn plan_symlink_different_target_updates() {
    let src = manifest(vec![link_entry("l", "new.txt")]);
    let dst = manifest(vec![link_entry("l", "old.txt")]);
    let plan = Planner::default().plan(&src, &dst);
    assert_eq!(plan.updates.len(), 1);
    assert!(plan.updates[0].link_target.is_some());
}

#[test]
fn plan_file_replacing_symlink_updates() {
    let mut file = entry("l", 10, 100, None);
    file.relative_path = "l".to_string();
    let src = manifest(vec![file]);
    let dst = manifest(vec![link_entry("l", "target.txt")]);
    let plan = Planner::default().plan(&src, &dst);
    assert_eq!(plan.updates.len(), 1);
    assert!(plan.updates[0].link_target.is_none());
}

#[test]
fn plan_symlink_create_is_link_task() {
    let src = manifest(vec![link_entry("l", "target.txt")]);
    let dst = manifest(vec![]);
    let plan = Planner::default().plan(&src, &dst);
    assert_eq!(plan.creates.len(), 1);
    assert!(plan.creates[0].link_target.is_some());
    assert!(plan.creates[0].link_to.is_none());
}

#[test]
fn plan_hardlink_group_marks_members() {
    let mut a = entry("a.txt", 10, 100, None);
    let mut b = entry("b.txt", 10, 100, None);
    a.inode = Some(7);
    b.inode = Some(7);
    let src = manifest(vec![a, b]);
    let dst = manifest(vec![]);
    let plan = Planner::default().plan(&src, &dst);
    assert_eq!(plan.creates.len(), 2);
    // First (sorted) is the representative, transferred normally.
    assert!(plan.creates[0].link_to.is_none());
    // Second links to it.
    assert_eq!(plan.creates[1].link_to.as_deref(), Some("a.txt"));
}

#[test]
fn plan_singleton_inode_is_not_a_link() {
    let mut a = entry("a.txt", 10, 100, None);
    a.inode = Some(7);
    let mut b = entry("b.txt", 10, 100, None);
    b.inode = Some(8);
    let src = manifest(vec![a, b]);
    let dst = manifest(vec![]);
    let plan = Planner::default().plan(&src, &dst);
    assert!(plan.creates.iter().all(|t| t.link_to.is_none()));
}

#[test]
fn plan_no_inode_no_hardlink_grouping() {
    let src = manifest(vec![
        entry("a.txt", 10, 100, None),
        entry("b.txt", 10, 100, None),
    ]);
    let dst = manifest(vec![]);
    let plan = Planner::default().plan(&src, &dst);
    assert!(plan.creates.iter().all(|t| t.link_to.is_none()));
}

#[test]
fn plan_hardlink_across_create_and_update() {
    let mut a = entry("a.txt", 10, 100, None);
    a.inode = Some(7);
    let mut b = entry("b.txt", 10, 200, None); // differs → update
    b.inode = Some(7);
    let src = manifest(vec![a, b]);
    let dst = manifest(vec![entry("b.txt", 10, 100, None)]);
    let plan = Planner::default().plan(&src, &dst);
    // a.txt: create (representative), b.txt: update linked to a.txt.
    assert_eq!(plan.creates.len(), 1);
    assert!(plan.creates[0].link_to.is_none());
    assert_eq!(plan.updates.len(), 1);
    assert_eq!(plan.updates[0].link_to.as_deref(), Some("a.txt"));
}

#[test]
fn plan_hardlink_uses_in_sync_representative() {
    // A destination hard-link group where the representative
    // is already in sync but a member differs (e.g. the destination link
    // was broken externally) must re-link the member instead of degrading
    // it to a standalone file. The source members share an inode, so the
    // representative's in-sync bytes are exactly what the member needs.
    let mut a = entry("a.txt", 10, 100, None);
    let mut b = entry("b.txt", 10, 100, None);
    a.inode = Some(7);
    b.inode = Some(7);
    let src = manifest(vec![a, b]);
    // Dest: a.txt in sync; b.txt replaced with divergent content (newer
    // mtime, still present).
    let dst = manifest(vec![
        entry("a.txt", 10, 100, None),
        entry("b.txt", 10, 200, None),
    ]);
    let plan = Planner::default().plan(&src, &dst);
    assert_eq!(plan.skips.len(), 1);
    assert_eq!(plan.skips[0].relative_path, *"a.txt");
    assert_eq!(plan.updates.len(), 1);
    assert_eq!(
        plan.updates[0].link_to.as_deref(),
        Some("a.txt"),
        "the member must re-link to the in-sync representative"
    );
}

#[test]
fn plan_hardlink_in_sync_rep_after_member_sorted_first() {
    // The member can sort *before* the representative ("dup.txt" <
    // "orig.txt"); the in-sync representative must still win, regardless
    // of sorted order.
    let mut dup = entry("dup.txt", 10, 100, None);
    let mut orig = entry("orig.txt", 10, 100, None);
    dup.inode = Some(7);
    orig.inode = Some(7);
    let src = manifest(vec![dup, orig]);
    let dst = manifest(vec![
        entry("dup.txt", 10, 200, None),
        entry("orig.txt", 10, 100, None),
    ]);
    let plan = Planner::default().plan(&src, &dst);
    let update = plan
        .updates
        .iter()
        .find(|t| t.relative_path == *"dup.txt")
        .expect("the member must update");
    assert_eq!(
        update.link_to.as_deref(),
        Some("orig.txt"),
        "the member must link to the in-sync representative even when sorted first"
    );
}

#[test]
fn plan_hardlink_create_links_to_in_sync_representative() {
    // A missing member links to an in-sync representative without
    // transferring content.
    let mut a = entry("a.txt", 10, 100, None);
    let mut b = entry("b.txt", 10, 100, None);
    a.inode = Some(7);
    b.inode = Some(7);
    let src = manifest(vec![a, b]);
    let dst = manifest(vec![entry("a.txt", 10, 100, None)]);
    let plan = Planner::default().plan(&src, &dst);
    assert_eq!(plan.creates.len(), 1);
    assert_eq!(plan.creates[0].link_to.as_deref(), Some("a.txt"));
}

#[test]
fn plan_hardlink_ignores_divergent_ignore_existing_skip() {
    // `--ignore-existing` skips an existing-but-divergent destination
    // entry; a member must NOT link to it — the destination content
    // differs, and linking would silently corrupt the member.
    let mut a = entry("a.txt", 10, 100, None);
    let mut b = entry("b.txt", 10, 100, None);
    a.inode = Some(7);
    b.inode = Some(7);
    let src = manifest(vec![a, b]);
    // Dest: a.txt present but holding different bytes (same path, wildly
    // different size+mtime).
    let dst = manifest(vec![entry("a.txt", 99, 999, None)]);
    let plan = Planner::new(PlannerConfig {
        ignore_existing: true,
        ..PlannerConfig::default()
    })
    .plan(&src, &dst);
    // a.txt: skip (--ignore-existing), not a valid representative;
    // b.txt: created as a standalone file.
    assert_eq!(plan.creates.len(), 1);
    assert!(plan.creates[0].link_to.is_none());
}

#[test]
fn plan_link_mtime_change_updates() {
    // A link whose own mtime changed but whose
    // target is unchanged must be re-created so the destination time
    // converges.
    let src = manifest(vec![link_entry("l", "t")]);
    let mut dst = manifest(vec![link_entry("l", "t")]);
    dst.files[0].mtime_sec = 999;
    let plan = Planner::default().plan(&src, &dst);
    assert_eq!(plan.updates.len(), 1);
    assert!(plan.updates[0].link_target.is_some());
}

#[test]
fn plan_link_mtime_ignored_under_no_times() {
    // `--no-times` falls back to the target string alone.
    let src = manifest(vec![link_entry("l", "t")]);
    let mut dst = manifest(vec![link_entry("l", "t")]);
    dst.files[0].mtime_sec = 999;
    let plan = Planner::new(PlannerConfig {
        size_only: true,
        ..PlannerConfig::default()
    })
    .plan(&src, &dst);
    assert_eq!(plan.skips.len(), 1);
    assert!(plan.updates.is_empty());
}

#[test]
fn plan_link_same_target_and_mtime_skips() {
    let src = manifest(vec![link_entry("l", "t")]);
    let dst = manifest(vec![link_entry("l", "t")]);
    let plan = Planner::default().plan(&src, &dst);
    assert_eq!(plan.skips.len(), 1);
}

#[test]
fn plan_nsec_difference_updates() {
    // An nsec-only drift is an update — the quick check compares the
    // nanosecond remainder (the receiver restores it at apply time).
    let src = manifest(vec![entry("a.txt", 10, 100, None)]);
    let mut dst = manifest(vec![entry("a.txt", 10, 100, None)]);
    dst.files[0].mtime_nsec = 500_000_000;
    let plan = Planner::default().plan(&src, &dst);
    assert_eq!(plan.updates.len(), 1);
}

#[test]
fn plan_nsec_equal_skips() {
    let src = manifest(vec![entry("a.txt", 10, 100, None)]);
    let dst = manifest(vec![entry("a.txt", 10, 100, None)]);
    let plan = Planner::default().plan(&src, &dst);
    assert_eq!(plan.skips.len(), 1);
}

#[test]
fn plan_special_create_update_skip() {
    let mut src = manifest(vec![entry("pipe", 0, 100, None)]);
    src.files[0].kind = FileKind::Fifo;

    // Missing on the destination → create, tagged as a special.
    let plan = Planner::new(PlannerConfig::default()).plan(&src, &Manifest::new(".".to_string()));
    assert_eq!(plan.creates.len(), 1);
    assert_eq!(plan.creates[0].special, Some((FileKind::Fifo, None)));

    // Same special on both sides (kind + mtime) → skip.
    let mut dst = manifest(vec![entry("pipe", 0, 100, None)]);
    dst.files[0].kind = FileKind::Fifo;
    let plan = Planner::new(PlannerConfig::default()).plan(&src, &dst);
    assert!(plan.skips.iter().any(|t| t.relative_path == "pipe"));

    // A regular file at the same path → update (the special replaces it).
    let dst = manifest(vec![entry("pipe", 3, 100, None)]);
    let plan = Planner::new(PlannerConfig::default()).plan(&src, &dst);
    assert!(plan.updates.iter().any(|t| t.relative_path == "pipe"));
    assert_eq!(plan.updates[0].special, Some((FileKind::Fifo, None)));
}

#[test]
fn update_only_counts_nanoseconds() {
    let planner = Planner::new(PlannerConfig { update_only: true, ..PlannerConfig::default() });
    let src = entry("a.txt", 10, 100, None);
    let mut dst = entry("a.txt", 10, 100, None);
    dst.mtime_nsec = 500_000_000;
    assert_eq!(planner.compare(&src, &dst), SyncAction::Skip);
    // An older destination is replaced.
    assert_eq!(planner.compare(&dst, &src), SyncAction::Update);
    dst.mtime_sec = 99;
    assert_eq!(planner.compare(&src, &dst), SyncAction::Update);
}

#[test]
fn destination_order_does_not_matter() {
    let config = PlannerConfig { delete: true, ..PlannerConfig::default() };
    let planner = Planner::new(config);
    let files = |names: &[(&str, u64)]| {
        let mut m = Manifest::new("/".to_string());
        m.files = names.iter().map(|(n, size)| entry(n, *size, 100, None)).collect();
        m
    };
    let source = files(&[("a", 1), ("b", 2), ("c", 3)]);
    let one = planner.plan(&source, &files(&[("b", 2), ("c", 9), ("x", 1), ("y", 1)]));
    let two = planner.plan(&source, &files(&[("y", 1), ("c", 9), ("x", 1), ("b", 2)]));
    let paths = |tasks: &[SyncTask]| -> Vec<String> {
        tasks.iter().map(|t| t.relative_path.clone()).collect()
    };
    assert_eq!(paths(&one.creates), vec!["a"]);
    assert_eq!(paths(&one.creates), paths(&two.creates));
    assert_eq!(paths(&one.updates), vec!["c"]);
    assert_eq!(paths(&one.updates), paths(&two.updates));
    assert_eq!(paths(&one.skips), vec!["b"]);
    assert_eq!(paths(&one.skips), paths(&two.skips));
    assert_eq!(paths(&one.deletes), vec!["x", "y"]);
    assert_eq!(paths(&two.deletes), vec!["y", "x"]);
}
