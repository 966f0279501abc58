//! What travels, and what comes back.

use std::hash::{Hash, Hasher};

use cp2::protocol::{FileKind, Frame, LinkKind, SessionError};
use cp2::scanner::FileEntry;
use cp2::wire::{
    file_id, file_meta_from_entry, file_source, from_peer, manifest_from_file_meta,
    mtime_from_wire, mtime_to_wire, wire_rel, wire_str,
};

#[test]
fn wire_rel_normalizes_separators() {
    assert_eq!(wire_rel("sub/file.txt"), "sub/file.txt");
    // A Windows-style path normalizes to '/'-separated on any OS.
    assert_eq!(wire_rel(r"sub\file.txt"), "sub/file.txt");
    assert_eq!(wire_rel("a/b/c.txt"), "a/b/c.txt");
    assert_eq!(wire_rel("top.txt"), "top.txt");
}

#[test]
fn absolute_segments_replace_what_came_before() {
    assert_eq!(wire_str("/abs/x"), "/abs/x");
    assert_eq!(wire_str("a\\\\b"), "a/b");
    assert_eq!(wire_str("a\\/b"), "/b");
    assert_eq!(wire_str(""), "");
}

#[test]
fn times_survive_the_trip() {
    for t in [0, 1, -1, i64::MIN, i64::MAX, 1_700_000_000] {
        assert_eq!(mtime_from_wire(mtime_to_wire(t)), t);
    }
    assert_eq!(mtime_to_wire(-1), u64::MAX);
}

#[test]
fn carried_sources_win() {
    assert_eq!(file_source("/root", &Some("/ext/f".to_string()), "d/f"), "/ext/f");
    assert_eq!(file_source("/root", &None, "d/f"), "/root/d/f");
}

fn entry(rel: &str, size: u64) -> FileEntry {
    FileEntry {
        relative_path: rel.to_string(),
        size,
        mode: 0o640,
        mtime_sec: -5,
        mtime_nsec: 7,
        file_hash: Some([3; 32]),
        is_dir: false,
        link_target: None,
        link_kind: LinkKind::Symlink,
        inode: Some(9),
        kind: FileKind::File,
        rdev: None,
        uid: Some(1),
        gid: Some(2),
        atime_sec: 11,
        atime_nsec: 12,
        xattrs: Some(vec![("user.x".to_string(), vec![1])]),
        source_path: None,
        dereferenced: false,
    }
}

#[test]
fn entries_survive_the_trip() {
    let metas = vec![file_meta_from_entry(&entry("a/b", 10)), file_meta_from_entry(&entry("c", 5))];
    let m = manifest_from_file_meta(&metas);
    assert_eq!(m.root, ".");
    assert_eq!(m.total_bytes, 15);
    assert_eq!(m.files[0].relative_path, "a/b");
    assert_eq!(m.files[0].mtime_sec, -5);
    assert_eq!(m.files[0].mtime_nsec, 7);
    assert_eq!(m.files[0].file_hash, Some([3; 32]));
    assert_eq!(m.files[0].xattrs, Some(vec![("user.x".to_string(), vec![1])]));
    assert_eq!(m.files[1].size, 5);
    assert!(m.skipped.is_empty());
}

#[test]
fn identifiers_depend_on_the_path() {
    assert_eq!(file_id("a/b"), file_id("a/b"));
    assert_ne!(file_id("a/b"), file_id("a/c"));
    let want = {
        let mut h = std::collections::hash_map::DefaultHasher::new();
        "a/b".hash(&mut h);
        h.finish()
    };
    assert_eq!(file_id("a/b"), want);
}

#[test]
fn peer_failures_become_errors() {
    match from_peer(Frame::Error { message: "disk full".to_string() }) {
        Err(SessionError::Other(m)) => assert_eq!(m, "Peer error: disk full"),
        other => panic!("{other:?}"),
    }
    assert!(matches!(from_peer(Frame::FileEnd { file_id: 1 }), Ok(Frame::FileEnd { file_id: 1 })));
}
