//! What a scan makes of what it finds.

use cp2::digest::Digester;
use cp2::filter::FilterSet;
use cp2::linkpolicy::RealPath;
use cp2::protocol::{FileKind, LinkKind, TargetOs};
use cp2::scan::{
    include_root_component, local_os, merge_directory, merge_file, os_of_separator, probe_paths,
    sort_entries, RootError, ScanOptions, Scanner, Seen,
};
use cp2::scanner::{
    child_rel, child_step, file_entry, is_lnk_file, match_step, probe_step, rel_of_internal_target,
    scan_link, scan_lnk, special_kind, walk_external, walk_step, External, FileEntry, Found,
    LinkFacts, Manifest, ObjectType, ScanContext, ShortcutFacts, SkipReason, Stat, Step, Visited,
};

#[test]
fn include_root_component_helper() {
    // No trailing slash, a real last component: keep the directory.
    assert!(include_root_component("dir"));
    assert!(include_root_component("./dir"));
    assert!(include_root_component("/abs/dir"));
    assert!(include_root_component("C:\\path\\dir"));
    assert!(include_root_component("user@host:backup"));
    // Trailing separator: contents mode.
    assert!(!include_root_component("dir/"));
    assert!(!include_root_component("dir\\"));
    // Empty / `.` / `..` last component: contents mode.
    assert!(!include_root_component(""));
    assert!(!include_root_component("."));
    assert!(!include_root_component("dir/."));
    assert!(!include_root_component("dir/.."));
    assert!(!include_root_component("/"));
}

fn stat(object: ObjectType) -> Stat {
    Stat {
        object,
        size: 7,
        mode: 0o100644,
        mtime_sec: 100,
        mtime_nsec: 3,
        atime_sec: 50,
        atime_nsec: 4,
        inode: Some(9),
        rdev: None,
        uid: Some(1),
        gid: Some(2),
    }
}

fn source() -> ScanContext {
    Scanner::new(ScanOptions { source_os: TargetOs::Unix, ..ScanOptions::default() }).context("/root")
}

fn facts(canonical: Option<(&str, bool)>, referent: Option<ObjectType>) -> LinkFacts {
    LinkFacts {
        lmeta: Some(stat(ObjectType::Symlink)),
        referent: referent.map(stat),
        canonical: canonical.map(|(p, is_dir)| RealPath { path: p.to_string(), is_dir }),
        partial: None,
    }
}

fn target_of(found: Found) -> (String, LinkKind) {
    match found {
        Found::Entry(e) => (e.link_target.unwrap(), e.link_kind),
        f => panic!("{f:?}"),
    }
}

#[test]
fn internal_links_are_rewritten() {
    let f = facts(Some(("/root/b/t", false)), Some(ObjectType::File));
    let got = scan_link(&source(), "/root/a/l", "a/l", "../b/t", &f);
    assert_eq!(target_of(got), ("../b/t".to_string(), LinkKind::Symlink));
    let got = scan_link(&source(), "/root/a/l", "a/l", "/root/b/t", &f);
    assert_eq!(target_of(got), ("../b/t".to_string(), LinkKind::Symlink));
    // A Windows destination gets a shortcut.
    let ctx = ScanContext { target_os: TargetOs::Windows, ..source() };
    let got = scan_link(&ctx, "/root/a/l", "a/l", "../b/t", &f);
    assert_eq!(target_of(got).1, LinkKind::Lnk);
    let ctx = ScanContext { literal_internal_links: true, ..source() };
    let got = scan_link(&ctx, "/root/a/l", "a/l", "/root/b/t", &f);
    assert_eq!(target_of(got).0, "/root/b/t");
}

#[test]
fn windows_links_are_told_by_their_drive() {
    let options = ScanOptions {
        source_os: TargetOs::Windows,
        host: TargetOs::Windows,
        ..ScanOptions::default()
    };
    let ctx = Scanner::new(options).context("/C:/root");
    let inside = facts(Some(("/C:/root/b/t", false)), Some(ObjectType::File));
    for target in ["../b/t", r"..\b\t", r"C:\root\b\t", "C:/root/b/t", r"\root\b\t"] {
        let got = scan_link(&ctx, "/C:/root/a/l", "a/l", target, &inside);
        assert_eq!(target_of(got).0, "../b/t", "{target}");
    }
    let outside = facts(Some(("/D:/root/b/t", false)), Some(ObjectType::File));
    let got = scan_link(&ctx, "/C:/root/a/l", "a/l", r"D:\root\b\t", &outside);
    assert!(matches!(got, Found::Entry(e) if e.link_target.is_none() && e.dereferenced));
    let gone = scan_link(&ctx, "/C:/root/a/l", "a/l", r"D:\root\b\t", &facts(None, None));
    assert!(matches!(gone, Found::Skipped(SkipReason::DanglingExternal)));
    assert_eq!(
        rel_of_internal_target(TargetOs::Windows, "/C:/root/l", r"a\t", "/C:/root", &None, &None),
        "a/t"
    );
}

#[test]
fn links_to_themselves_are_loops() {
    let got = scan_link(&source(), "/root/a/l", "a/l", "../a/l", &facts(None, None));
    assert!(matches!(got, Found::Skipped(SkipReason::LoopDetected)));
}

#[test]
fn external_links_follow_the_policy() {
    let file = facts(Some(("/out/f", false)), Some(ObjectType::File));
    match scan_link(&source(), "/root/l", "l", "/out/f", &file) {
        Found::Entry(e) => {
            assert_eq!(e.link_target, None);
            assert_eq!(e.kind, FileKind::File);
            assert_eq!(e.size, 7);
            // The link is still there: it is no file to remove.
            assert!(e.dereferenced);
        }
        f => panic!("{f:?}"),
    }
    let kept = ScanContext { literal_external_file_links: true, ..source() };
    assert_eq!(target_of(scan_link(&kept, "/root/l", "l", "/out/f", &file)).0, "/out/f");
    let dir = facts(Some(("/out/d", true)), Some(ObjectType::Dir));
    assert!(matches!(
        scan_link(&source(), "/root/l", "l", "/out/d", &dir),
        Found::Skipped(SkipReason::ExternalDirectory)
    ));
    let kept = ScanContext { literal_external_dir_links: true, ..source() };
    assert_eq!(target_of(scan_link(&kept, "/root/l", "l", "/out/d", &dir)).0, "/out/d");
    assert!(matches!(
        scan_link(&source(), "/root/l", "l", "/out/gone", &facts(None, None)),
        Found::Skipped(SkipReason::DanglingExternal)
    ));
    let unreadable = facts(Some(("/out/f", false)), None);
    assert!(matches!(
        scan_link(&source(), "/root/l", "l", "/out/f", &unreadable),
        Found::Skipped(SkipReason::UnreadableExternalFile)
    ));
}

#[test]
fn skipping_and_following_win_in_this_order() {
    let f = facts(Some(("/root/t", false)), Some(ObjectType::File));
    let skip = ScanContext { preserve_links: false, follow_links: true, ..source() };
    assert!(matches!(
        scan_link(&skip, "/root/l", "l", "t", &f),
        Found::Skipped(SkipReason::LinkSkipped)
    ));
    let follow = ScanContext { follow_links: true, literal_links: true, ..source() };
    assert!(matches!(scan_link(&follow, "/root/l", "l", "t", &f), Found::Entry(e) if e.link_target.is_none() && e.dereferenced));
    let dir = facts(Some(("/root/d", true)), Some(ObjectType::Dir));
    assert!(matches!(scan_link(&follow, "/root/l", "l", "d", &dir), Found::Descend(p) if p == "/root/l"));
    assert!(matches!(
        scan_link(&follow, "/root/l", "l", "x", &facts(None, None)),
        Found::Skipped(SkipReason::UnreadableFollowed)
    ));
    assert_eq!(SkipReason::LinkSkipped.text(), "link skipped (--skip-links)");
}

#[test]
fn destinations_record_links_as_they_are() {
    let dest = ScanContext { is_source: false, preserve_links: false, ..source() };
    let got = scan_link(&dest, "/root/l", "l", "/out/x", &facts(None, None));
    assert_eq!(target_of(got), ("/out/x".to_string(), LinkKind::Symlink));
    let dest = ScanContext { is_source: false, ..source() };
    assert!(matches!(
        scan_link(&dest, "/root/l", "l", "/out/d", &facts(Some(("/out/d", true)), None)),
        Found::Nothing
    ));
}

fn shortcut(target: Option<&str>, canonical: Option<&str>, referent: Option<ObjectType>) -> ShortcutFacts {
    ShortcutFacts {
        lmeta: stat(ObjectType::File),
        target: target.map(|t| t.to_string()),
        referent: referent.map(stat),
        canonical: canonical.map(|p| RealPath { path: p.to_string(), is_dir: false }),
        partial: None,
    }
}

#[test]
fn shortcuts_become_links_only_inside() {
    let ctx = source();
    let inside = shortcut(Some("t.txt"), Some("/root/t.txt"), None);
    assert_eq!(target_of(scan_lnk(&ctx, "/root/s.lnk", "s.lnk", &inside)).0, "t.txt");
    let outside = shortcut(Some("/out/t.txt"), Some("/out/t.txt"), None);
    assert!(matches!(scan_lnk(&ctx, "/root/s.lnk", "s.lnk", &outside), Found::Entry(e) if e.link_target.is_none()));
    let broken = shortcut(None, None, None);
    assert!(matches!(scan_lnk(&ctx, "/root/s.lnk", "s.lnk", &broken), Found::Entry(e) if e.link_target.is_none()));
    let skip = ScanContext { preserve_links: false, ..source() };
    assert!(matches!(
        scan_lnk(&skip, "/root/s.lnk", "s.lnk", &broken),
        Found::Skipped(SkipReason::ShortcutSkipped)
    ));
    let follow = ScanContext { follow_links: true, ..source() };
    let file = shortcut(Some("t.txt"), None, Some(ObjectType::File));
    match scan_lnk(&follow, "/root/s.lnk", "s.lnk", &file) {
        Found::Entry(e) => {
            assert!(e.dereferenced);
            assert_eq!(e.source_path.as_deref(), Some("/root/t.txt"));
        }
        f => panic!("{f:?}"),
    }
    assert!(matches!(
        scan_lnk(&follow, "/root/s.lnk", "s.lnk", &shortcut(Some("x"), None, None)),
        Found::Skipped(SkipReason::UnreadableShortcut)
    ));
}

#[test]
fn internal_targets_lose_the_root() {
    assert_eq!(rel_of_internal_target(TargetOs::Unix, "/root/l", "a/t", "/root", &None, &None), "a/t");
    let real = Some(RealPath { path: "/root/b".to_string(), is_dir: false });
    assert_eq!(rel_of_internal_target(TargetOs::Unix, "/root/l", "/alias/b", "/root", &real, &None), "b");
    assert_eq!(
        rel_of_internal_target(TargetOs::Unix, "/root/l", "/alias/c", "/root", &None, &Some("/root/c".to_string())),
        "c"
    );
}

const LNK: [u8; 4] = [0x4c, 0, 0, 0];

#[test]
fn shortcuts_need_name_and_head() {
    assert!(is_lnk_file("a/b.LNK", &LNK));
    assert!(!is_lnk_file("a/b.lnk", b"text"));
    assert!(!is_lnk_file("a/b", &LNK));
}

#[test]
fn objects_contribute_by_their_type() {
    let ctx = source();
    assert!(matches!(walk_step(&ctx, "/root/f", "f", &stat(ObjectType::File), b""), Step::Entry(e) if e.size == 7));
    assert!(matches!(walk_step(&ctx, "/root/d", "d", &stat(ObjectType::Dir), b""), Step::Entry(e) if e.is_dir));
    let flat = ScanContext { recursive: false, ..source() };
    assert!(matches!(walk_step(&flat, "/root/d", "d", &stat(ObjectType::Dir), b""), Step::Nothing));
    assert!(matches!(probe_step(&flat, "/root/d", "d", &stat(ObjectType::Dir), b""), Step::Entry(_)));
    assert!(matches!(walk_step(&ctx, "/root/l", "l", &stat(ObjectType::Symlink), b""), Step::Link));
    let fifo = Stat { mode: 0o010644, ..stat(ObjectType::Other) };
    assert!(matches!(walk_step(&ctx, "/root/p", "p", &fifo, b""), Step::Entry(e) if e.kind == FileKind::Fifo));
    let win = ScanContext { source_is_windows: true, ..source() };
    assert!(matches!(walk_step(&win, "/root/s.lnk", "s.lnk", &stat(ObjectType::File), &LNK), Step::Shortcut));
    assert!(matches!(walk_step(&ctx, "/root/s.lnk", "s.lnk", &stat(ObjectType::File), &LNK), Step::Entry(_)));
    // A destination needs the peer's word.
    let dest = ScanContext {
        is_source: false,
        source_link_paths: Some(vec!["s".to_string()]),
        ..win
    };
    assert!(matches!(probe_step(&dest, "/root/s", "s", &stat(ObjectType::File), &LNK), Step::Shortcut));
    assert!(matches!(probe_step(&dest, "/root/t", "t", &stat(ObjectType::File), &LNK), Step::Entry(_)));
}

#[test]
fn followed_directories_keep_their_source() {
    let ctx = source();
    match child_step(&ctx, "/out/d/f", "l/f", &stat(ObjectType::File), b"") {
        Step::Entry(e) => {
            assert!(e.dereferenced);
            assert_eq!(e.source_path.as_deref(), Some("/out/d/f"));
            assert_eq!(e.relative_path, "l/f");
        }
        s => panic!("{s:?}"),
    }
    assert!(matches!(child_step(&ctx, "/out/d/e", "l/e", &stat(ObjectType::Dir), b""), Step::Enter(_)));
    assert_eq!(child_rel("", "x"), "x");
    assert_eq!(child_rel("l", "x"), "l/x");
    let mut visited = Visited::new();
    let dir = Some("/out/d".to_string());
    let meta = Some(stat(ObjectType::Dir));
    assert!(matches!(walk_external(&dir, &meta, "l", &mut visited), External::Enter(Some(_))));
    assert!(matches!(
        walk_external(&dir, &meta, "m", &mut visited),
        External::Skipped(SkipReason::LoopDetected)
    ));
    assert!(matches!(
        walk_external(&None, &None, "n", &mut visited),
        External::Skipped(SkipReason::UnreadableDirectory)
    ));
}

#[test]
fn roots_among_several_are_told_apart() {
    let ctx = source();
    assert!(matches!(match_step(&ctx, "/b/f", "f", &stat(ObjectType::File), b""), Step::Scan));
    assert!(matches!(match_step(&ctx, "/b/d", "d", &stat(ObjectType::Dir), b""), Step::Scan));
    assert!(matches!(match_step(&ctx, "/b/l", "l", &stat(ObjectType::Symlink), b""), Step::Link));
}

#[test]
fn special_files_are_told_by_their_mode() {
    let kind = |mode: u32| special_kind(&Stat { mode, ..stat(ObjectType::Other) });
    assert_eq!(kind(0o010600), Some(FileKind::Fifo));
    assert_eq!(kind(0o140600), Some(FileKind::Socket));
    assert_eq!(kind(0o060600), Some(FileKind::BlockDevice));
    assert_eq!(kind(0o020600), Some(FileKind::CharDevice));
    assert_eq!(kind(0o100600), None);
}

fn entry(rel: &str) -> FileEntry {
    file_entry(rel.to_string(), &stat(ObjectType::File))
}

#[test]
fn covered_roots_are_merged() {
    let s = Scanner::new(ScanOptions::default());
    let roots = vec!["/b/x/y".to_string(), "/b/x".to_string(), "/b/a.txt".to_string()];
    let got = s.merge_roots("/b", &roots).unwrap();
    let names: Vec<&str> = got.iter().map(|r| r.rel.as_str()).collect();
    assert_eq!(names, vec!["a.txt", "x"]);
    match s.merge_roots("/b", &vec!["/c".to_string()]) {
        Err(RootError::NotUnderBase(p)) => assert_eq!(p, "/c"),
        r => panic!("{r:?}"),
    }
    let filtered = Scanner::new(ScanOptions {
        filter: Some(FilterSet { includes: vec![], excludes: vec!["*.txt".to_string()] }),
        ..ScanOptions::default()
    });
    assert_eq!(filtered.merge_roots("/b", &roots).unwrap().len(), 1);
}

#[test]
fn roots_keep_the_way_they_are_written() {
    let s = Scanner::new(ScanOptions::default());
    let roots = vec!["/data//a.txt".to_string(), "/data/d//e".to_string()];
    let got = s.merge_roots("/", &roots).unwrap();
    let names: Vec<&str> = got.iter().map(|r| r.rel.as_str()).collect();
    assert_eq!(names, vec!["data//a.txt", "data/d//e"]);
    assert_eq!(got[0].root, "/data//a.txt");
    // A backslash in a name becomes a separator in the manifest.
    let roots = vec!["/b/a\\c".to_string(), "/b/a".to_string()];
    let got = s.merge_roots("/b", &roots).unwrap();
    let names: Vec<&str> = got.iter().map(|r| r.rel.as_str()).collect();
    assert_eq!(names, vec!["a", "a/c"]);
}

#[test]
fn roots_are_merged_whatever_their_order() {
    let s = Scanner::new(ScanOptions::default());
    let merged = |roots: &[&str]| -> Vec<(String, String)> {
        let roots: Vec<String> = roots.iter().map(|r| r.to_string()).collect();
        let named = s.merge_roots("/b", &roots).unwrap();
        named.into_iter().map(|r| (r.root, r.rel)).collect()
    };
    let want = merged(&["/b/a", "/b/a-b", "/b/c/d"]);
    // A directory sorts with what is below it, before its longer siblings.
    let names: Vec<&str> = want.iter().map(|(_, rel)| rel.as_str()).collect();
    assert_eq!(names, vec!["a", "a-b", "c/d"]);
    assert_eq!(merged(&["/b/c/d", "/b/a-b", "/b/a/x", "/b/a", "/b/a"]), want);
    assert_eq!(merged(&["/b/c/d/e", "/b/a", "/b/c/d", "/b/a-b", "/b/a/x/y"]), want);
    for roots in [["/b/a", "/c"], ["/c", "/b/a"]] {
        let roots: Vec<String> = roots.iter().map(|r| r.to_string()).collect();
        assert!(matches!(s.merge_roots("/b", &roots), Err(RootError::NotUnderBase(p)) if p == "/c"));
    }
    // The error names the first root by components, `..` before names.
    let roots = vec!["/c/!x".to_string(), "/c/../z".to_string()];
    assert!(matches!(s.merge_roots("/b", &roots), Err(RootError::NotUnderBase(p)) if p == "/c/../z"));
}

fn content(data: &[u8]) -> Option<Digester> {
    let mut content = Digester::new();
    content.update(&data[..1]);
    content.update(&data[1..]);
    Some(content)
}

fn seen(rel: &str) -> Seen {
    Seen::new(rel.to_string(), entry(rel))
}

#[test]
fn hashes_are_recorded() {
    let s = Scanner::new(ScanOptions { hash: true, ..ScanOptions::default() });
    let mut found = vec![seen("b"), seen("a")];
    found[0].content = content(b"abc");
    let m = s.scan("/root", &found, &vec![]);
    assert_eq!(m.files[0].file_hash, None);
    assert_eq!(m.files[1].file_hash, Some(*blake3::hash(b"abc").as_bytes()));
    assert_eq!(m.files[1].relative_path, "b");
    let m = s.single_file("/root/f", &stat(ObjectType::File), content(b"abc"), None);
    assert_eq!(m.files[0].file_hash, Some(*blake3::hash(b"abc").as_bytes()));
    let m = s.scan_targeted("/root", &found);
    assert_eq!(m.files[1].file_hash, Some(*blake3::hash(b"abc").as_bytes()));
    let off = Scanner::new(ScanOptions::default());
    assert_eq!(off.scan("/root", &found, &vec![]).files[1].file_hash, None);
}

#[test]
fn scans_are_filtered_sorted_and_added_up() {
    let filter = FilterSet { includes: vec![], excludes: vec!["*.o".to_string()] };
    let s = Scanner::new(ScanOptions {
        filter: Some(filter),
        source_os: TargetOs::Unix,
        include_root_component: true,
        xattrs: true,
        ..ScanOptions::default()
    });
    let mut found = vec![seen("b/c"), seen("x.o"), seen("a"), seen("b")];
    found[0].xattrs = Some(vec![("user.k".to_string(), vec![1])]);
    found[2].entry.mode = 0o104755;
    let m = s.scan("/base/dir", &found, &vec!["skip".to_string()]);
    let paths: Vec<&str> = m.files.iter().map(|e| e.relative_path.as_str()).collect();
    assert_eq!(paths, vec!["dir/a", "dir/b", "dir/b/c"]);
    assert_eq!((m.root.as_str(), m.total_bytes), ("/base", 21));
    assert_eq!(m.skipped, vec!["dir/skip"]);
    assert_eq!(m.files[0].mode, 0o755);
    assert_eq!(m.files[2].xattrs, Some(vec![("user.k".to_string(), vec![1])]));
    // What several roots gave is filtered by root, not by path.
    let m = s.scan_multi("/base", &found, vec!["skip".to_string()]);
    let paths: Vec<&str> = m.files.iter().map(|e| e.relative_path.as_str()).collect();
    assert_eq!(paths, vec!["a", "b", "b/c", "x.o"]);
    assert_eq!((m.root.as_str(), m.total_bytes), ("/base", 28));
    assert_eq!(m.skipped, vec!["skip"]);
    assert_eq!(m.files[0].mode, 0o755);
    // A probe records what is there as it is.
    let m = s.scan_targeted("/base", &found);
    assert_eq!((m.files.len(), m.files[0].mode, m.total_bytes), (4, 0o104755, 28));
    assert_eq!(m.files[2].xattrs, None);
    assert!(m.skipped.is_empty());
}

#[test]
fn several_roots_give_one_manifest() {
    let s = Scanner::new(ScanOptions::default());
    let files = |order: &[&str]| -> Vec<(String, u64)> {
        let roots: Vec<String> = order.iter().map(|r| r.to_string()).collect();
        let mut gathered = vec![];
        for root in s.merge_roots("/b", &roots).unwrap() {
            let mut found = Manifest::new(root.root);
            found.files.push(entry("x"));
            let mut entries = vec![];
            merge_directory(&root.rel, &stat(ObjectType::Dir), &found, &mut entries, &mut vec![]);
            gathered.extend(entries.into_iter().map(|e| Seen::new(e.relative_path.clone(), e)));
        }
        let m = s.scan_multi("/b", &gathered, vec![]);
        assert_eq!(m.root, "/b");
        assert_eq!(m.total_bytes, m.files.iter().map(|f| f.size).sum::<u64>());
        m.files.into_iter().map(|f| (f.relative_path, f.size)).collect()
    };
    let want = files(&["/b/c", "/b/a"]);
    let names: Vec<&str> = want.iter().map(|(p, _)| p.as_str()).collect();
    assert_eq!(names, vec!["a", "a/x", "c", "c/x"]);
    assert_eq!(files(&["/b/a", "/b/c/x", "/b/c", "/b/a"]), want);
}

#[test]
fn source_scans_send_final_modes() {
    let mut entries = vec![entry("a")];
    entries[0].mode = 0o104755;
    let s = Scanner::new(ScanOptions { source_os: TargetOs::Unix, ..ScanOptions::default() });
    s.apply_permission_matrix(&mut entries);
    assert_eq!(entries[0].mode, 0o755);
    let d = Scanner::new(ScanOptions { is_source_scan: false, ..ScanOptions::default() });
    entries[0].mode = 0o104755;
    d.apply_permission_matrix(&mut entries);
    assert_eq!(entries[0].mode, 0o104755);
}

#[test]
fn only_files_are_hashed() {
    let mut dir = entry("d");
    dir.is_dir = true;
    dir.kind = FileKind::Dir;
    let found = vec![Seen::new("d".to_string(), dir), seen("g"), seen("x.o"), seen("f")];
    let on = Scanner::new(ScanOptions { hash: true, xattrs: true, ..ScanOptions::default() });
    let filter = Some(FilterSet { includes: vec![], excludes: vec!["*.o".to_string()] });
    // In the order of their paths.
    assert_eq!(on.hash_targets(&filter, &found), vec![3, 1]);
    assert_eq!(on.hash_targets(&None, &found), vec![3, 1, 2]);
    assert_eq!(on.xattr_targets(&filter, &found), vec![0, 1, 3]);
    let off = Scanner::new(ScanOptions::default());
    assert!(off.hash_targets(&None, &found).is_empty());
    assert!(off.xattr_targets(&None, &found).is_empty());
}

#[test]
fn roots_can_keep_their_name() {
    let s = Scanner::new(ScanOptions { include_root_component: true, ..ScanOptions::default() });
    let m = s.finish("/base/dir", &vec![entry("a"), entry("b/c")], &vec!["skip".to_string()]);
    assert_eq!(m.root, "/base");
    assert_eq!(m.files[1].relative_path, "dir/b/c");
    assert_eq!(m.skipped, vec!["dir/skip"]);
    assert_eq!(m.total_bytes, 14);
    let plain = Scanner::new(ScanOptions::default());
    let m = plain.finish("/base/dir", &vec![entry("a")], &vec![]);
    assert_eq!(m.root, "/base/dir");
    assert_eq!(m.files[0].relative_path, "a");
    let m = plain.single_file("/base/f.txt", &stat(ObjectType::File), None, None);
    assert_eq!(m.root, "/base");
    assert_eq!(m.files[0].relative_path, "f.txt");
    assert_eq!(m.len(), 1);
    assert!(!m.is_empty());
}

#[test]
fn probes_are_sorted_and_unique() {
    let mut m = Manifest::new(".".to_string());
    m.files = vec![entry("b"), entry("a"), entry("b")];
    assert_eq!(probe_paths(&m), vec!["a", "b"]);
    let s = Scanner::new(ScanOptions { hash_workers: 4, ..ScanOptions::default() });
    assert_eq!(s.probe_chunk(10), 3);
    assert_eq!(s.probe_chunk(0), 1);
    let ctx = s.probe_context("/dst", &m);
    assert!(!ctx.is_source && ctx.source_link_paths.is_none());
    let sorted = sort_entries(&m.files);
    assert_eq!(sorted[0].relative_path, "a");
}

#[test]
fn matches_are_merged_under_their_name() {
    let mut found = Manifest::new("/b/d".to_string());
    found.files.push(entry("x"));
    found.skipped.push("s".to_string());
    let mut entries = vec![];
    let mut skipped = vec![];
    merge_directory("d", &stat(ObjectType::Dir), &found, &mut entries, &mut skipped);
    let paths: Vec<&str> = entries.iter().map(|e| e.relative_path.as_str()).collect();
    assert_eq!(paths, vec!["d", "d/x"]);
    assert_eq!(skipped, vec!["d/s"]);
    merge_file("f", &found, &mut entries);
    assert_eq!(entries[2].relative_path, "f");
}

#[test]
fn systems_are_told_by_their_separator() {
    assert_eq!(os_of_separator('\\'), TargetOs::Windows);
    assert_eq!(os_of_separator('/'), TargetOs::Unix);
    assert_eq!(local_os(), os_of_separator(std::path::MAIN_SEPARATOR));
}

#[test]
fn manifests_add_up_their_sizes() {
    let mut files = vec![entry("a"), entry("b")];
    files[0].size = 3;
    files[1].size = 4;
    let m = Manifest::of("/b".to_string(), files, vec!["l".to_string()]);
    assert_eq!((m.root.as_str(), m.files.len(), m.total_bytes), ("/b", 2, 7));
    assert_eq!(m.skipped, vec!["l"]);
}
