//! Options, worker counts and served paths.

use cp2::executor::{
    dest_scan, dest_scan_options, effective_storage, pull_options, pull_request,
    resolve_apply_jobs, resolve_hash_workers, scanner_options, source_scan_options, DestScan,
    ExecutorOptions, StorageClass, StoragePreference, APPLY_JOBS_SSD,
};
use cp2::host::{does_climb, join, parent, to_native, to_portable};
use cp2::protocol::{FileKind, FileMeta, Frame, PullRequest, SessionError, TargetOs};
use cp2::serve::{
    accept_matches, has_glob_metachars, literal_path, plan_glob, remote_glob_needs_expansion,
    resolve_pull_roots, resolve_serve_path, serve, PullRoots, ServeAction,
};
use cp2::strategy::optimal_thread_count;
use cp2::test_fuzz::FuzzRng;

const UNIX: TargetOs = TargetOs::Unix;
const WINDOWS: TargetOs = TargetOs::Windows;

fn options(jobs: Option<usize>, storage: StoragePreference) -> ExecutorOptions {
    ExecutorOptions { jobs, storage, ..ExecutorOptions::default() }
}

fn message<T>(r: Result<T, SessionError>) -> String {
    match r {
        Err(SessionError::Other(m)) => m,
        _ => panic!("expected a plain error"),
    }
}

#[test]
fn explicit_jobs_wins_over_storage() {
    let opts = options(Some(4), StoragePreference::Hdd);
    // The user's explicit -j beats the storage-tuned default on both sides.
    assert_eq!(resolve_apply_jobs(&opts, StorageClass::Unknown), 4);
    assert_eq!(resolve_hash_workers(&opts, StorageClass::Unknown), 4);
}

#[test]
fn hdd_tunes_sequential() {
    let opts = options(None, StoragePreference::Hdd);
    assert_eq!(resolve_apply_jobs(&opts, StorageClass::Unknown), 1);
    assert_eq!(resolve_hash_workers(&opts, StorageClass::Unknown), 1);
}

#[test]
fn ssd_tunes_default() {
    let opts = options(None, StoragePreference::Ssd);
    assert_eq!(resolve_apply_jobs(&opts, StorageClass::Unknown), APPLY_JOBS_SSD);
    assert_eq!(resolve_hash_workers(&opts, StorageClass::Unknown), optimal_thread_count(true));
}

#[test]
fn auto_with_unknown_storage_falls_back_to_ssd_defaults() {
    let opts = options(None, StoragePreference::Auto);
    assert_eq!(resolve_apply_jobs(&opts, StorageClass::Unknown), APPLY_JOBS_SSD);
    assert_eq!(resolve_hash_workers(&opts, StorageClass::Unknown), optimal_thread_count(true));
}

#[test]
fn zero_jobs_clamps_to_one() {
    let opts = options(Some(0), StoragePreference::Auto);
    assert_eq!(resolve_apply_jobs(&opts, StorageClass::Unknown), 1);
    assert_eq!(resolve_hash_workers(&opts, StorageClass::Unknown), 1);
}

#[test]
fn detected_rotating_disk_is_sequential() {
    let opts = options(None, StoragePreference::Auto);
    assert_eq!(effective_storage(&opts, StorageClass::Hdd), StorageClass::Hdd);
    assert_eq!(resolve_apply_jobs(&opts, StorageClass::Hdd), 1);
    let forced = options(None, StoragePreference::Ssd);
    assert_eq!(effective_storage(&forced, StorageClass::Hdd), StorageClass::Ssd);
}

#[test]
fn resolve_serve_path_relative_and_absolute() {
    let dir = tempfile::tempdir().unwrap();
    let root = dir.path().to_str().unwrap();
    // Empty path -> the serve root itself.
    assert_eq!(resolve_serve_path(UNIX, root, "").unwrap(), root);
    // Relative paths stay contained under the root.
    assert_eq!(
        resolve_serve_path(UNIX, root, "backup").unwrap(),
        dir.path().join("backup").to_str().unwrap()
    );
    assert_eq!(
        resolve_serve_path(UNIX, root, "softwares/cp2").unwrap(),
        dir.path().join("softwares/cp2").to_str().unwrap()
    );
    // Absolute paths (rsync semantics) pass through untouched.
    assert_eq!(resolve_serve_path(UNIX, root, "/home/user/x").unwrap(), "/home/user/x");
    // `..` is still rejected in both forms.
    assert!(resolve_serve_path(UNIX, root, "..").is_err());
    assert!(resolve_serve_path(UNIX, root, "/home/user/../x").is_err());
}

#[test]
fn refusals_name_the_path() {
    assert_eq!(message(resolve_serve_path(UNIX, "/r", "a/../b")), "Unsafe path 'a/../b': .. is not allowed");
    assert_eq!(message(resolve_serve_path(UNIX, "/r", "/../b")), "Unsafe path '/../b': .. is not allowed");
    assert_eq!(resolve_serve_path(UNIX, "/r", "./a//b").unwrap(), "/r/a/b");
    assert_eq!(resolve_serve_path(UNIX, "/r", ".").unwrap(), "/r");
}

#[test]
fn patterns_are_told_by_their_characters() {
    assert!(has_glob_metachars("a*"));
    assert!(has_glob_metachars("a?b"));
    assert!(has_glob_metachars("[x]"));
    assert!(!has_glob_metachars("a/b.c"));
    assert!(remote_glob_needs_expansion("a*", false));
    assert!(!remote_glob_needs_expansion("a*", true));
    assert!(!remote_glob_needs_expansion("a", false));
    assert_eq!(literal_path(UNIX, "/r", "a*").unwrap(), Some("/r/a*".to_string()));
    assert_eq!(literal_path(UNIX, "/r", "a").unwrap(), None);
    assert!(literal_path(UNIX, "/r", "../*").is_err());
}

#[test]
fn patterns_expand_in_their_fixed_directory() {
    let plan = plan_glob(UNIX, "/r", "d1/x/*.txt").unwrap();
    assert_eq!(plan.base, "/r/d1/x");
    assert_eq!(plan.pattern, "/r/d1/x/*.txt");
    let plan = plan_glob(UNIX, "/r", "*.txt").unwrap();
    assert_eq!(plan.base, "/r");
    assert_eq!(plan.pattern, "/r/*.txt");
    // What stands between the last separator and the pattern character counts.
    let plan = plan_glob(UNIX, "/srv", "fi*").unwrap();
    assert_eq!((plan.base.as_str(), plan.pattern.as_str()), ("/srv", "/srv/fi*"));
    let plan = plan_glob(UNIX, "/r", "/abs/a[bc]/x").unwrap();
    assert_eq!((plan.base.as_str(), plan.pattern.as_str()), ("/abs", "/abs/a[bc]/x"));
    let plan = plan_glob(UNIX, "/r", "/abs/*").unwrap();
    assert_eq!(plan.base, "/abs");
    let plan = plan_glob(UNIX, "/r", "/*").unwrap();
    assert_eq!(plan.base, "/");
    assert_eq!(plan.pattern, "/*");
    let plan = plan_glob(UNIX, "/r", "./?").unwrap();
    assert_eq!(plan.base, "/r");
    assert!(plan_glob(UNIX, "/r", "../x/*").is_err());
    assert!(plan_glob(UNIX, "/r", "*/../x").is_err());
    assert_eq!(message(plan_glob(UNIX, "/r", "d1/x")), "no files match remote source pattern 'd1/x'");
}

#[test]
fn single_paths_are_resolved_as_patterns_only() {
    let one = |p: &str, literal: bool| resolve_pull_roots(UNIX, "/r", &vec![p.to_string()], literal);
    assert_eq!(message(one("d", false)), "no files match remote source pattern 'd'");
    assert_eq!(message(one("d", true)), "no files match remote source pattern 'd'");
    assert_eq!(message(one("d*", true)), "no files match remote source pattern 'd*'");
    assert!(one("*/../x", false).is_err());
    match one("d/*", false).unwrap() {
        PullRoots::Expand(plan) => assert_eq!((plan.base.as_str(), plan.pattern.as_str()), ("/r/d", "/r/d/*")),
        other => panic!("{other:?}"),
    }
}

#[test]
fn several_paths_must_be_absolute() {
    assert_eq!(message(resolve_pull_roots(UNIX, "/r", &vec![], false)), "pull request has no paths");
    let paths = vec!["/a".to_string(), "b".to_string()];
    assert_eq!(
        message(resolve_pull_roots(UNIX, "/r", &paths, false)),
        "remote --files-from entries must be absolute paths on the server"
    );
    let paths = vec!["/a".to_string(), "/b/c".to_string()];
    match resolve_pull_roots(UNIX, "/r", &paths, false).unwrap() {
        PullRoots::Roots { base, roots } => {
            assert_eq!(base, "/");
            assert_eq!(roots, vec!["/a", "/b/c"]);
        }
        other => panic!("{other:?}"),
    }
}

#[test]
fn matches_are_sorted_name_by_name() {
    let found = vec!["/r/a-b".to_string(), "/r/a/z".to_string(), "/r/a".to_string()];
    assert_eq!(accept_matches("*", &found).unwrap(), vec!["/r/a", "/r/a/z", "/r/a-b"]);
    assert_eq!(
        message(accept_matches("x*", &vec![])),
        "no files match remote source pattern 'x*'"
    );
}

#[test]
fn fuzz_pull_roots_and_remote_glob_never_panic() {
    let root = "/srv/root";
    let mut rng = FuzzRng::new(0x6C08_5EC7_6C0B_5EED);
    for _ in 0..1_000 {
        let pattern = if rng.below(2) == 0 { rng.pathish(4) } else { rng.string(32) };
        if let Ok(plan) = plan_glob(UNIX, root, &pattern) {
            assert!(
                plan.pattern.starts_with(&plan.base),
                "glob {pattern:?} escaped {:?}: {:?}",
                plan.base,
                plan.pattern
            );
        }
        let _ = remote_glob_needs_expansion(&pattern, false);
        match resolve_pull_roots(UNIX, root, &vec![pattern.clone()], false) {
            Ok(PullRoots::Roots { base, roots }) => {
                assert!(!roots.is_empty());
                assert!(
                    roots.iter().all(|r| r.starts_with(&base)),
                    "single-path {pattern:?} escaped {base:?}"
                );
            }
            Ok(PullRoots::Expand(plan)) => {
                let tail = plan.pattern.strip_prefix(plan.base.as_str());
                assert!(tail.is_some(), "single-path {pattern:?} escaped {:?}", plan.base);
                assert!(
                    !tail.unwrap().split('/').any(|part| part == ".."),
                    "single-path {pattern:?} climbs in {:?}",
                    plan.pattern
                );
                // What it matches is accepted, and lies below the base.
                let found = vec![plan.pattern.clone()];
                let roots = accept_matches(&pattern, &found).unwrap();
                assert!(!roots.is_empty());
                assert!(roots.iter().all(|r| r.starts_with(&plan.base)));
            }
            Err(_) => {}
        }
        let n = 1 + rng.below(3);
        let paths: Vec<String> = (0..n)
            .map(|_| {
                if rng.below(2) == 0 {
                    format!("/{}", rng.pathish(3))
                } else {
                    rng.pathish(3)
                }
            })
            .collect();
        if let Ok(PullRoots::Roots { base, roots }) = resolve_pull_roots(UNIX, root, &paths, false) {
            assert!(!roots.is_empty());
            assert!(
                roots.iter().all(|r| r.starts_with(&base)),
                "multi-path {paths:?} escaped {base:?}"
            );
        }
    }
}

fn request(paths: &[&str], watch: bool) -> PullRequest {
    let mut r = pull_request(&ExecutorOptions::default(), watch, 250);
    r.paths = paths.iter().map(|p| p.to_string()).collect();
    r
}

fn pull(paths: &[&str], watch: bool, literal: bool) -> Result<ServeAction, SessionError> {
    let frame = Frame::PullRequest { request: request(paths, watch) };
    serve(UNIX, "/srv", frame, literal).map(|(action, _)| action)
}

#[test]
fn requests_are_served_by_kind() {
    let push = Frame::IndexRequest { file_list: vec![], path: "in".to_string(), verify: false };
    assert!(matches!(serve(UNIX, "/srv", push, false), Ok((ServeAction::Receive { target }, Frame::IndexRequest { .. })) if target == "/srv/in"));
    let list = Frame::ListRequest { path: String::new(), excludes: vec![], includes: vec![] };
    assert!(matches!(serve(UNIX, "/srv", list, false), Ok((ServeAction::List { source }, _)) if source == "/srv"));
    assert!(matches!(pull(&["d"], false, false), Ok(ServeAction::SendTree { source }) if source == "/srv/d"));
    assert!(matches!(pull(&["d"], true, false), Ok(ServeAction::Watch { source }) if source == "/srv/d"));
    assert!(matches!(
        pull(&["d/*"], false, false),
        Ok(ServeAction::SendRoots { roots: PullRoots::Expand(_) })
    ));
    // A path that exists as it is written is no pattern.
    assert!(matches!(pull(&["d/*"], false, true), Ok(ServeAction::SendTree { .. })));
    assert!(matches!(
        pull(&["/a", "/b"], false, false),
        Ok(ServeAction::SendRoots { roots: PullRoots::Roots { .. } })
    ));
}

#[test]
fn bad_requests_are_refused() {
    assert_eq!(message(pull(&[], true, false)), "pull request has no paths");
    assert!(pull(&["../x"], false, false).is_err());
    assert!(pull(&["../*"], false, true).is_err());
    let err = Frame::Error { message: "no".to_string() };
    assert_eq!(message(serve(UNIX, "/srv", err, false)), "Peer error: no");
    // The answer shows the whole frame.
    match serve(UNIX, "/srv", Frame::FileEnd { file_id: 3 }, false) {
        Err(SessionError::Unexpected { expected, frame }) => assert_eq!(
            format!("{expected}{frame:?}"),
            "Expected IndexRequest, PullRequest, or ListRequest, got FileEnd { file_id: 3 }"
        ),
        other => panic!("{other:?}"),
    }
}

#[test]
fn windows_paths_are_served() {
    let root = to_portable(WINDOWS, r"C:\srv");
    assert_eq!(root, "/C:/srv");
    let served = |p: &str| resolve_serve_path(WINDOWS, &root, p).map(|q| to_native(WINDOWS, &q));
    assert_eq!(served("").unwrap(), r"C:\srv");
    assert_eq!(served(r"a\b").unwrap(), r"C:\srv\a\b");
    assert_eq!(served("a/b").unwrap(), r"C:\srv\a\b");
    assert_eq!(served(r"D:\x\y").unwrap(), r"D:\x\y");
    assert_eq!(served(r"\\host\share\f").unwrap(), r"\\host\share\f");
    assert_eq!(message(served(r"a\..\b")), r"Unsafe path 'a\..\b': .. is not allowed");
    assert_eq!(message(served(r"D:\x\..\y")), r"Unsafe path 'D:\x\..\y': .. is not allowed");
    // On Unix a backslash is a part of the name.
    assert_eq!(resolve_serve_path(UNIX, "/r", r"a\..\b").unwrap(), r"/r/a\..\b");
}

#[test]
fn windows_roots_share_one_filesystem() {
    let root = to_portable(WINDOWS, r"C:\srv");
    let pull = |paths: &[&str]| {
        let paths: Vec<String> = paths.iter().map(|p| p.to_string()).collect();
        resolve_pull_roots(WINDOWS, &root, &paths, false)
    };
    match pull(&["//host/share/a/x", "//host/share/y"]).unwrap() {
        PullRoots::Roots { base, roots } => {
            assert_eq!(to_native(WINDOWS, &base), r"\\host\share\");
            let roots: Vec<String> = roots.iter().map(|r| to_native(WINDOWS, r)).collect();
            assert_eq!(roots, vec![r"\\host\share\a\x", r"\\host\share\y"]);
        }
        other => panic!("{other:?}"),
    }
    assert_eq!(
        message(pull(&["//host/share/a", "//host/other/b"])),
        "remote --files-from entries must be on the same filesystem root"
    );
    assert_eq!(
        message(pull(&["/a", r"C:\b"])),
        "remote --files-from entries must be absolute paths on the server"
    );
}

#[test]
fn windows_patterns_keep_their_directory() {
    let root = to_portable(WINDOWS, r"C:\srv");
    let plan = plan_glob(WINDOWS, &root, r"d\x\fi*.txt").unwrap();
    assert_eq!(to_native(WINDOWS, &plan.base), r"C:\srv\d\x");
    assert_eq!(to_native(WINDOWS, &plan.pattern), r"C:\srv\d\x\fi*.txt");
    let plan = plan_glob(WINDOWS, &root, "//host/share/in/*").unwrap();
    assert_eq!(to_native(WINDOWS, &plan.pattern), r"\\host\share\in\*");
    assert_eq!(
        message(plan_glob(WINDOWS, &root, r"D:\in\*")),
        r"Unsafe path 'D:\in': absolute paths are not allowed"
    );
    assert!(plan_glob(WINDOWS, &root, r"..\*").is_err());
}

#[test]
fn paths_lead_back_from_their_portable_form() {
    for p in [r"C:\a\b", r"C:a", r"a\b", r"\a", r"\\host\share\d", r"\\?\C:\d", r"\\?\UNC\h\s\d", ""] {
        assert_eq!(to_native(WINDOWS, &to_portable(WINDOWS, p)), p, "{p}");
    }
    assert_eq!(to_portable(WINDOWS, r"\\host\share\d"), r"/\\host\share/d");
    assert_eq!(to_native(WINDOWS, "a/b"), r"a\b");
    assert_eq!(to_portable(UNIX, r"/a\b"), r"/a\b");
    assert_eq!(join(WINDOWS, "/C:/a", "b"), "/C:/a/b");
    assert_eq!(join(WINDOWS, "/C:/a", "/b"), "/C:/b");
    assert_eq!(join(WINDOWS, "/C:/a", "/D:/b"), "/D:/b");
    assert_eq!(join(UNIX, "/C:/a", "/b"), "/b");
    assert_eq!(parent(WINDOWS, "/C:/a/b"), Some("/C:/a".to_string()));
    assert_eq!(parent(WINDOWS, "/C:/"), None);
    assert!(does_climb(WINDOWS, r"C:\a\..\b"));
    assert!(!does_climb(UNIX, r"C:\a\..\b"));
}

#[test]
fn client_wishes_reach_the_server() {
    let client = ExecutorOptions {
        checksum: true,
        delete: true,
        delete_scope: vec!["d".to_string()],
        update_only: true,
        ignore_existing: true,
        existing: true,
        ignore_times: true,
        compress: true,
        bwlimit: Some(9),
        exclude: vec!["*.o".to_string()],
        includes: vec!["keep.o".to_string()],
        target_os: TargetOs::Windows,
        remote_path: "src".to_string(),
        ..ExecutorOptions::default()
    };
    let r = pull_request(&client, false, 0);
    assert_eq!(r.paths, vec!["src"]);
    assert!(r.include_root);
    let server = ExecutorOptions { archive: true, jobs: Some(3), ..ExecutorOptions::default() };
    let merged = pull_options(&server, &r);
    assert!(merged.checksum && merged.delete && merged.update_only && merged.ignore_existing);
    assert!(merged.existing && merged.ignore_times && merged.compress);
    assert_eq!(merged.bwlimit, Some(9));
    assert_eq!(merged.exclude, vec!["*.o"]);
    assert_eq!(merged.includes, vec!["keep.o"]);
    assert_eq!(merged.delete_scope, vec!["d"]);
    assert_eq!(merged.target_os, TargetOs::Windows);
    assert!(merged.include_root_component);
    assert!(merged.archive);
    assert_eq!(merged.jobs, Some(3));
}

#[test]
fn several_remote_paths_keep_no_root_name() {
    let client = ExecutorOptions {
        remote_paths: vec!["/a".to_string(), "/b".to_string()],
        remote_path: "ignored".to_string(),
        ..ExecutorOptions::default()
    };
    let r = pull_request(&client, true, 7);
    assert_eq!(r.paths, vec!["/a", "/b"]);
    assert!(!r.include_root);
    assert!(r.watch);
    assert_eq!(r.watch_delay_ms, 7);
}

#[test]
fn default_options() {
    let o = ExecutorOptions::default();
    assert!(o.partial && o.recursive && o.preserve_links && o.preserve_perms && o.preserve_times);
    assert!(!o.checksum && !o.delete && !o.verify && !o.archive && !o.quiet);
    assert_eq!(o.max_delete, None);
    assert_eq!(o.storage, StoragePreference::Auto);
    assert_eq!(o.target_os, TargetOs::Unix);
    assert_eq!(o.remote_path, "");
}

#[test]
fn planner_follows_the_options() {
    let o = ExecutorOptions {
        preserve_times: false,
        delete_scope: vec!["d".to_string()],
        ..ExecutorOptions::default()
    };
    let c = o.planner_config();
    assert!(c.size_only);
    assert!(!c.preserve_times);
    assert!(c.preserve_perms);
    assert_eq!(c.delete_scope, Some(vec!["d".to_string()]));
    assert_eq!(ExecutorOptions::default().planner_config().delete_scope, None);
    assert!(!o.verifies());
    assert!(ExecutorOptions { verify: true, ..ExecutorOptions::default() }.verifies());
}

fn meta(path: &str, link_target: Option<&str>) -> FileMeta {
    FileMeta {
        path: path.to_string(),
        size: 0,
        mtime: 0,
        mtime_nsec: 0,
        mode: 0,
        hash: None,
        kind: if link_target.is_some() { FileKind::Symlink } else { FileKind::File },
        link_target: link_target.map(|t| t.to_string()),
        inode: None,
        rdev: None,
        uid: None,
        gid: None,
        atime: 0,
        atime_nsec: 0,
        xattrs: None,
    }
}

#[test]
fn scans_are_set_up_for_their_side() {
    let o = ExecutorOptions {
        include_root_component: true,
        preserve_perms: false,
        exclude: vec!["x".to_string()],
        jobs: Some(2),
        ..ExecutorOptions::default()
    };
    let s = source_scan_options(&o, StorageClass::Unknown);
    assert!(s.is_source_scan && s.no_perms && s.include_root_component);
    assert_eq!(s.filter.unwrap().excludes, vec!["x"]);
    assert_eq!(s.hash_workers, 2);
    let d = dest_scan_options(
        &o,
        StorageClass::Unknown,
        &vec![meta("a", None), meta("l", Some("a"))],
    );
    assert!(!d.is_source_scan && !d.no_perms && !d.include_root_component);
    assert!(d.filter.is_none());
    assert_eq!(d.source_link_paths, Some(vec!["l".to_string()]));
    let none = dest_scan_options(&o, StorageClass::Unknown, &vec![meta("a", None)]);
    assert_eq!(none.source_link_paths, None);
    let plain = scanner_options(&o, StorageClass::Hdd, None, false, true, None);
    assert!(plain.no_perms && !plain.include_root_component);
}

#[test]
fn destinations_are_probed_only_as_far_as_needed() {
    let plain = ExecutorOptions::default();
    let deleting = ExecutorOptions { delete: true, ..ExecutorOptions::default() };
    assert_eq!(dest_scan(&deleting, true), DestScan::Full);
    assert_eq!(dest_scan(&plain, true), DestScan::Empty);
    assert_eq!(dest_scan(&plain, false), DestScan::Targeted);
}

#[test]
fn archives_keep_links_literally() {
    let archive = ExecutorOptions { archive: true, ..ExecutorOptions::default() };
    assert!(source_scan_options(&archive, StorageClass::Ssd).literal_links);
    assert!(dest_scan_options(&archive, StorageClass::Ssd, &vec![]).literal_links);
    let plain = ExecutorOptions::default();
    assert!(!source_scan_options(&plain, StorageClass::Ssd).literal_links);
}
