//! Permission bits, link targets and path texts.

use cp2::linkpolicy::{
    classify_link, compute_exec_hint, final_mode, is_lnk_magic, lexical_normalize,
    lexical_normalize_on, rel_path, resolve_target, rewrite_internal_target, LinkClass, RealPath,
};
use cp2::protocol::TargetOs;

#[test]
fn exec_hint_matches_script_and_binary_extensions() {
    for ext in ["exe", "bat", "cmd", "ps1", "sh", "pl", "py", "rb", "lua"] {
        assert!(compute_exec_hint(&format!("tool.{ext}")), "{ext}");
        // Case-insensitive.
        assert!(
            compute_exec_hint(&format!("tool.{}", ext.to_uppercase())),
            "{ext} uppercase"
        );
    }
    assert!(!compute_exec_hint("notes.txt"));
    assert!(!compute_exec_hint("noext"));
    assert!(!compute_exec_hint("dir/"));
}

#[test]
fn final_mode_unix_source_keeps_bits_clears_high_bits() {
    // Unix → Unix: rwxrwxrwx preserved, SUID/SGID/Sticky force-cleared.
    assert_eq!(final_mode(TargetOs::Unix, TargetOs::Unix, 0o4755, false, false, false, false), 0o755);
    assert_eq!(final_mode(TargetOs::Unix, TargetOs::Unix, 0o2750, false, false, false, false), 0o750);
    assert_eq!(final_mode(TargetOs::Unix, TargetOs::Unix, 0o1777, true, false, false, false), 0o777);
    assert_eq!(final_mode(TargetOs::Unix, TargetOs::Unix, 0o640, false, false, false, false), 0o640);
}

#[test]
fn final_mode_archive_keeps_suid_sgid_sticky() {
    // `-a` (archive): byte-identical mode keeps SUID/SGID/Sticky.
    assert_eq!(final_mode(TargetOs::Unix, TargetOs::Unix, 0o4755, false, false, false, true), 0o4755);
    assert_eq!(final_mode(TargetOs::Unix, TargetOs::Unix, 0o2750, false, false, false, true), 0o2750);
    assert_eq!(final_mode(TargetOs::Unix, TargetOs::Unix, 0o1777, true, false, false, true), 0o1777);
    // `--no-perms` still wins over the archive bits.
    assert_eq!(final_mode(TargetOs::Unix, TargetOs::Unix, 0o4755, false, false, true, true), 0o644);
}

#[test]
fn final_mode_unix_source_no_perms_explicit_defaults() {
    // `--no-perms`: explicit 0644/0755 regardless of the source bits.
    assert_eq!(final_mode(TargetOs::Unix, TargetOs::Unix, 0o600, false, false, true, false), 0o644);
    assert_eq!(final_mode(TargetOs::Unix, TargetOs::Unix, 0o777, true, false, true, false), 0o755);
}

#[test]
fn final_mode_windows_source_uses_exec_hint() {
    assert_eq!(final_mode(TargetOs::Windows, TargetOs::Unix, 0, false, true, false, false), 0o755);
    assert_eq!(final_mode(TargetOs::Windows, TargetOs::Unix, 0, false, false, false, false), 0o644);
    assert_eq!(final_mode(TargetOs::Windows, TargetOs::Unix, 0, true, false, false, false), 0o755);
    // `--no-perms` disables the heuristic: every file 0644.
    assert_eq!(final_mode(TargetOs::Windows, TargetOs::Unix, 0, false, true, true, false), 0o644);
}

#[test]
fn final_mode_ignores_target_os() {
    // The value is the same for any target; the receiver applies (Unix)
    // or ignores (Windows) it.
    assert_eq!(
        final_mode(TargetOs::Unix, TargetOs::Windows, 0o640, false, false, false, false),
        0o640
    );
}

#[test]
fn rel_path_descends_and_ascends() {
    assert_eq!(rel_path("a", "a/t.txt"), "t.txt");
    assert_eq!(rel_path("a/b", "a/c.txt"), "../c.txt");
    assert_eq!(rel_path("a/b", "d/e.txt"), "../../d/e.txt");
    assert_eq!(rel_path("a", "a"), ".");
    assert_eq!(rel_path("", "x.txt"), "x.txt");
}

#[test]
fn rewrite_internal_target_is_dest_relative() {
    // Link at `a/link.txt` → target `a/sub/t.txt`: relative = `sub/t.txt`.
    assert_eq!(rewrite_internal_target("a/link.txt", "a/sub/t.txt"), "sub/t.txt");
    // Link at `links/l` → target `links/../shared/t`: relative `../shared/t`.
    assert_eq!(rewrite_internal_target("links/l", "shared/t"), "../shared/t");
    // Same directory: bare name.
    assert_eq!(rewrite_internal_target("link.txt", "target.txt"), "target.txt");
    // Top-level link → nested target.
    assert_eq!(rewrite_internal_target("l", "sub/x"), "sub/x");
}

#[test]
fn lnk_magic_sniffs_header_size() {
    assert!(is_lnk_magic(&[0x4C, 0x00, 0x00, 0x00, 0x01]));
    assert!(is_lnk_magic(&[0x4C, 0x00, 0x00, 0x00]));
    assert!(!is_lnk_magic(&[0x4C, 0x00, 0x00]));
    assert!(!is_lnk_magic(b"LNK1"));
    assert!(!is_lnk_magic(b""));
}

#[test]
fn lexical_normalize_cancels_parent_dirs() {
    assert_eq!(lexical_normalize("a/b/../c"), "a/c");
    assert_eq!(lexical_normalize("a/./b"), "a/b");
    assert_eq!(lexical_normalize("a/.."), "");
    // `..` cannot climb above the root.
    assert_eq!(lexical_normalize("/../x"), "/x");
    assert_eq!(lexical_normalize("/a/../../x"), "/x");
    // A semantic self-reference normalizes to the link path itself.
    assert_eq!(
        lexical_normalize("/root/sub/../sub/l"),
        "/root/sub/l"
    );
}

#[test]
fn lexical_normalize_keeps_drive_root() {
    // `..` from a drive root stays at the root; the separator survives.
    assert_eq!(
        lexical_normalize_on(TargetOs::Windows, r"C:\..\x"),
        r"C:\x"
    );
    assert_eq!(
        lexical_normalize_on(TargetOs::Windows, r"C:\a\..\x"),
        r"C:\x"
    );
}

#[test]
fn target_os_from_os_name() {
    assert_eq!(TargetOs::from_os_name("windows"), TargetOs::Windows);
    assert_eq!(TargetOs::from_os_name("Windows"), TargetOs::Windows);
    assert_eq!(TargetOs::from_os_name("linux"), TargetOs::Unix);
    assert_eq!(TargetOs::from_os_name("macos"), TargetOs::Unix);
    assert_eq!(TargetOs::from_os_name("darwin"), TargetOs::Unix);
}

fn canonical(path: &str, is_dir: bool) -> Option<RealPath> {
    Some(RealPath { path: path.to_string(), is_dir })
}

#[test]
fn classify_link_internal_relative_target() {
    assert_eq!(
        classify_link(TargetOs::Unix, "/root/link.txt", "sub/t.txt", "/root", &canonical("/root/sub/t.txt", false)),
        LinkClass::Internal
    );
}

#[test]
fn classify_link_absolute_target_inside_root_is_internal() {
    assert_eq!(
        classify_link(TargetOs::Unix, "/root/abs.txt", "/root/t.txt", "/root", &canonical("/root/t.txt", false)),
        LinkClass::Internal
    );
}

#[test]
fn classify_link_external_file_and_dir() {
    assert_eq!(
        classify_link(TargetOs::Unix, "/root/f_link", "/out/f.txt", "/root", &canonical("/out/f.txt", false)),
        LinkClass::ExternalFile
    );
    assert_eq!(
        classify_link(TargetOs::Unix, "/root/d_link", "/out/d", "/root", &canonical("/out/d", true)),
        LinkClass::ExternalDir
    );
}

#[test]
fn classify_link_dangling_external_and_internal() {
    assert_eq!(
        classify_link(TargetOs::Unix, "/root/dangling_out", "/out/missing.txt", "/root", &None),
        LinkClass::DanglingExternal
    );
    assert_eq!(
        classify_link(TargetOs::Unix, "/root/dangling_in", "not-yet.txt", "/root", &None),
        LinkClass::Internal
    );
}

#[test]
fn targets_resolve_against_the_link_directory() {
    assert_eq!(resolve_target(TargetOs::Unix, "/root/a/l", "../t"), "/root/a/../t");
    assert_eq!(resolve_target(TargetOs::Unix, "/root/a/l", "/t"), "/t");
}

#[test]
fn normalizing_twice_changes_nothing() {
    for p in ["a/b/../c", "/../x", "./a/./b", "a/../../b", "/a/../.."] {
        let once = lexical_normalize(p);
        assert_eq!(lexical_normalize(&once), once, "{p}");
    }
}

#[test]
fn absolute_paths_stay_absolute() {
    assert_eq!(lexical_normalize("/a/../.."), "/");
}

#[test]
fn relative_paths_lead_to_their_target() {
    for (from, to) in [("a/b", "a/c/d"), ("a", "b"), ("x/y/z", "x")] {
        let rel = rel_path(from, to);
        assert_eq!(lexical_normalize(&format!("{from}/{rel}")), to, "{from} -> {to}");
    }
}

#[test]
fn both_systems_normalize() {
    assert_eq!(lexical_normalize_on(TargetOs::Unix, "a/../b"), "b");
    assert_eq!(lexical_normalize_on(TargetOs::Windows, r"a\..\b\c"), r"b\c");
    assert_eq!(lexical_normalize_on(TargetOs::Windows, r"C:x\.\y"), r"C:x\y");
}

#[test]
fn windows_targets_resolve_by_their_drive() {
    let os = TargetOs::Windows;
    assert_eq!(resolve_target(os, "/C:/root/a/l", r"..\t"), "/C:/root/a/../t");
    assert_eq!(resolve_target(os, "/C:/root/a/l", r"\t"), "/C:/t");
    assert_eq!(resolve_target(os, "/C:/root/a/l", r"D:\t"), "/D:/t");
    assert_eq!(
        classify_link(os, "/C:/root/l", r"sub\t", "/C:/root", &None),
        LinkClass::Internal
    );
    assert_eq!(
        classify_link(os, "/C:/root/l", r"D:\root\t", "/C:/root", &None),
        LinkClass::DanglingExternal
    );
    // On Unix the same text is one name.
    assert_eq!(resolve_target(TargetOs::Unix, "/root/a/l", r"..\t"), r"/root/a/..\t");
}
