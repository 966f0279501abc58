//! Applying what the sender sends.

use std::io::{Cursor, Seek, SeekFrom, Write};

use cp2::digest::{ContentDigest, Digester};
use cp2::executor::ExecutorOptions;
use cp2::inflight::Applies;
use cp2::protocol::{FileKind, FileMeta, Frame, SessionError, TargetOs};
use cp2::receiver::{
    acknowledge, basis_file, checksum_matches, commit_flags, content_checks, count_files,
    create_steps, delete_action, dest_still_matches, dirs_to_sync, dispatch, drains_first,
    first_recipe_step, next_recipe_step, place_batch, place_file, plan_link_meta, plan_meta,
    plan_recipe, platform_meta, prunes, received_stats, settle_recipe, shortcut_target, signature_source, special_mode, ApplyCfg, ApplyOutcome,
    ApplyState, BasisLook, ChunkAction, CreateStep, DeleteAction, DeleteLook, Handling,
    MetaIndex, Receiver, RecipeStep, SignatureSource,
};
use cp2::sparse::{SparseFilter, WriteOp};
use cp2::transfer::literal_delta;
use cp2::verify::SourceStat;

fn meta(path: &str) -> FileMeta {
    FileMeta {
        path: path.to_string(),
        size: 5,
        mtime: 1_700_000_000,
        mtime_nsec: 0,
        mode: 0o600,
        hash: None,
        kind: FileKind::File,
        link_target: None,
        inode: None,
        rdev: None,
        uid: None,
        gid: None,
        atime: u64::MAX,
        atime_nsec: 4,
        xattrs: None,
    }
}

fn cfg() -> ApplyCfg {
    ApplyCfg {
        fsync: false,
        backup: false,
        verify: false,
        preserve_times: true,
        archive: false,
        sparse: false,
        preserve_atimes: false,
        xattrs: false,
    }
}

fn message<T>(r: Result<T, SessionError>) -> String {
    match r {
        Err(SessionError::Other(m)) => m,
        _ => panic!("expected a plain error"),
    }
}

/// Carry out the operations of a filter.
fn perform(file: &mut Cursor<Vec<u8>>, buf: &[u8], ops: &[WriteOp]) {
    for op in ops {
        match *op {
            WriteOp::Data { from, to } => file.write_all(&buf[from..to]).unwrap(),
            WriteOp::Zeros(n) => file.write_all(&vec![0u8; n]).unwrap(),
            WriteOp::Skip(n) => {
                file.seek(SeekFrom::Current(n as i64)).unwrap();
            }
        }
    }
}

fn written(total: u64, sparse: bool, bufs: &[&[u8]]) -> (Vec<u8>, Vec<WriteOp>) {
    let mut file = Cursor::new(Vec::new());
    let mut filter = SparseFilter::new(total, sparse);
    let mut all = Vec::new();
    for buf in bufs {
        let ops = filter.write(buf);
        perform(&mut file, buf, &ops);
        all.extend(ops);
    }
    let (ops, size) = filter.finish();
    perform(&mut file, &[], &ops);
    all.extend(ops);
    let mut content = file.into_inner();
    content.resize(size as usize, 0);
    (content, all)
}

#[test]
fn sparse_writer_turns_long_zero_runs_into_holes() {
    let mut content = vec![0u8; 1_048_576];
    content[..4].copy_from_slice(b"head");
    content[1_048_572..].copy_from_slice(b"tail");
    let (got, ops) = written(1_048_576, true, &[&content]);
    assert_eq!(got.len(), 1_048_576, "the logical size is exact");
    assert_eq!(got, content);
    assert_eq!(
        ops,
        vec![
            WriteOp::Data { from: 0, to: 4 },
            WriteOp::Skip(1_048_568),
            WriteOp::Data { from: 1_048_572, to: 1_048_576 },
        ]
    );
}

#[test]
fn sparse_writer_flushes_pending_zeros_before_data() {
    let (content, _) = written(4096 + 8, true, &[&vec![0u8; 4096], b"payload"]);
    assert_eq!(content.len(), 4096 + 8);
    assert!(content[..4096].iter().all(|&b| b == 0));
    assert_eq!(&content[4096..4096 + 7], b"payload");
    assert_eq!(content[4096 + 7], 0, "the last byte is finish() padding");
    // A short run is written.
    let (content, ops) = written(12, true, &[&[0u8; 5], b"payload"]);
    assert_eq!(&content[5..], b"payload");
    assert_eq!(ops[0], WriteOp::Zeros(5));
}

#[test]
fn sparse_writer_finish_pads_trailing_hole() {
    let (content, ops) = written(8192, true, &[b"abc"]);
    assert_eq!(content.len(), 8192);
    assert_eq!(ops, vec![WriteOp::Data { from: 0, to: 3 }]);
    // Trailing zeros below the threshold are written at the end.
    let (content, ops) = written(6, true, &[b"abc", &[0u8; 3]]);
    assert_eq!(content, b"abc\0\0\0");
    assert_eq!(ops[1], WriteOp::Zeros(3));
}

#[test]
fn sparse_writer_disabled_is_passthrough() {
    let (content, ops) = written(8192, false, &[&vec![0u8; 8192]]);
    assert_eq!(content.len(), 8192);
    assert!(content.iter().all(|&b| b == 0));
    assert_eq!(ops, vec![WriteOp::Data { from: 0, to: 8192 }]);
}

#[test]
fn zero_runs_grow_across_writes() {
    let (content, ops) = written(5000, true, &[&[0u8; 3000], &[0u8; 1999], b"x"]);
    assert_eq!(content.len(), 5000);
    assert_eq!(content[4999], b'x');
    assert_eq!(ops[0], WriteOp::Skip(4999));
}

#[test]
fn interrupted_files_are_cut() {
    let mut filter = SparseFilter::new(100, true);
    filter.write(&[0u8; 10]);
    assert_eq!(filter.set_len(7), 7);
    assert!(filter.finish().0.is_empty());
}

#[test]
fn dest_still_matches_compares_size_and_mtime() {
    let m = meta("img.fits");
    let stat = SourceStat { len: 5, mtime: 1_700_000_000, mtime_nsec: 0 };
    assert!(dest_still_matches(stat, &m), "matching meta must pass");
    assert!(!dest_still_matches(SourceStat { mtime: 1_700_000_001, ..stat }, &m));
    assert!(!dest_still_matches(SourceStat { mtime_nsec: 1, ..stat }, &m));
    assert!(!dest_still_matches(SourceStat { len: 6, ..stat }, &m));
}

#[test]
fn receivers_take_the_options() {
    let o = ExecutorOptions {
        fsync: true,
        backup: true,
        sparse: true,
        max_delete: Some(2),
        ..ExecutorOptions::default()
    };
    let r = Receiver::new(TargetOs::Unix, "/dst", &o, 0, true);
    assert_eq!(r.apply_jobs, 1);
    assert!(r.cfg.fsync && r.cfg.backup && r.cfg.sparse && r.cfg.verify && r.partial);
    assert_eq!(r.safe_join("a/b", None).unwrap(), "/dst/a/b");
    assert_eq!(message(r.safe_join("/etc/x", None)), "Unsafe path '/etc/x': absolute paths are not allowed");
    assert!(r.safe_join("a/../../b", None).is_err());
    let leaves = Some("a leaves the root".to_string());
    assert_eq!(message(r.safe_join("a/b", leaves.clone())), "Unsafe path 'a/b': a leaves the root");
    assert_eq!(message(r.safe_join("/etc/x", leaves)), "Unsafe path '/etc/x': absolute paths are not allowed");
    assert!(r.check_deletes(2).is_ok());
    assert_eq!(
        message(r.check_deletes(13)),
        "Refusing to delete 13 files: limit is 2 (--max-delete)"
    );
}

#[test]
fn batches_are_split_among_four() {
    let o = ExecutorOptions::default();
    let wide = Receiver::new(TargetOs::Unix, "/d", &o, 16, false);
    assert_eq!(wide.batch_chunks(10), vec![(0, 3), (3, 6), (6, 9), (9, 10)]);
    let narrow = Receiver::new(TargetOs::Unix, "/d", &o, 1, false);
    assert_eq!(narrow.batch_chunks(10), vec![(0, 10)]);
    assert_eq!(wide.batch_chunks(0), vec![]);
    assert_eq!(wide.batch_chunks(2), vec![(0, 1), (1, 2)]);
}

#[test]
fn streamed_files_follow_their_protocol() {
    let mut s = ApplyState::new();
    assert_eq!(message(s.file_chunk(1, b"abc")), "FileChunk without FileStart");
    assert_eq!(message(s.file_end()), "FileEnd without FileStart");
    s.file_start(1, "f", 10, true, None).unwrap();
    assert_eq!(
        message(s.file_start(2, "g", 10, true, None)),
        "FileStart while another file is in flight"
    );
    assert_eq!(message(s.file_chunk(2, b"abc")), "FileChunk file_id mismatch");
    assert_eq!(s.file_chunk(1, b"abc").unwrap(), ChunkAction::Write);
    assert_eq!(s.file_chunk(1, b"defg").unwrap(), ChunkAction::Write);
    let keep = Receiver::new(TargetOs::Unix, "/d", &ExecutorOptions::default(), 1, false);
    assert_eq!(keep.keep_partial(&s), Some(("f".to_string(), 7)));
    let drop = Receiver { partial: false, ..keep };
    assert_eq!(drop.keep_partial(&s), None);
    let f = s.file_end().unwrap().unwrap();
    assert_eq!(f.offset, 7);
    s.file_committed(f, true, "/d".to_string());
    assert_eq!((s.files_received, s.bytes_transferred), (1, 7));
    assert_eq!(s.hashes, vec![("f".to_string(), *blake3::hash(b"abcdefg").as_bytes())]);
    // A run that does not verify reports no digest.
    let mut s = ApplyState::new();
    s.file_start(1, "f", 3, false, None).unwrap();
    s.file_chunk(1, b"abc").unwrap();
    let f = s.file_end().unwrap().unwrap();
    s.file_committed(f, true, "/d".to_string());
    assert_eq!((s.files_received, s.bytes_transferred), (1, 3));
    assert!(s.hashes.is_empty());
}

#[test]
fn unwritable_files_are_drained() {
    let mut s = ApplyState::new();
    s.file_start(1, "f", 10, true, Some("locked".to_string())).unwrap();
    assert_eq!(s.file_chunk(1, b"abc").unwrap(), ChunkAction::Drain);
    assert!(s.file_end().unwrap().is_none());
    assert_eq!(s.files_received, 0);
    assert_eq!(s.skipped.len(), 1);
    assert_eq!(s.skipped[0].reason, "locked");
    assert!(s.in_flight.is_none());
}

#[test]
fn changed_destinations_report_no_digest() {
    let mut s = ApplyState::new();
    s.file_start(1, "f", 3, true, None).unwrap();
    s.file_chunk(1, b"abc").unwrap();
    let f = s.file_end().unwrap().unwrap();
    s.file_committed(f, false, "/d".to_string());
    assert!(s.hashes.is_empty());
    assert_eq!(s.skipped[0].reason, "destination changed after apply; source not removed");
    assert_eq!(s.files_received, 0);
}

#[test]
fn outcomes_are_folded() {
    let mut s = ApplyState::new();
    s.fold_outcome(ApplyOutcome::Applied(4, "/d".to_string(), Some(("a".to_string(), [2; 32]))));
    s.fold_outcome(ApplyOutcome::Applied(5, "/d".to_string(), None));
    s.fold_outcome(ApplyOutcome::Skipped("b".to_string(), "no".to_string()));
    s.made_dir("/".to_string());
    s.made_link();
    assert_eq!((s.files_received, s.bytes_transferred), (4, 9));
    assert_eq!(dirs_to_sync(&s.renamed_dirs), vec!["/", "/d"]);
    match acknowledge(&mut s) {
        Frame::Ack { files, bytes, skipped, hashes } => {
            assert_eq!((files, bytes), (4, 9));
            assert_eq!(skipped[0].path, "b");
            assert_eq!(hashes, vec![("a".to_string(), [2; 32])]);
        }
        f => panic!("{f:?}"),
    }
    assert!(s.hashes.is_empty());
    let stats = received_stats(s, 3);
    assert_eq!((stats.files_received, stats.bytes_transferred, stats.duration), (4, 9, 3));
    assert_eq!(stats.skipped.len(), 1);
}

#[test]
fn frames_have_their_place() {
    let frames = [
        (Frame::Batch { recipes: vec![] }, Handling::Batch, false),
        (Frame::FileStart { file_id: 0, file_path: String::new(), size: 0 }, Handling::FileStart, false),
        (Frame::FileChunk { file_id: 0, data: vec![] }, Handling::FileChunk, false),
        (Frame::FileEnd { file_id: 0 }, Handling::FileEnd, false),
        (Frame::SignatureRequest { paths: vec![] }, Handling::Signatures, false),
        (Frame::MakeDir { paths: vec![] }, Handling::Directories, false),
        (
            Frame::CreateLinks { links: vec![], hardlinks: vec![], specials: vec![] },
            Handling::Links,
            true,
        ),
        (Frame::SetMeta { paths: vec![] }, Handling::Attributes, false),
        (Frame::DeleteRequest { paths: vec![] }, Handling::Deletes, true),
        (Frame::Done { files: 0, bytes: 0 }, Handling::Done, true),
    ];
    for (frame, want, drains) in frames {
        let (got, same) = dispatch(frame.clone()).unwrap();
        assert_eq!(format!("{same:?}"), format!("{frame:?}"));
        assert_eq!(got, want);
        assert_eq!(drains_first(got), drains);
    }
    match dispatch(Frame::IndexResponse { file_list: vec![] }) {
        Err(SessionError::Unexpected { expected, frame }) => assert_eq!(
            format!("{expected}{frame:?}"),
            "Unexpected frame in apply loop: IndexResponse { file_list: [] }"
        ),
        other => panic!("{other:?}"),
    }
    assert_eq!(message(dispatch(Frame::Error { message: "x".to_string() })), "Peer error: x");
}

#[test]
fn bad_paths_skip_one_file() {
    assert_eq!(place_file(TargetOs::Unix, "/d", "a/b", None).unwrap(), "/d/a/b");
    assert_eq!(
        place_file(TargetOs::Unix, "/d", "../x/b", None).unwrap_err(),
        "Unsafe path '../x': .. is not allowed"
    );
    assert_eq!(place_file(TargetOs::Unix, "/d", "..", None).unwrap_err(), "Unsafe path '..': .. is not allowed");
    assert_eq!(
        place_file(TargetOs::Unix, "/d", "s/b", Some("symlink".to_string())).unwrap_err(),
        "Unsafe path 's': symlink"
    );
    // Without a directory part there is nothing to look at.
    assert_eq!(place_file(TargetOs::Unix, "/d", "b", Some("symlink".to_string())).unwrap(), "/d/b");
}

#[test]
fn recipes_are_planned() {
    let mut delta = literal_delta(3, vec![1, 2, 3], None);
    let p = plan_recipe(&delta, true, true, cfg());
    assert!(!p.open_basis && !p.need_hash && !p.fsync && !p.recheck && p.cache_signature);
    let verify = ApplyCfg { verify: true, preserve_times: false, ..cfg() };
    let p = plan_recipe(&delta, true, true, verify);
    assert!(p.need_hash && p.fsync && p.recheck && !p.cache_signature);
    delta.basis_size = 9;
    delta.checksum = Some([0; 32]);
    let p = plan_recipe(&delta, false, true, cfg());
    assert!(p.open_basis && p.need_hash && !p.cache_signature);
    assert_eq!(basis_file("f", &Some("g".to_string())), "g");
    assert_eq!(basis_file("f", &None), "f");
}

#[test]
fn written_digests_are_checked() {
    let want = *blake3::hash(b"abc").as_bytes();
    let mut content = ContentDigest::new(true);
    assert!(content.is_wanted());
    content.update(b"a");
    content.update(b"");
    content.update(b"bc");
    assert_eq!(content.finalize(), want);
    assert!(content_checks(&Some(want), &content));
    assert!(!content_checks(&Some([0; 32]), &content));
    assert!(content_checks(&None, &content));
    let mut none = ContentDigest::new(false);
    none.update(b"abc");
    assert!(!none.is_wanted());
    assert_eq!(none.finalize(), [0; 32]);
    assert!(checksum_matches(&Some(want), &want));
    assert!(!checksum_matches(&Some([0; 32]), &want));
    assert!(checksum_matches(&None, &want));
}

#[test]
fn pieces_have_the_digest_of_the_whole() {
    // The digest of no bytes at all.
    let empty = Digester::new().finalize();
    let known = [
        0xaf, 0x13, 0x49, 0xb9, 0xf5, 0xf9, 0xa1, 0xa6, 0xa0, 0x40, 0x4d, 0xea, 0x36, 0xdc, 0xc9,
        0x49, 0x9b, 0xcb, 0x25, 0xc9, 0xad, 0xc1, 0x12, 0xb7, 0xcc, 0x9a, 0x93, 0xca, 0xe4, 0x1f,
        0x32, 0x62,
    ];
    assert_eq!(empty, known);
    let data: Vec<u8> = (0..5000u32).map(|i| i as u8).collect();
    let mut content = Digester::new();
    for piece in data.chunks(777) {
        content.update(piece);
    }
    assert_eq!(content.finalize(), *blake3::hash(&data).as_bytes());
    assert_ne!(content.finalize(), empty);
}

#[test]
fn commits_are_durable_when_verified() {
    assert_eq!(commit_flags(cfg()), (false, false));
    assert_eq!(commit_flags(ApplyCfg { fsync: true, ..cfg() }), (true, false));
    assert_eq!(commit_flags(ApplyCfg { verify: true, backup: true, ..cfg() }), (true, true));
}

#[test]
fn holes_do_not_change_a_file() {
    let mut data = vec![7u8; 10];
    data.extend(vec![0u8; 9000]);
    data.extend([1, 0, 2, 0, 0]);
    let bufs: Vec<&[u8]> = data.chunks(1000).collect();
    for total in [0u64, 9015, 9020, 20000] {
        let (with, _) = written(total, true, &bufs);
        let (without, _) = written(total, false, &[&data]);
        let mut want = data.clone();
        want.resize(total as usize, 0);
        assert_eq!(with, want);
        assert_eq!(without, want);
    }
}

#[test]
fn recipes_are_settled() {
    let verify = ApplyCfg { verify: true, ..cfg() };
    let mut content = ContentDigest::new(true);
    content.update(b"abc");
    let want = *blake3::hash(b"abc").as_bytes();
    let settle = |c: ApplyCfg, failure: Option<&str>, unchanged: bool| {
        settle_recipe(
            "f".to_string(),
            3,
            "/d".to_string(),
            &content,
            c,
            failure.map(|m| m.to_string()),
            unchanged,
        )
    };
    assert!(matches!(settle(cfg(), None, false), ApplyOutcome::Applied(3, _, None)));
    assert!(matches!(settle(verify, None, true), ApplyOutcome::Applied(3, _, Some((_, h))) if h == want));
    match settle(verify, None, false) {
        ApplyOutcome::Skipped(p, m) => {
            assert_eq!(p, "f");
            assert_eq!(m, "destination changed after apply; source not removed");
        }
        o => panic!("{o:?}"),
    }
    assert!(matches!(settle(cfg(), Some("locked"), true), ApplyOutcome::Skipped(_, m) if m == "locked"));
}

#[test]
fn attributes_are_planned() {
    let mut m = meta("f");
    let p = platform_meta(&m, 0o755);
    assert_eq!((p.size, p.mode, p.mtime_sec), (5, 0o755, 1_700_000_000));
    assert_eq!((p.atime_sec, p.atime_nsec), (-1, 4));
    let all = ApplyCfg { archive: true, xattrs: true, preserve_atimes: true, ..cfg() };
    let plan = plan_meta(&m, all);
    assert!(plan.mode && plan.times && plan.atimes && plan.owner && !plan.xattrs);
    m.xattrs = Some(vec![]);
    assert!(!plan_meta(&m, all).xattrs);
    m.xattrs = Some(vec![("user.a".to_string(), vec![])]);
    assert!(plan_meta(&m, all).xattrs);
    assert!(!plan_meta(&m, cfg()).xattrs);
    let link = plan_link_meta(all);
    assert!(!link.mode && link.times && link.owner && !link.xattrs);
    assert_eq!(special_mode(Some(&m)), 0o600);
    assert_eq!(special_mode(None), 0o644);
}

#[test]
fn shortcuts_use_backslashes() {
    assert_eq!(shortcut_target("../a/b"), r"..\a\b");
}

#[test]
fn the_root_is_never_pruned() {
    assert!(prunes("/d/a", "/d", true));
    assert!(!prunes("/d/a", "/d", false));
    assert!(!prunes("/d", "/d", true));
    assert!(!prunes("/d/", "/d", true));
}

#[test]
fn metadata_is_found_by_path() {
    let mut second = meta("a");
    second.size = 9;
    let mut dir = meta("d");
    dir.kind = FileKind::Dir;
    let metas = vec![meta("a"), meta("b"), second, dir];
    assert_eq!(count_files(&metas), 3);
    let at = MetaIndex::new(metas);
    assert_eq!(at.find("a").unwrap().size, 9);
    assert_eq!(at.find("b").unwrap().size, 5);
    assert!(at.find("c").is_none());
}

#[test]
fn batches_lose_no_file() {
    let rels = vec!["a/x".to_string(), "../y".to_string(), "b/z".to_string(), "w".to_string()];
    let parents = vec![None, None, Some("blocked".to_string()), None];
    let (placed, skipped) = place_batch(TargetOs::Unix, "/root", &rels, &parents);
    assert_eq!(
        placed,
        vec![(0, "/root/a/x".to_string()), (3, "/root/w".to_string())]
    );
    assert_eq!(skipped.len(), 2);
    assert_eq!(skipped[0].path, "../y");
    assert_eq!(skipped[1].path, "b/z");
    assert_eq!(skipped[1].reason, "Unsafe path 'b': blocked");
}

#[test]
fn deletes_keep_backups_of_files() {
    assert!(matches!(delete_action(DeleteLook::Dir, true), DeleteAction::RemoveDir));
    assert!(matches!(delete_action(DeleteLook::NonDir, true), DeleteAction::Backup));
    assert!(matches!(delete_action(DeleteLook::NonDir, false), DeleteAction::Remove));
    assert!(matches!(delete_action(DeleteLook::Missing, true), DeleteAction::Nothing));
    match delete_action(DeleteLook::Failed("denied".to_string()), false) {
        DeleteAction::Abort(m) => assert_eq!(m, "denied"),
        other => panic!("unexpected {other:?}"),
    }
}

#[test]
fn hard_links_are_created_last() {
    assert_eq!(
        create_steps(2, 1, 1),
        vec![
            CreateStep::Link(0),
            CreateStep::Link(1),
            CreateStep::Special(0),
            CreateStep::HardLink(0),
        ]
    );
    assert!(create_steps(0, 0, 0).is_empty());
}

#[test]
fn signatures_come_from_the_cheapest_source() {
    assert_eq!(signature_source(true, BasisLook::Failed, true), SignatureSource::Cached);
    assert_eq!(signature_source(false, BasisLook::Absent, true), SignatureSource::Empty);
    assert_eq!(signature_source(false, BasisLook::File, false), SignatureSource::Chunks);
    assert_eq!(signature_source(false, BasisLook::File, true), SignatureSource::Blocks);
    assert_eq!(signature_source(false, BasisLook::Failed, false), SignatureSource::Unavailable);
}

#[test]
fn mismatched_content_is_never_committed() {
    let delta = literal_delta(3, b"abc".to_vec(), Some([7; 32]));
    let mut settings = cfg();
    settings.verify = true;
    let plan = plan_recipe(&delta, true, true, settings);
    let mut step = first_recipe_step(plan);
    let mut seen = vec![step];
    while step != RecipeStep::Applied {
        step = next_recipe_step(step, true, plan, true);
        seen.push(step);
    }
    assert_eq!(
        seen,
        vec![
            RecipeStep::Stage,
            RecipeStep::Write,
            RecipeStep::Commit,
            RecipeStep::ApplyMeta,
            RecipeStep::Recheck,
            RecipeStep::CacheSignature,
            RecipeStep::Applied,
        ]
    );
    assert_eq!(next_recipe_step(RecipeStep::Write, false, plan, true), RecipeStep::Skipped);
    assert_eq!(next_recipe_step(RecipeStep::Recheck, false, plan, true), RecipeStep::Skipped);
    assert_eq!(next_recipe_step(RecipeStep::Commit, true, plan, false), RecipeStep::Applied);
    assert_eq!(
        next_recipe_step(RecipeStep::CacheSignature, false, plan, true),
        RecipeStep::Applied
    );
}

#[test]
fn windows_files_stay_inside() {
    let root = "/C:/d";
    let place = |rel: &str| place_file(TargetOs::Windows, root, rel, None);
    assert_eq!(place("a/b").unwrap(), "/C:/d/a/b");
    assert_eq!(place(r"a\b").unwrap(), "/C:/d/a/b");
    assert!(place(r"..\x\b").is_err());
    assert!(place(r"D:\x").is_err());
    let r = Receiver::new(TargetOs::Windows, root, &ExecutorOptions::default(), 1, false);
    assert_eq!(
        message(r.safe_join(r"C:\x", None)),
        r"Unsafe path 'C:\x': absolute paths are not allowed"
    );
}

#[test]
fn applies_are_joined_once() {
    let mut jobs = Applies::new();
    let path = |p: &str| Some(p.to_string());
    assert_eq!(jobs.start(path("a")), 0);
    assert_eq!(jobs.start(None), 1);
    assert_eq!(jobs.start(path("b")), 2);
    assert_eq!(jobs.start(path("a")), 3);
    // Only what writes the basis is waited for, and not again.
    assert_eq!(jobs.join_basis("a"), vec![0, 3]);
    assert_eq!(jobs.join_basis("a"), Vec::<u64>::new());
    assert_eq!(jobs.join_basis("c"), Vec::<u64>::new());
    assert_eq!(jobs.start(path("a")), 4);
    // Batches come first.
    assert_eq!(jobs.drain(), vec![1, 2, 4]);
    assert_eq!(jobs.drain(), Vec::<u64>::new());
}

#[test]
fn every_recipe_is_counted_once() {
    let mut outcomes = [
        vec![ApplyOutcome::Applied(4, "/d".to_string(), Some(("a".to_string(), [1; 32])))],
        vec![
            ApplyOutcome::Applied(5, "/d".to_string(), Some(("b".to_string(), [2; 32]))),
            ApplyOutcome::Skipped("c".to_string(), "no".to_string()),
        ],
        vec![ApplyOutcome::Skipped("e".to_string(), "locked".to_string())],
    ];
    let mut jobs = Applies::new();
    jobs.start(Some("a".to_string()));
    jobs.start(None);
    jobs.start(Some("e".to_string()));
    let mut ids = jobs.join_basis("a");
    ids.extend(jobs.drain());
    let mut s = ApplyState::new();
    for id in ids {
        for outcome in outcomes[id as usize].drain(..) {
            s.fold_outcome(outcome);
        }
    }
    assert_eq!((s.files_received, s.skipped.len()), (2, 2));
    assert_eq!(s.hashes, vec![("a".to_string(), [1; 32]), ("b".to_string(), [2; 32])]);
}
