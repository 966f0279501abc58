//! Openings, answers, comparison and waiting.

use cp2::filter::FilterSet;
use cp2::handshake::{client, hello, server};
use cp2::planner::{Planner, PlannerConfig};
use cp2::protocol::{FileKind, FileMeta, Frame, LinkKind, SessionError, SkippedFile};
use cp2::scanner::{FileEntry, Manifest};
use cp2::session::{
    add_cycle, expect_ack, expect_cycle, expect_index_request, expect_index_response,
    expect_listing, expect_signatures, kind_letter, list_changes, plan_run, sent_stats,
    wait_for_disconnect, watch_disconnect, Probe,
};
use cp2::sigcache::{
    content_sample, entry_name, key_matches, lookup, sample_plan, store, CacheKey, Lookup,
};
use cp2::stats::{ItemizeAction, SyncStats};
use cp2::transfer::{literal_delta, Totals};
use cp2::verify::{
    complain, decide_removal, find_entry, removal_report, Acked, Attempt, Check, Removal,
    SourceStat,
};
use cp2::watcher::{
    event_is_syncworthy, wait_for_changes, BurstWait, Debounce, EventClass, WaitEvent, WatchWait,
    MAX_COALESCE, SYNC_ERROR_BACKOFF,
};

fn other<T>(r: Result<T, SessionError>) -> String {
    match r {
        Err(SessionError::Other(m)) => m,
        _ => panic!("expected a plain error"),
    }
}

fn surprise<T>(r: Result<T, SessionError>) -> String {
    match r {
        Err(SessionError::Unexpected { expected, frame }) => format!("{expected}{frame:?}"),
        _ => panic!("expected an unexpected frame"),
    }
}

fn meta(path: &str, kind: FileKind) -> FileMeta {
    FileMeta {
        path: path.to_string(),
        size: 3,
        mtime: 100,
        mtime_nsec: 0,
        mode: 0o644,
        hash: None,
        kind,
        link_target: None,
        inode: None,
        rdev: None,
        uid: None,
        gid: None,
        atime: 0,
        atime_nsec: 0,
        xattrs: None,
    }
}

fn entry(rel: &str, size: u64, dereferenced: bool) -> FileEntry {
    FileEntry {
        relative_path: rel.to_string(),
        size,
        mode: 0o644,
        mtime_sec: 100,
        mtime_nsec: 5,
        file_hash: None,
        is_dir: false,
        link_target: None,
        link_kind: LinkKind::Symlink,
        inode: None,
        kind: FileKind::File,
        rdev: None,
        uid: None,
        gid: None,
        atime_sec: 0,
        atime_nsec: 0,
        xattrs: None,
        source_path: None,
        dereferenced,
    }
}

#[test]
fn equal_builds_shake_hands() {
    let (reply, verdict) = server(hello("b1"), "b1");
    assert!(verdict.is_ok());
    assert!(client(reply.unwrap()).is_ok());
}

#[test]
fn other_builds_are_turned_away() {
    let (reply, verdict) = server(hello("b1"), "b2");
    assert_eq!(other(verdict), "Peer build b1 incompatible with local build b2");
    match client(reply.unwrap()) {
        Err(SessionError::HandshakeRejected { peer_build }) => assert_eq!(peer_build, "b2"),
        r => panic!("{r:?}"),
    }
}

#[test]
fn broken_openings_are_errors() {
    let err = || Frame::Error { message: "x".to_string() };
    assert_eq!(other(client(err())), "Peer rejected handshake: x");
    assert_eq!(other(client(Frame::FileEnd { file_id: 0 })), "Expected HelloAck");
    let (reply, verdict) = server(err(), "b");
    assert!(reply.is_none());
    assert_eq!(other(verdict), "Peer error: x");
    let (reply, verdict) = server(Frame::FileEnd { file_id: 0 }, "b");
    assert!(reply.is_none());
    assert_eq!(other(verdict), "Expected Hello");
}

#[test]
fn answers_must_fit() {
    let end = || Frame::FileEnd { file_id: 0 };
    let err = || Frame::Error { message: "x".to_string() };
    assert!(expect_index_response(Frame::IndexResponse { file_list: vec![] }).unwrap().is_empty());
    assert_eq!(surprise(expect_index_response(end())), "Expected IndexResponse, got FileEnd { file_id: 0 }");
    assert_eq!(other(expect_index_response(err())), "Peer error: x");
    assert!(expect_signatures(Frame::SignatureResponse { signatures: vec![] }).is_ok());
    assert_eq!(surprise(expect_signatures(end())), "Expected SignatureResponse, got FileEnd { file_id: 0 }");
    let ack = Frame::Ack {
        files: 1,
        bytes: 2,
        skipped: vec![],
        hashes: vec![("a".to_string(), [1; 32])],
    };
    assert_eq!(expect_ack(ack).unwrap().1.len(), 1);
    assert_eq!(surprise(expect_ack(end())), "Expected Ack, got FileEnd { file_id: 0 }");
    let index = || Frame::IndexRequest { file_list: vec![], path: String::new(), verify: true };
    assert!(expect_index_request(index()).unwrap().1);
    assert_eq!(other(expect_index_request(end())), "Expected IndexRequest from peer");
    assert!(expect_cycle(index()).is_ok());
    assert_eq!(surprise(expect_cycle(end())), "Unexpected frame in pull-watch: FileEnd { file_id: 0 }");
    assert!(expect_listing(Frame::ListResponse { file_list: vec![] }).is_ok());
    assert_eq!(surprise(expect_listing(end())), "Expected ListResponse, got FileEnd { file_id: 0 }");
    assert_eq!(other(expect_listing(err())), "Peer error: x");
}

#[test]
fn listings_have_one_line_per_file() {
    let mut link = meta("l", FileKind::Symlink);
    link.link_target = Some("t".to_string());
    let lines = list_changes(&vec![
        meta("f", FileKind::File),
        meta("d", FileKind::Dir),
        link,
        meta("p", FileKind::Fifo),
    ]);
    let got: Vec<(&str, char)> = lines.iter().map(|l| (l.path.as_str(), l.kind)).collect();
    assert_eq!(got, vec![("f", 'f'), ("d", 'd'), ("l", 'L'), ("p", 'S')]);
    assert!(lines.iter().all(|l| l.action == ItemizeAction::Skip));
    assert!(lines.iter().all(|l| l.size.is_some()));
    assert_eq!(kind_letter(FileKind::File, true), 'L');
}

#[test]
fn runs_are_planned_and_itemized() {
    let mut source = Manifest::new(".".to_string());
    source.files.push(entry("a", 1, false));
    let dest = Manifest::new(".".to_string());
    let planner = Planner::new(PlannerConfig::default());
    let all = FilterSet::default();
    let (plan, lines) = plan_run(&planner, true, &source, &dest, &all);
    assert_eq!(plan.creates.len(), 1);
    assert_eq!(lines.len(), 1);
    assert_eq!(lines[0].action, ItemizeAction::Create);
    let (_, none) = plan_run(&planner, false, &source, &dest, &all);
    assert!(none.is_empty());
}

#[test]
fn reports_name_only_the_deletions_that_happen() {
    let mut source = Manifest::new(".".to_string());
    source.skipped.push("kept".to_string());
    let mut dest = Manifest::new(".".to_string());
    let mut gone = entry("gone", 0, false);
    gone.is_dir = true;
    dest.files.push(gone);
    dest.files.push(entry("gone/f", 1, false));
    dest.files.push(entry("kept/f", 1, false));
    dest.files.push(entry("x.tmp", 1, false));
    let planner = Planner::new(PlannerConfig {
        delete: true,
        ..PlannerConfig::default()
    });
    let filter = FilterSet {
        includes: vec![],
        excludes: vec!["*.tmp".to_string()],
    };
    let (plan, lines) = plan_run(&planner, true, &source, &dest, &filter);
    assert_eq!(plan.deletes.len(), 4);
    let got: Vec<(&str, char)> = lines.iter().map(|l| (l.path.as_str(), l.kind)).collect();
    assert_eq!(got, vec![("gone", 'd'), ("gone/f", 'f')]);
    assert!(lines.iter().all(|l| l.action == ItemizeAction::Delete));
}

#[test]
fn cycles_add_up() {
    let mut total = SyncStats::default();
    let cycle = SyncStats {
        files_sent: 2,
        files_received: 3,
        bytes_transferred: 40,
        ..SyncStats::default()
    };
    add_cycle(&mut total, &cycle);
    add_cycle(&mut total, &cycle);
    assert_eq!(total.files_sent, 4);
    assert_eq!(total.files_received, 6);
    assert_eq!(total.bytes_transferred, 80);
}

#[test]
fn both_sides_skips_are_reported() {
    let mut totals = Totals::new();
    totals.add_failed("a".to_string(), "x".to_string());
    totals.add_recipe("b".to_string(), 4, &literal_delta(4, vec![1, 2, 3, 4], None));
    let skip = |p: &str| SkippedFile::new(p.to_string(), "y".to_string());
    let stats = sent_stats(totals, vec![skip("c")], vec![skip("d")], vec![], 7);
    let paths: Vec<&str> = stats.skipped.iter().map(|s| s.path.as_str()).collect();
    assert_eq!(paths, vec!["a", "c", "d"]);
    assert_eq!((stats.files_sent, stats.bytes_transferred, stats.duration), (1, 4, 7));
}

#[test]
fn waiting_servers_watch_the_client() {
    assert!(matches!(wait_for_disconnect(Probe::Elapsed), Ok(false)));
    assert!(matches!(wait_for_disconnect(Probe::Closed), Ok(true)));
    assert_eq!(
        other(wait_for_disconnect(Probe::Data)),
        "Unexpected data from client during scan retry"
    );
    assert!(watch_disconnect(false).is_ok());
    assert_eq!(
        other(watch_disconnect(true)),
        "Unexpected data from client during watch wait"
    );
}

const STAT: SourceStat = SourceStat { len: 10, mtime: 100, mtime_nsec: 5 };

#[test]
fn sources_go_only_when_everything_agrees() {
    let skipped = vec![SkippedFile::new("s".to_string(), "locked".to_string())];
    let hashes = vec![
        ("a".to_string(), [9; 32]),
        ("a".to_string(), [1; 32]),
        ("s".to_string(), [1; 32]),
    ];
    let ack = Acked::new(&skipped, hashes);
    let e = entry("a", 10, false);
    assert_eq!(ack.check("a", &[1; 32], true, Some(&e)), Check::Probe);
    assert_eq!(ack.check("a", &[1; 32], false, Some(&e)), Check::Verified);
    assert_eq!(ack.check("a", &[9; 32], true, Some(&e)), Check::Mismatch);
    assert_eq!(ack.check("b", &[1; 32], true, Some(&e)), Check::NoHash);
    assert_eq!(ack.check("s", &[1; 32], true, Some(&e)), Check::SkippedByReceiver);
    let ext = entry("a", 10, true);
    assert_eq!(ack.check("a", &[1; 32], true, Some(&ext)), Check::External);
    assert_eq!(ack.check("a", &[1; 32], true, None), Check::Probe);
    assert_eq!(complain(Check::NoHash).as_deref(), Some("no verification hash from receiver"));
    assert_eq!(
        complain(Check::Mismatch).as_deref(),
        Some("hash mismatch: destination does not match source")
    );
    assert_eq!(complain(Check::Verified), None);
}

#[test]
fn changed_sources_stay() {
    let e = entry("a", 10, false);
    assert!(matches!(decide_removal(Some(&e), Attempt::Done, STAT), Removal::Remove));
    for stat in [
        SourceStat { len: 11, ..STAT },
        SourceStat { mtime: 101, ..STAT },
        SourceStat { mtime_nsec: 6, ..STAT },
    ] {
        match decide_removal(Some(&e), Attempt::Done, stat) {
            Removal::Report(m) => assert_eq!(m, "source changed since scan; not removed"),
            r => panic!("{r:?}"),
        }
    }
    assert!(matches!(decide_removal(None, Attempt::Done, STAT), Removal::Remove));
    assert!(matches!(decide_removal(Some(&e), Attempt::Missing, STAT), Removal::Leave));
    match decide_removal(Some(&e), Attempt::Failed("io".to_string()), STAT) {
        Removal::Report(m) => assert_eq!(m, "io"),
        r => panic!("{r:?}"),
    }
    assert_eq!(removal_report(Attempt::Done), None);
    assert_eq!(removal_report(Attempt::Missing), None);
    assert_eq!(removal_report(Attempt::Failed("io".to_string())).as_deref(), Some("io"));
}

#[test]
fn entries_are_found_by_their_path() {
    let entries = vec![entry("x", 1, false), entry(r"d\f", 2, false), entry("d/f", 3, false)];
    assert_eq!(find_entry(&entries, "d/f").unwrap().size, 3);
    assert_eq!(find_entry(&entries, r"d\f").unwrap().size, 2);
    assert!(find_entry(&entries, "y").is_none());
}

#[test]
fn access_events_are_ignored() {
    assert!(!event_is_syncworthy(EventClass::Access));
    assert!(event_is_syncworthy(EventClass::Modify));
    assert!(event_is_syncworthy(EventClass::Create));
    assert!(event_is_syncworthy(EventClass::Remove));
    assert!(event_is_syncworthy(EventClass::Other));
}

#[test]
fn quiet_time_restarts_until_the_cap() {
    let mut w = Debounce::new(300);
    assert_eq!(w.wait_debounce(WaitEvent::Change, 1_000), None);
    assert_eq!(w.remaining(1_000), Some(300));
    assert_eq!(w.wait_debounce(WaitEvent::Tick, 1_299), None);
    assert_eq!(w.wait_debounce(WaitEvent::Change, 1_299), None);
    assert_eq!(w.wait_debounce(WaitEvent::Tick, 1_598), None);
    assert_eq!(w.wait_debounce(WaitEvent::Tick, 1_599), Some(BurstWait::Ready));
    // Changes that never stop.
    let mut w = Debounce::new(300);
    let mut now = 0;
    loop {
        now += 200;
        if let Some(end) = w.wait_debounce(WaitEvent::Change, now) {
            assert_eq!(end, BurstWait::Ready);
            break;
        }
    }
    assert_eq!(now, 200 + MAX_COALESCE);
    assert_eq!(w.remaining(u64::MAX), Some(0));
}

#[test]
fn nothing_is_synced_without_a_change() {
    let mut w = Debounce::new(300);
    assert_eq!(w.remaining(0), None);
    for now in [0, 300, 20_000, u64::MAX] {
        assert_eq!(w.wait_debounce(WaitEvent::Tick, now), None);
    }
    // The first change opens the quiet time, however late it comes.
    let mut w = Debounce::new(300);
    assert_eq!(w.wait_debounce(WaitEvent::Tick, 60_000), None);
    assert_eq!(w.wait_debounce(WaitEvent::Change, 60_001), None);
    assert_eq!(w.remaining(60_001), Some(300));
    assert_eq!(w.wait_debounce(WaitEvent::Tick, 60_301), Some(BurstWait::Ready));
}

#[test]
fn waits_end_with_their_channel() {
    let mut w = Debounce::new(300);
    assert_eq!(w.wait_debounce(WaitEvent::Closed, 1), Some(BurstWait::ChannelClosed));
    assert_eq!(w.wait_debounce(WaitEvent::Abort, 1), Some(BurstWait::Aborted));
    assert_eq!(wait_for_changes(true, BurstWait::Aborted), WatchWait::Changed);
    assert_eq!(wait_for_changes(false, BurstWait::Ready), WatchWait::Changed);
    assert_eq!(wait_for_changes(false, BurstWait::ChannelClosed), WatchWait::Disconnected);
    assert_eq!(wait_for_changes(false, BurstWait::Aborted), WatchWait::Disconnected);
    assert!(SYNC_ERROR_BACKOFF < MAX_COALESCE);
}

const KEY: CacheKey = CacheKey { size: 11, mtime_sec: 1, mtime_nsec: 2 };

#[test]
fn cache_entries_are_named_by_digest() {
    let want = format!("{}.sig", blake3::hash("/a/b".as_bytes()).to_hex());
    assert_eq!(entry_name("/a/b"), want);
    assert_ne!(entry_name("/a/b"), entry_name("/a/c"));
}

#[test]
fn cache_hits_need_key_and_sample() {
    let sample = content_sample(&b"hello ".to_vec(), &b"world".to_vec());
    assert_eq!(sample, *blake3::hash(b"hello world").as_bytes());
    let tag = store(KEY, &Some(sample)).unwrap();
    assert!(key_matches(&tag, KEY));
    assert_eq!(lookup(&tag, KEY, &Some(sample)), Lookup::Hit);
    for key in [
        CacheKey { size: 12, ..KEY },
        CacheKey { mtime_sec: 3, ..KEY },
        CacheKey { mtime_nsec: 9, ..KEY },
    ] {
        assert_eq!(lookup(&tag, key, &Some(sample)), Lookup::Miss);
    }
    assert_eq!(lookup(&tag, KEY, &Some([0; 32])), Lookup::Stale);
    assert_eq!(lookup(&tag, KEY, &None), Lookup::Stale);
    assert!(store(KEY, &None).is_none());
}

#[test]
fn samples_take_both_ends() {
    assert_eq!(sample_plan(0), (0, None));
    assert_eq!(sample_plan(4096), (4096, None));
    assert_eq!(sample_plan(4097), (4096, Some(1)));
    assert_eq!(sample_plan(40_960), (4096, Some(36_864)));
}
