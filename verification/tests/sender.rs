//! Pairing, routing, scheduling and deleting on the sending side.

use cp2::basis::{
    indexed_candidate, register_basis_entry, stem_key, BasisIndex, CROSS_BASIS_MIN,
};
use cp2::filter::FilterSet;
use cp2::order::KeyIndex;
use cp2::planner::{SyncAction, SyncPlan, SyncTask};
use cp2::protocol::{FileKind, LinkKind, SessionError};
use cp2::sender::{
    choose_routes, collect_links, count_files, delete_paths, is_under_skipped, make_dirs,
    pair_bases, request_needed_signatures, signature_groups, Route,
};
use cp2::session::{next_phase, prepare, Phase};
use cp2::transfer::{
    basis_is_useful, batch_item, delta_work, feeds_dependents, literal_delta, read_whole_delta,
    sends_signature, signs_apart, stream_instead, ChunkStream, DeltaWork, SendFailure, SendRun,
    Step, Totals, CHUNK_BATCH_BYTES,
};

const MIB: u64 = 1024 * 1024;

fn index(prior: &[(&str, u64)]) -> BasisIndex {
    let mut index = BasisIndex::new();
    for (rel, size) in prior {
        register_basis_entry(&mut index, rel, *size);
    }
    index
}

fn skip_index(paths: &[&str]) -> KeyIndex {
    KeyIndex::new(paths.iter().map(|p| p.chars().collect()).collect())
}

fn task(rel: &str, action: SyncAction, size: u64) -> SyncTask {
    SyncTask {
        relative_path: rel.to_string(),
        action,
        source_size: size,
        is_dir: false,
        link_target: None,
        link_kind: LinkKind::Symlink,
        link_to: None,
        special: None,
        source_path: None,
        dereferenced: false,
    }
}

fn dir(rel: &str, action: SyncAction) -> SyncTask {
    SyncTask { is_dir: true, ..task(rel, action, 0) }
}

#[test]
fn cross_basis_matches_sibling_files() {
    let prior = [
        ("a/1.iso", 1_000_000),
        ("a/2.bin", 1_000_000),
        ("b/1.iso", 1_000_000),
    ];
    let at = index(&prior);
    // Same dir + stem prefix + close size: pairs.
    assert_eq!(
        indexed_candidate(&at, "a/1.1.iso", 1_100_000),
        Some(("a/1.iso".to_string(), 1_000_000))
    );
    // Different directory: no.
    assert_eq!(indexed_candidate(&at, "c/1.1.iso", 1_100_000), None);
    // Different extension: no.
    assert_eq!(indexed_candidate(&at, "a/1.1.bin", 1_100_000), None);
    // Size ratio beyond 2x: no.
    assert_eq!(indexed_candidate(&at, "a/1.1.iso", 3_000_000), None);
    // Identical stem (not a proper prefix): no.
    assert_eq!(indexed_candidate(&at, "a/1.iso", 1_000_000), None);
    // Closest size wins.
    let prior2 = [("a/1.iso", 1_000_000), ("a/1.0.iso", 1_200_000)];
    let at = index(&prior2);
    assert_eq!(
        indexed_candidate(&at, "a/1.1.iso", 1_100_000),
        Some(("a/1.iso".to_string(), 1_000_000))
    );
}

#[test]
fn cross_basis_inverted_dotted_stem() {
    let at = index(&[("a/1.1.iso", 1_200_000)]);
    assert_eq!(
        indexed_candidate(&at, "a/1.iso", 1_000_000),
        Some(("a/1.1.iso".to_string(), 1_200_000))
    );
    // Unrelated stems never pair.
    let at = index(&[("a/2.bin", 1_200_000)]);
    assert_eq!(indexed_candidate(&at, "a/1.iso", 1_000_000), None);
}

#[test]
fn basis_entries_below_half_min_are_not_registered() {
    let mut at = BasisIndex::new();
    register_basis_entry(&mut at, "a/x.bin", CROSS_BASIS_MIN / 2 - 1);
    assert!(at.is_empty());
    register_basis_entry(&mut at, "a/x.bin", CROSS_BASIS_MIN / 2);
    assert_eq!(at.len(), 1);
}

#[test]
fn delete_protection_covers_skipped_subtrees() {
    let skipped = skip_index(&["extdir", "a/b", "x/y/z"]);
    // The skipped path itself and anything under it are protected.
    assert!(is_under_skipped("extdir", &skipped));
    assert!(is_under_skipped("extdir/f", &skipped));
    assert!(is_under_skipped("a/b", &skipped));
    assert!(is_under_skipped("a/b/c/d", &skipped));
    // A sibling or a name that merely *starts with* the skipped path
    // (no component boundary) is not.
    assert!(!is_under_skipped("extdir2", &skipped));
    assert!(!is_under_skipped("a/bc", &skipped));
    assert!(!is_under_skipped("x/y", &skipped));
    assert!(!is_under_skipped("unrelated", &skipped));
    assert!(!is_under_skipped("", &skipped));
}

#[test]
fn equally_close_siblings_keep_the_earlier_one() {
    let at = index(&[("a/1.1.2.iso", 1_100_000), ("a/1.iso", 1_100_000)]);
    assert_eq!(
        indexed_candidate(&at, "a/1.1.iso", 1_200_000),
        Some(("a/1.1.2.iso".to_string(), 1_100_000))
    );
}

#[test]
fn stems_are_split_from_their_directory() {
    let k = stem_key("a/b/1.1.iso");
    assert_eq!(k.parent, "a/b");
    assert_eq!(k.ext.as_deref(), Some("iso"));
    assert_eq!(k.stem, "1.1");
}

#[test]
fn deletes_remove_children_before_parents() {
    let deletes = vec![
        dir("a", SyncAction::Delete),
        dir("a/b", SyncAction::Delete),
        task("a/b/f", SyncAction::Delete, 1),
        task("keep.tmp", SyncAction::Delete, 1),
        task("ext/f", SyncAction::Delete, 1),
    ];
    let filter = FilterSet { includes: vec![], excludes: vec!["*.tmp".to_string()] };
    let out = delete_paths(&filter, &vec!["ext".to_string()], &deletes);
    assert_eq!(out, vec!["a/b/f", "a/b", "a"]);
}

#[test]
fn signatures_are_asked_only_for_deltas() {
    let big = task("big", SyncAction::Update, 64 * MIB);
    let small = task("small", SyncAction::Update, 10);
    let fresh = task("fresh", SyncAction::Create, 64 * MIB);
    let linked = SyncTask { link_to: Some("big".to_string()), ..task("l", SyncAction::Update, 64 * MIB) };
    let tasks = vec![&big, &small, &fresh, &linked];
    assert_eq!(request_needed_signatures(&tasks), vec!["big"]);
    assert_eq!(signature_groups(70), vec![(0, 32), (32, 64), (64, 70)]);
    assert_eq!(signature_groups(0), vec![]);
}

#[test]
fn tasks_take_the_way_of_their_kind() {
    let d = dir("d", SyncAction::Create);
    let link = SyncTask { link_target: Some("t".to_string()), ..task("l", SyncAction::Create, 0) };
    let hard = SyncTask { link_to: Some("s".to_string()), ..task("h", SyncAction::Create, 9) };
    let fifo = SyncTask { special: Some((FileKind::Fifo, None)), ..task("p", SyncAction::Create, 0) };
    let small = task("s", SyncAction::Create, 10);
    let medium = task("m", SyncAction::Create, 3 * MIB);
    let large = task("L", SyncAction::Create, 64 * MIB);
    let changed = task("c", SyncAction::Update, 64 * MIB);
    let first = task("x/1.iso", SyncAction::Create, MIB);
    let second = task("x/1.1.iso", SyncAction::Create, MIB);
    let tasks = vec![&d, &link, &hard, &fifo, &small, &medium, &large, &changed, &first, &second];
    let bases = pair_bases(&tasks);
    assert_eq!(bases[9].as_deref(), Some("x/1.iso"));
    assert_eq!(bases[8], None);
    let want = vec![
        Route::Directory,
        Route::Link,
        Route::HardLink,
        Route::Special,
        Route::Batch,
        Route::WholeLiteral,
        Route::Chunked,
        Route::Delta,
        // A reference stays out of the batch although it is small.
        Route::WholeLiteral,
        Route::CrossDelta,
    ];
    assert_eq!(choose_routes(&tasks, true, &bases), want);
    // Without archive mode special files do not travel.
    assert_eq!(choose_routes(&tasks, false, &bases)[3], Route::Ignored);
    assert_eq!(count_files(&tasks), 6);
    assert_eq!(make_dirs(&tasks), vec!["d"]);
    let links = collect_links(&tasks, false);
    assert_eq!(links.links.len(), 1);
    assert_eq!(links.links[0].target, "t");
    assert_eq!(links.hardlinks[0].path, "h");
    assert!(links.specials.is_empty());
    assert!(!links.is_empty());
    assert_eq!(collect_links(&tasks, true).specials[0].kind, FileKind::Fifo);
}

fn drive(routes: Vec<Route>, jobs: usize, read: impl Fn(usize) -> Option<u64>) -> Vec<Step> {
    let mut run = SendRun::new(routes, jobs);
    let mut reading: Vec<usize> = Vec::new();
    let mut steps = Vec::new();
    loop {
        let step = run.next();
        steps.push(step);
        match step {
            Step::StartRead(k) => reading.push(k),
            Step::JoinRead => run.read_done(read(reading.remove(0))),
            Step::Finished => return steps,
            _ => {}
        }
    }
}

#[test]
fn small_files_are_read_ahead_and_batched() {
    let steps = drive(vec![Route::Batch, Route::Directory, Route::Batch], 2, |_| Some(10));
    assert_eq!(
        steps,
        vec![
            Step::StartRead(0),
            Step::StartRead(2),
            Step::JoinRead,
            Step::JoinRead,
            Step::SendBatch,
            Step::SendLinks,
            Step::Finished,
        ]
    );
}

#[test]
fn deltas_keep_to_their_window() {
    let steps = drive(vec![Route::Delta, Route::CrossDelta, Route::WholeLiteral], 2, |_| None);
    assert_eq!(
        steps,
        vec![
            Step::StartDelta(0),
            Step::StartDelta(1),
            Step::JoinDelta,
            Step::StartDelta(2),
            Step::JoinDelta,
            Step::JoinDelta,
            Step::SendLinks,
            Step::Finished,
        ]
    );
    // No window at all still computes one at a time.
    assert_eq!(drive(vec![Route::Delta], 0, |_| None)[0], Step::StartDelta(0));
}

#[test]
fn full_batches_are_sent_early() {
    // 33 files of 5 MiB: the 27th read crosses the budget.
    let steps = drive(vec![Route::Batch; 70], 1, |_| Some(5 * MIB));
    let batches = steps.iter().filter(|s| **s == Step::SendBatch).count();
    assert!(batches >= 2, "{steps:?}");
    let started: Vec<usize> = steps
        .iter()
        .filter_map(|s| match s {
            Step::StartRead(k) => Some(*k),
            _ => None,
        })
        .collect();
    assert_eq!(started, (0..70).collect::<Vec<_>>());
}

#[test]
fn unreadable_files_send_no_batch() {
    let steps = drive(vec![Route::Batch], 1, |_| None);
    assert_eq!(
        steps,
        vec![Step::StartRead(0), Step::JoinRead, Step::SendLinks, Step::Finished]
    );
}

#[test]
fn streamed_files_interleave() {
    let steps = drive(vec![Route::Chunked, Route::Ignored, Route::Chunked], 4, |_| None);
    assert_eq!(
        steps,
        vec![Step::SendChunked(0), Step::SendChunked(2), Step::SendLinks, Step::Finished]
    );
}

#[test]
fn totals_count_what_was_sent() {
    let mut t = Totals::new();
    t.add_dirs(2);
    let mut stream = ChunkStream::new(true);
    stream.add_chunk(b"he", 4);
    stream.add_chunk(b"llo", 5);
    assert_eq!(t.add_stream("a".to_string(), 5, stream), 5);
    let delta = literal_delta(6, b"hello!".to_vec(), Some([8; 32]));
    assert_eq!(t.add_recipe("b".to_string(), 5, &delta), 6);
    t.add_failed("c".to_string(), "gone".to_string());
    t.add_batch(&vec![
        batch_item(0, "d".to_string(), vec![1, 2, 3], false),
        batch_item(1, "e".to_string(), vec![], true),
    ]);
    assert_eq!(t.files, 6);
    assert_eq!(t.bytes, 14);
    let sent: Vec<&str> = t.transferred.iter().map(|(r, _)| r.as_str()).collect();
    assert_eq!(sent, vec!["a", "d", "e"]);
    assert_eq!(t.transferred[0].1, *blake3::hash(b"hello").as_bytes());
    assert_eq!(t.transferred[1].1, [0; 32]);
    assert_ne!(t.transferred[2].1, [0; 32]);
    let skipped: Vec<(&str, &str)> =
        t.skipped.iter().map(|s| (s.path.as_str(), s.reason.as_str())).collect();
    assert_eq!(
        skipped,
        vec![("b", "source changed during transfer; not removed"), ("c", "gone")]
    );
}

#[test]
fn batch_digests_are_those_of_the_content() {
    // The digest of the empty input.
    let want = [
        0xaf, 0x13, 0x49, 0xb9, 0xf5, 0xf9, 0xa1, 0xa6, 0xa0, 0x40, 0x4d, 0xea, 0x36, 0xdc, 0xc9,
        0x49, 0x9b, 0xcb, 0x25, 0xc9, 0xad, 0xc1, 0x12, 0xb7, 0xcc, 0x9a, 0x93, 0xca, 0xe4, 0x1f,
        0x32, 0x62,
    ];
    assert_eq!(batch_item(0, "e".to_string(), vec![], true).checksum, Some(want));
    assert_eq!(batch_item(0, "e".to_string(), vec![], false).checksum, None);
    let data = b"some content".to_vec();
    let direct = *blake3::hash(&data).as_bytes();
    assert_eq!(read_whole_delta(12, data, true).checksum, Some(direct));
}

#[test]
fn whole_files_are_one_literal() {
    let d = literal_delta(3, vec![1, 2, 3], None);
    assert_eq!(d.whole_literal(), Some(&vec![1, 2, 3]));
    assert_eq!(d.source_size, 3);
    assert_eq!(d.basis_size, 0);
    assert!(literal_delta(0, vec![], None).whole_literal().is_none());
}

#[test]
fn useless_bases_and_deltas_are_streamed() {
    assert!(!basis_is_useful(None));
    assert!(!basis_is_useful(Some((0, 3))));
    assert!(!basis_is_useful(Some((9, 0))));
    assert!(basis_is_useful(Some((9, 1))));
    assert!(stream_instead(256 * MIB + 1, 0, 512 * MIB, false));
    assert!(!stream_instead(256 * MIB, 0, 512 * MIB, false));
    // A sibling that matched less than half.
    assert!(stream_instead(60, 49, 100, true));
    assert!(!stream_instead(50, 50, 100, true));
    assert!(!stream_instead(60, 49, 100, false));
    assert!(!stream_instead(0, u64::MAX, 100, true));
}

#[test]
fn chunks_are_written_in_batches() {
    let mut c = ChunkStream::new(false);
    assert!(!c.add_chunk(&[1; 10], 12));
    assert!(c.is_unwritten());
    assert!(c.add_chunk(&vec![2; CHUNK_BATCH_BYTES], CHUNK_BATCH_BYTES));
    assert!(!c.is_unwritten());
    assert!(!c.add_chunk(&[3], 3));
    let sent = 10 + CHUNK_BATCH_BYTES as u64 + 1;
    assert_eq!(c.finish(), (sent, true, [0; 32]));
    assert_eq!(ChunkStream::new(false).finish(), (0, false, [0; 32]));
    let mut c = ChunkStream::new(true);
    c.add_chunk(b"ab", 3);
    c.add_chunk(b"c", 2);
    assert_eq!(c.finish(), (3, true, *blake3::hash(b"abc").as_bytes()));
}

#[test]
fn failing_files_are_skipped_and_failing_connections_end_the_run() {
    let mut t = Totals::new();
    let gone = SendFailure::Source("No such file or directory".to_string());
    assert!(t.settle_failure("a".to_string(), gone).is_ok());
    let broken = SendFailure::Delta("bad basis".to_string());
    assert!(t.settle_failure("b".to_string(), broken).is_ok());
    let skipped: Vec<(&str, &str)> =
        t.skipped.iter().map(|s| (s.path.as_str(), s.reason.as_str())).collect();
    assert_eq!(skipped, vec![("a", "No such file or directory"), ("b", "bad basis")]);
    let lost = SendFailure::Session(SessionError::Other("connection lost".to_string()));
    match t.settle_failure("c".to_string(), lost) {
        Err(SessionError::Other(m)) => assert_eq!(m, "connection lost"),
        r => panic!("{r:?}"),
    }
    assert_eq!(t.skipped.len(), 2);
    assert_eq!(t.files, 0);
}

#[test]
fn sessions_skip_empty_frames() {
    let mut plan = SyncPlan::default();
    plan.creates.push(dir("d", SyncAction::Create));
    plan.creates.push(task("f", SyncAction::Create, 10));
    plan.updates.push(task("big", SyncAction::Update, 64 * MIB));
    plan.deletes.push(task("old", SyncAction::Delete, 0));
    let out = prepare(&plan, &vec![], &FilterSet::default(), false);
    assert_eq!(out.signature_paths, vec!["big"]);
    assert_eq!(out.routes, vec![Route::Directory, Route::Batch, Route::Delta]);
    assert_eq!(out.deletes, vec!["old"]);
    assert_eq!(out.files_total, 2);
    let mut phase = Phase::Announce;
    let mut seen = vec![phase];
    while phase != Phase::Over {
        phase = next_phase(phase, &out, true);
        seen.push(phase);
    }
    assert_eq!(
        seen,
        vec![
            Phase::Announce,
            Phase::AwaitIndex,
            Phase::Signatures(0),
            Phase::Directories,
            Phase::Jobs,
            Phase::Deletions,
            Phase::Done,
            Phase::AwaitAck,
            Phase::Verify,
            Phase::Over,
        ]
    );
    let nothing = prepare(&SyncPlan::default(), &vec![], &FilterSet::default(), false);
    assert_eq!(next_phase(Phase::AwaitIndex, &nothing, false), Phase::Jobs);
    assert_eq!(next_phase(Phase::Jobs, &nothing, false), Phase::Done);
    assert_eq!(next_phase(Phase::AwaitAck, &nothing, false), Phase::Over);
}

#[test]
fn drifted_attributes_are_sent_by_name() {
    let mut plan = SyncPlan::default();
    plan.meta.push(task("a\\b", SyncAction::MetaOnly, 10));
    let out = prepare(&plan, &vec![], &FilterSet::default(), false);
    assert_eq!(out.attributes, vec!["a/b"]);
    assert!(out.routes.is_empty());
    assert_eq!(next_phase(Phase::Jobs, &out, false), Phase::Attributes);
    assert_eq!(next_phase(Phase::Attributes, &out, false), Phase::Done);
}

#[test]
fn signatures_travel_with_content_chunks() {
    assert!(sends_signature(false, 3));
    assert!(!sends_signature(false, 0));
    assert!(!sends_signature(true, 3));
}

#[test]
fn dependents_wait_for_an_intact_reference() {
    assert!(feeds_dependents(10, 10, true));
    assert!(!feeds_dependents(9, 10, true));
    assert!(!feeds_dependents(10, 10, false));
}

#[test]
fn deltas_without_a_basis_are_streamed() {
    assert_eq!(delta_work(Route::CrossDelta, true, None), DeltaWork::Sibling);
    assert_eq!(delta_work(Route::CrossDelta, false, Some((9, 1))), DeltaWork::Stream);
    assert_eq!(delta_work(Route::WholeLiteral, false, None), DeltaWork::Whole);
    assert_eq!(delta_work(Route::Delta, false, Some((9, 1))), DeltaWork::Own);
    assert_eq!(delta_work(Route::Delta, true, Some((0, 0))), DeltaWork::Stream);
    assert_eq!(delta_work(Route::Delta, true, None), DeltaWork::Stream);
    assert!(signs_apart(Route::Chunked, 1));
    assert!(signs_apart(Route::CrossDelta, 2));
    assert!(!signs_apart(Route::Delta, 2));
    assert!(!signs_apart(Route::WholeLiteral, 0));
}
