//! One sync session: what the sender prepares, in which order it speaks, and
//! which answers each side takes.
use vstd::prelude::*;

use crate::filter::FilterSet;
use crate::planner;
use crate::planner::{Planner, SyncPlan};
use crate::protocol;
use crate::protocol::{
    ErrorV, FileKind, FileMeta, Frame, SessionError, SignatureEntry, SkippedFile,
};
use crate::scanner;
use crate::scanner::Manifest;
use crate::sender;
use crate::sender::{LinkBatch, Route};
use crate::spans;
use crate::stats;
use crate::stats::{ItemizeAction, ItemizeEntry, SyncStats};
use crate::text;
use crate::transfer::Totals;
use crate::wire;

verus! {

/// The tasks of a plan that are sent: the new entries, then the changed ones.
pub open spec fn plan_tasks(plan: SyncPlan) -> Seq<planner::TaskV> {
    planner::task_views(plan.creates@) + planner::task_views(plan.updates@)
}

/// Everything that the sender derives from a plan before it speaks.
#[derive(Debug)]
pub struct Outgoing {
    /// The paths whose signatures are asked for.
    pub signature_paths: Vec<String>,
    /// Those paths, cut into requests.
    pub signature_groups: Vec<(usize, usize)>,
    /// The directories to create.
    pub dirs: Vec<String>,
    /// The sibling that each task is sent as a delta against.
    pub bases: Vec<Option<String>>,
    /// The way of each task.
    pub routes: Vec<Route>,
    /// What is created after all content.
    pub links: LinkBatch,
    /// The files whose attributes alone are re-applied.
    pub attributes: Vec<String>,
    /// The paths to delete.
    pub deletes: Vec<String>,
    /// The number of regular files.
    pub files_total: usize,
}

impl Outgoing {
    /// Whether this is what a plan asks for.
    pub open spec fn follows(
        &self,
        tasks: Seq<planner::TaskV>,
        meta: Seq<planner::TaskV>,
        deletes: Seq<planner::TaskV>,
        skipped: Seq<Seq<char>>,
        filter: FilterSet,
        archive: bool,
    ) -> bool {
        let n = tasks.len() as int;
        &&& text::views(self.signature_paths@) == sender::signature_paths(tasks, n)
        &&& spans::cuts(
            self.signature_groups@,
            self.signature_paths@.len() as int,
            sender::SIGNATURE_GROUP as int,
        )
        &&& text::views(self.dirs@) == sender::directory_paths(tasks, n)
        &&& sender::opt_views(self.bases@) == sender::bases_of(tasks)
        &&& self.routes@ == sender::routes_of(tasks, archive)
        &&& self.links.links@.map_values(|s: protocol::LinkSpec| s@) == sender::link_specs(tasks, n)
        &&& self.links.hardlinks@.map_values(|s: protocol::HardlinkSpec| s@)
            == sender::hardlink_specs(tasks, n)
        &&& self.links.specials@.map_values(|s: protocol::SpecialSpec| s@)
            == sender::special_specs(tasks, n, archive)
        &&& text::views(self.attributes@) == sender::attribute_paths(meta)
        &&& sender::delete_list(filter, skipped, deletes, text::views(self.deletes@))
        &&& self.files_total == tasks.filter(|t: planner::TaskV| sender::has_content(t)).len()
    }
}

/// Derive everything that the sender needs from a plan. Excluded paths and
/// paths that the scan skipped are never deleted.
pub fn prepare(plan: &SyncPlan, skipped: &Vec<String>, filter: &FilterSet, archive: bool) -> (r:
    Outgoing)
    ensures
        r.follows(
            plan_tasks(*plan),
            planner::task_views(plan.meta@),
            planner::task_views(plan.deletes@),
            text::views(skipped@),
            *filter,
            archive,
        ),
{
    let tasks = plan.tasks();
    proof {
        assert(sender::borrowed_views(tasks@) =~= plan_tasks(*plan)) by {
            let all = plan.creates@ + plan.updates@;
            assert forall|i: int| 0 <= i < tasks@.len() implies sender::borrowed_views(tasks@)[i]
                == plan_tasks(*plan)[i] by {
                assert(*tasks@[i] == all[i]);
            }
        }
    }
    let signature_paths = sender::request_needed_signatures(&tasks);
    let signature_groups = sender::signature_groups(signature_paths.len());
    let dirs = sender::make_dirs(&tasks);
    let bases = sender::pair_bases(&tasks);
    let routes = sender::choose_routes(&tasks, archive, &bases);
    let links = sender::collect_links(&tasks, archive);
    let attributes = sender::set_meta(&plan.meta);
    let deletes = sender::delete_paths(filter, skipped, &plan.deletes);
    let files_total = sender::count_files(&tasks);
    Outgoing {
        signature_paths,
        signature_groups,
        dirs,
        bases,
        routes,
        links,
        attributes,
        deletes,
        files_total,
    }
}

/// The itemized report of a plan: what is created, updated, given its
/// attributes again and skipped, then what is deleted.
pub open spec fn plan_report(plan: SyncPlan, skipped: Seq<Seq<char>>, filter: FilterSet) -> Seq<
    stats::LineV,
> {
    planner::report(ItemizeAction::Create, planner::task_views(plan.creates@)) + planner::report(
        ItemizeAction::Update,
        planner::task_views(plan.updates@),
    ) + planner::report(ItemizeAction::Update, planner::task_views(plan.meta@)) + planner::report(
        ItemizeAction::Skip,
        planner::task_views(plan.skips@),
    ) + sender::delete_report(
        filter,
        skipped,
        planner::task_views(plan.deletes@),
        plan.deletes@.len() as int,
    )
}

/// Plan a run against the receiver's file list. The second result is the
/// itemized report, if one is wanted.
pub fn plan_run(
    planner: &Planner,
    itemize: bool,
    source: &Manifest,
    dest: &Manifest,
    filter: &FilterSet,
) -> (r: (SyncPlan, Vec<ItemizeEntry>))
    ensures
        itemize ==> stats::itemize_views(r.1@) == plan_report(
            r.0,
            text::views(source.skipped@),
            *filter,
        ),
        !itemize ==> r.1@.len() == 0,
        planned(planner.cfg(), source.entries(), dest.entries(), r.0),
{
    let plan = planner.plan(source, dest);
    let changes = if itemize {
        let mut lines = plan.itemize();
        let mut gone = sender::itemize_deletes(filter, &source.skipped, &plan.deletes);
        let ghost (a, b) = (lines@, gone@);
        lines.append(&mut gone);
        assert(stats::itemize_views(lines@) =~= stats::itemize_views(a) + stats::itemize_views(b));
        lines
    } else {
        Vec::new()
    };
    (plan, changes)
}

/// Whether a plan is the one that a configuration gives.
pub open spec fn planned(
    cfg: planner::PlannerConfig,
    source: Seq<scanner::EntryV>,
    dest: Seq<scanner::EntryV>,
    plan: SyncPlan,
) -> bool {
    let n = source.len() as int;
    &&& planner::task_views(plan.creates@) == planner::tasks_with(
        cfg,
        source,
        dest,
        n,
        planner::SyncAction::Create,
    )
    &&& planner::task_views(plan.updates@) == planner::tasks_with(
        cfg,
        source,
        dest,
        n,
        planner::SyncAction::Update,
    )
    &&& planner::task_views(plan.skips@) == planner::tasks_with(
        cfg,
        source,
        dest,
        n,
        planner::SyncAction::Skip,
    )
    &&& planner::task_views(plan.meta@) == planner::tasks_with(
        cfg,
        source,
        dest,
        n,
        planner::SyncAction::MetaOnly,
    )
    &&& planner::task_views(plan.deletes@) == planner::deletions(
        cfg,
        source,
        dest,
        dest.len() as int,
    )
}

/// Where a sending session stands.
#[derive(Debug, Clone, Copy, PartialEq, Eq, Structural)]
pub enum Phase {
    /// Send the file list.
    Announce,
    /// Wait for the receiver's file list.
    AwaitIndex,
    /// Ask for this group of signatures.
    Signatures(usize),
    /// Send the directories.
    Directories,
    /// Run the transfer schedule.
    Jobs,
    /// Send the files whose attributes alone are re-applied.
    Attributes,
    /// Send the deletions.
    Deletions,
    /// Say that everything was sent.
    Done,
    /// Wait for the receiver's report.
    AwaitAck,
    /// Compare digests and remove sources.
    Verify,
    /// The session is over.
    Over,
}

/// The place of a phase in a session; groups of signatures follow each other.
pub open spec fn rank(p: Phase, groups: int) -> int {
    match p {
        Phase::Announce => 0,
        Phase::AwaitIndex => 1,
        Phase::Signatures(k) => 2 + k,
        Phase::Directories => 2 + groups,
        Phase::Jobs => 3 + groups,
        Phase::Attributes => 4 + groups,
        Phase::Deletions => 5 + groups,
        Phase::Done => 6 + groups,
        Phase::AwaitAck => 7 + groups,
        Phase::Verify => 8 + groups,
        Phase::Over => 9 + groups,
    }
}

/// The phase behind the signatures: directories only if there are any.
pub open spec fn after_signatures(has_dirs: bool) -> Phase {
    if has_dirs {
        Phase::Directories
    } else {
        Phase::Jobs
    }
}

/// The phase behind the attributes: deletions only if there are any.
pub open spec fn after_attributes(has_deletes: bool) -> Phase {
    if has_deletes {
        Phase::Deletions
    } else {
        Phase::Done
    }
}

/// The phase that follows.
pub open spec fn phase_after(
    p: Phase,
    groups: usize,
    has_dirs: bool,
    has_meta: bool,
    has_deletes: bool,
    verifies: bool,
) -> Phase {
    match p {
        Phase::Announce => Phase::AwaitIndex,
        Phase::AwaitIndex => if groups > 0 {
            Phase::Signatures(0)
        } else {
            after_signatures(has_dirs)
        },
        Phase::Signatures(k) => if k + 1 < groups {
            Phase::Signatures((k + 1) as usize)
        } else {
            after_signatures(has_dirs)
        },
        Phase::Directories => Phase::Jobs,
        Phase::Jobs => if has_meta {
            Phase::Attributes
        } else {
            after_attributes(has_deletes)
        },
        Phase::Attributes => after_attributes(has_deletes),
        Phase::Deletions => Phase::Done,
        Phase::Done => Phase::AwaitAck,
        Phase::AwaitAck => if verifies {
            Phase::Verify
        } else {
            Phase::Over
        },
        Phase::Verify => Phase::Over,
        Phase::Over => Phase::Over,
    }
}

/// The phase that follows: a frame that would be empty is not sent.
pub fn next_phase(p: Phase, out: &Outgoing, verifies: bool) -> (r: Phase)
    ensures
        r == phase_after(
            p,
            out.signature_groups.len(),
            out.dirs@.len() > 0,
            out.attributes@.len() > 0,
            out.deletes@.len() > 0,
            verifies,
        ),
{
    let groups: usize = out.signature_groups.len();
    let behind = if out.dirs.len() > 0 {
        Phase::Directories
    } else {
        Phase::Jobs
    };
    let last = if out.deletes.len() > 0 {
        Phase::Deletions
    } else {
        Phase::Done
    };
    match p {
        Phase::Announce => Phase::AwaitIndex,
        Phase::AwaitIndex => if groups > 0 {
            Phase::Signatures(0)
        } else {
            behind
        },
        Phase::Signatures(k) => if k < groups && k + 1 < groups {
            Phase::Signatures(k + 1)
        } else {
            behind
        },
        Phase::Directories => Phase::Jobs,
        Phase::Jobs => if out.attributes.len() > 0 {
            Phase::Attributes
        } else {
            last
        },
        Phase::Attributes => last,
        Phase::Deletions => Phase::Done,
        Phase::Done => Phase::AwaitAck,
        Phase::AwaitAck => if verifies {
            Phase::Verify
        } else {
            Phase::Over
        },
        Phase::Verify => Phase::Over,
        Phase::Over => Phase::Over,
    }
}

/// A session only moves forward: every phase leads to a later one, so every
/// file is sent before anything is deleted, and nothing is compared or removed
/// before the receiver reported.
pub proof fn law_sessions_move_forward(
    p: Phase,
    groups: usize,
    has_dirs: bool,
    has_meta: bool,
    has_deletes: bool,
    verifies: bool,
)
    requires
        p != Phase::Over,
        p matches Phase::Signatures(k) ==> k < groups,
    ensures
        ({
            let q = phase_after(p, groups, has_dirs, has_meta, has_deletes, verifies);
            &&& rank(p, groups as int) < rank(q, groups as int) <= rank(Phase::Over, groups as int)
            &&& q matches Phase::Signatures(k) ==> k < groups
            &&& q == Phase::Verify ==> p == Phase::AwaitAck
        }),
{
}

/// What a peer reports with a failure.
pub open spec fn failure_in(frame: Frame) -> Option<Seq<char>> {
    match frame {
        Frame::Error { message } => Some(message@),
        _ => None,
    }
}

/// The file list that a frame answers with.
pub open spec fn index_in(frame: Frame) -> Option<Vec<FileMeta>> {
    match frame {
        Frame::IndexResponse { file_list } => Some(file_list),
        _ => None,
    }
}

/// The signatures that a frame answers with.
pub open spec fn signatures_in(frame: Frame) -> Option<Vec<SignatureEntry>> {
    match frame {
        Frame::SignatureResponse { signatures } => Some(signatures),
        _ => None,
    }
}

/// The lists of the report that a frame holds.
pub open spec fn report_in(frame: Frame) -> Option<AckReport> {
    match frame {
        Frame::Ack { skipped, hashes, .. } => Some((skipped, hashes)),
        _ => None,
    }
}

/// The file list that a frame announces, and whether digests are wanted.
pub open spec fn announced_in(frame: Frame) -> Option<(Vec<FileMeta>, bool)> {
    match frame {
        Frame::IndexRequest { file_list, verify, .. } => Some((file_list, verify)),
        _ => None,
    }
}

/// The files that a frame lists.
pub open spec fn listing_in(frame: Frame) -> Option<Vec<FileMeta>> {
    match frame {
        Frame::ListResponse { file_list } => Some(file_list),
        _ => None,
    }
}

/// Whether an outcome is what a frame holds: the awaited content, the failure
/// that the peer reported, or some other refusal.
pub open spec fn outcome_of<T>(
    found: Option<T>,
    failure: Option<Seq<char>>,
    r: Result<T, SessionError>,
) -> bool {
    match r {
        Ok(v) => found == Some(v),
        Err(e) => found is None && (failure is Some ==> e@ == ErrorV::Other(
            "Peer error: "@ + failure->0,
        )),
    }
}

/// The files of a file list.
pub fn expect_index_response(frame: Frame) -> (r: Result<Vec<FileMeta>, SessionError>)
    ensures
        outcome_of(index_in(frame), failure_in(frame), r),
        match frame {
            Frame::IndexResponse { file_list } => r == Ok::<Vec<FileMeta>, SessionError>(file_list),
            Frame::Error { message } => r matches Err(e) && e@ == ErrorV::Other(
                "Peer error: "@ + message@,
            ),
            _ => r matches Err(e) && e@ == ErrorV::Unexpected("Expected IndexResponse, got "@, frame),
        },
{
    match frame {
        Frame::IndexResponse { file_list } => Ok(file_list),
        Frame::Error { message } => Err(protocol::error_of("Peer error: ", message.as_str())),
        other => Err(protocol::unexpected("Expected IndexResponse, got ", other)),
    }
}

/// The signatures of an answer.
pub fn expect_signatures(frame: Frame) -> (r: Result<Vec<SignatureEntry>, SessionError>)
    ensures
        outcome_of(signatures_in(frame), failure_in(frame), r),
        match frame {
            Frame::SignatureResponse { signatures } => r == Ok::<
                Vec<SignatureEntry>,
                SessionError,
            >(signatures),
            Frame::Error { message } => r matches Err(e) && e@ == ErrorV::Other(
                "Peer error: "@ + message@,
            ),
            _ => r matches Err(e) && e@ == ErrorV::Unexpected("Expected SignatureResponse, got "@, frame),
        },
{
    match frame {
        Frame::SignatureResponse { signatures } => Ok(signatures),
        Frame::Error { message } => Err(protocol::error_of("Peer error: ", message.as_str())),
        other => Err(protocol::unexpected("Expected SignatureResponse, got ", other)),
    }
}

/// The receiver's report: the files it skipped, and the digests of what it
/// applied.
pub type AckReport = (Vec<SkippedFile>, Vec<(String, [u8; 32])>);

/// The lists of the receiver's report.
pub fn expect_ack(frame: Frame) -> (r: Result<AckReport, SessionError>)
    ensures
        outcome_of(report_in(frame), failure_in(frame), r),
        match frame {
            Frame::Ack { skipped, hashes, .. } => r == Ok::<AckReport, SessionError>(
                (skipped, hashes),
            ),
            Frame::Error { message } => r matches Err(e) && e@ == ErrorV::Other(
                "Peer error: "@ + message@,
            ),
            _ => r matches Err(e) && e@ == ErrorV::Unexpected("Expected Ack, got "@, frame),
        },
{
    match frame {
        Frame::Ack { skipped, hashes, .. } => Ok((skipped, hashes)),
        Frame::Error { message } => Err(protocol::error_of("Peer error: ", message.as_str())),
        other => Err(protocol::unexpected("Expected Ack, got ", other)),
    }
}

/// The file list that a pulled tree is announced with, and whether digests are
/// wanted.
pub fn expect_index_request(frame: Frame) -> (r: Result<(Vec<FileMeta>, bool), SessionError>)
    ensures
        outcome_of(announced_in(frame), failure_in(frame), r),
        match frame {
            Frame::IndexRequest { file_list, verify, .. } => r == Ok::<
                (Vec<FileMeta>, bool),
                SessionError,
            >((file_list, verify)),
            Frame::Error { message } => r matches Err(e) && e@ == ErrorV::Other(
                "Peer error: "@ + message@,
            ),
            _ => r matches Err(e) && e@ == ErrorV::Other("Expected IndexRequest from peer"@),
        },
{
    match frame {
        Frame::IndexRequest { file_list, verify, .. } => Ok((file_list, verify)),
        Frame::Error { message } => Err(protocol::error_of("Peer error: ", message.as_str())),
        _ => Err(protocol::plain_error("Expected IndexRequest from peer")),
    }
}

/// The next cycle of a watched pull: its file list, and whether digests are
/// wanted.
pub fn expect_cycle(frame: Frame) -> (r: Result<(Vec<FileMeta>, bool), SessionError>)
    ensures
        outcome_of(announced_in(frame), failure_in(frame), r),
        match frame {
            Frame::IndexRequest { file_list, verify, .. } => r == Ok::<
                (Vec<FileMeta>, bool),
                SessionError,
            >((file_list, verify)),
            Frame::Error { message } => r matches Err(e) && e@ == ErrorV::Other(
                "Peer error: "@ + message@,
            ),
            _ => r matches Err(e) && e@ == ErrorV::Unexpected("Unexpected frame in pull-watch: "@, frame),
        },
{
    match frame {
        Frame::IndexRequest { file_list, verify, .. } => Ok((file_list, verify)),
        Frame::Error { message } => Err(protocol::error_of("Peer error: ", message.as_str())),
        other => Err(protocol::unexpected("Unexpected frame in pull-watch: ", other)),
    }
}

/// The files of a listing.
pub fn expect_listing(frame: Frame) -> (r: Result<Vec<FileMeta>, SessionError>)
    ensures
        outcome_of(listing_in(frame), failure_in(frame), r),
        match frame {
            Frame::ListResponse { file_list } => r == Ok::<Vec<FileMeta>, SessionError>(file_list),
            Frame::Error { message } => r matches Err(e) && e@ == ErrorV::Other(
                "Peer error: "@ + message@,
            ),
            _ => r matches Err(e) && e@ == ErrorV::Unexpected("Expected ListResponse, got "@, frame),
        },
{
    match frame {
        Frame::ListResponse { file_list } => Ok(file_list),
        Frame::Error { message } => Err(protocol::error_of("Peer error: ", message.as_str())),
        other => Err(protocol::unexpected("Expected ListResponse, got ", other)),
    }
}

/// The file-type letter of a listed file.
pub open spec fn letter_of(m: protocol::MetaV) -> char {
    if m.link_target is Some || m.kind == FileKind::Symlink {
        'L'
    } else {
        match m.kind {
            FileKind::Dir => 'd',
            FileKind::File => 'f',
            _ => 'S',
        }
    }
}

/// The file-type letter of a listed file: `L` link, `d` directory, `f` file,
/// `S` special.
pub fn kind_letter(kind: FileKind, is_link: bool) -> (c: char)
    ensures
        c == if is_link || kind == FileKind::Symlink {
            'L'
        } else {
            match kind {
                FileKind::Dir => 'd',
                FileKind::File => 'f',
                _ => 'S',
            }
        },
{
    if is_link {
        return 'L';
    }
    match kind {
        FileKind::Symlink => 'L',
        FileKind::Dir => 'd',
        FileKind::File => 'f',
        _ => 'S',
    }
}

/// The line of a listing for one file.
pub open spec fn listed(m: protocol::MetaV) -> stats::LineV {
    stats::LineV {
        action: ItemizeAction::Skip,
        path: m.path,
        kind: letter_of(m),
        size: Some(m.size),
    }
}

/// The report lines of a listing: one line of no change for every file, with
/// its size.
pub fn list_changes(metas: &Vec<FileMeta>) -> (out: Vec<ItemizeEntry>)
    ensures
        stats::itemize_views(out@) == wire::meta_views(metas@).map_values(
            |m: protocol::MetaV| listed(m),
        ),
{
    let ghost f = |m: protocol::MetaV| listed(m);
    let mut out: Vec<ItemizeEntry> = Vec::new();
    let mut i: usize = 0;
    while i < metas.len()
        invariant
            i <= metas.len(),
            f == (|m: protocol::MetaV| listed(m)),
            out.len() == i,
            forall|j: int| 0 <= j < i ==> (#[trigger] out@[j])@ == f(metas@[j]@),
        decreases metas.len() - i,
    {
        let m = &metas[i];
        let letter = kind_letter(m.kind, m.link_target.is_some());
        let line = ItemizeEntry::new(ItemizeAction::Skip, text::copy_str(m.path.as_str()), letter);
        out.push(line.with_size(m.size));
        i += 1;
    }
    assert(stats::itemize_views(out@) =~= wire::meta_views(metas@).map_values(f));
    out
}

/// Whether the totals of a watched session hold one cycle more.
pub open spec fn holds_cycle(before: SyncStats, cycle: SyncStats, after: SyncStats) -> bool {
    &&& after.files_sent == before.files_sent + cycle.files_sent
    &&& after.files_received == before.files_received + cycle.files_received
    &&& after.bytes_transferred == before.bytes_transferred + cycle.bytes_transferred
}

/// Add one cycle of a watched session to the totals.
pub fn add_cycle(total: &mut SyncStats, cycle: &SyncStats)
    requires
        old(total).files_sent + cycle.files_sent <= usize::MAX,
        old(total).files_received + cycle.files_received <= usize::MAX,
        old(total).bytes_transferred + cycle.bytes_transferred <= u64::MAX,
    ensures
        holds_cycle(*old(total), *cycle, *final(total)),
        final(total).files_sent == old(total).files_sent + cycle.files_sent,
        final(total).files_received == old(total).files_received + cycle.files_received,
        final(total).bytes_transferred == old(total).bytes_transferred + cycle.bytes_transferred,
        final(total).duration == old(total).duration,
        final(total).changes@ == old(total).changes@,
        final(total).skipped@ == old(total).skipped@,
{
    total.files_sent += cycle.files_sent;
    total.files_received += cycle.files_received;
    total.bytes_transferred += cycle.bytes_transferred;
}

/// What a probe of the connection found while a serving side was waiting.
#[derive(Debug, Clone, Copy, PartialEq, Eq, Structural)]
pub enum Probe {
    /// The wait elapsed first.
    Elapsed,
    /// The peer closed the connection.
    Closed,
    /// The peer sent something.
    Data,
}

/// What a probe says of the session: whether it ends, or nothing that is allowed.
pub open spec fn ends(probe: Probe) -> Option<bool> {
    match probe {
        Probe::Elapsed => Some(false),
        Probe::Closed => Some(true),
        Probe::Data => None,
    }
}

/// Whether the session ends during the wait before a scan is tried again.
pub fn wait_for_disconnect(probe: Probe) -> (r: Result<bool, SessionError>)
    ensures
        match r {
            Ok(b) => ends(probe) == Some(b),
            Err(_) => ends(probe) is None,
        },
        match probe {
            Probe::Elapsed => r matches Ok(b) && !b,
            Probe::Closed => r matches Ok(b) && b,
            Probe::Data => r matches Err(e) && e@ == ErrorV::Other(
                "Unexpected data from client during scan retry"@,
            ),
        },
{
    match probe {
        Probe::Elapsed => Ok(false),
        Probe::Closed => Ok(true),
        Probe::Data => Err(
            protocol::plain_error("Unexpected data from client during scan retry"),
        ),
    }
}

/// Whether the client is gone while changes are waited for; anything it sends
/// meanwhile is an error.
pub fn watch_disconnect(got_data: bool) -> (r: Result<(), SessionError>)
    ensures
        match r {
            Ok(_) => !got_data,
            Err(e) => got_data && e@ == ErrorV::Other(
                "Unexpected data from client during watch wait"@,
            ),
        },
{
    if got_data {
        Err(protocol::plain_error("Unexpected data from client during watch wait"))
    } else {
        Ok(())
    }
}

/// Whether a report is the one of a sending run.
pub open spec fn reports_run(
    totals: Totals,
    received: Seq<SkippedFile>,
    compared: Seq<SkippedFile>,
    r: SyncStats,
) -> bool {
    &&& r.files_sent == totals.files
    &&& r.files_received == 0
    &&& r.bytes_transferred == totals.bytes
    &&& r.skipped@ == totals.skipped@ + received + compared
}

/// What a sending run reports: the files that either side skipped, then those
/// that the comparison complained about.
pub fn sent_stats(
    totals: Totals,
    received: Vec<SkippedFile>,
    compared: Vec<SkippedFile>,
    changes: Vec<ItemizeEntry>,
    duration: u64,
) -> (r: SyncStats)
    requires
        totals.files <= usize::MAX,
    ensures
        reports_run(totals, received@, compared@, r),
        r.files_sent == totals.files,
        r.files_received == 0,
        r.bytes_transferred == totals.bytes,
        r.duration == duration,
        r.changes == changes,
        r.skipped@ == totals.skipped@ + received@ + compared@,
{
    let mut skipped = totals.skipped;
    let mut received = received;
    let mut compared = compared;
    skipped.append(&mut received);
    skipped.append(&mut compared);
    SyncStats {
        files_sent: totals.files as usize,
        files_received: 0,
        bytes_transferred: totals.bytes,
        duration,
        changes,
        skipped,
    }
}

/// A session does everything that there is to do: the phases that lie between
/// one phase and the one that follows it have nothing to send, ask or compare,
/// and the one that follows has.
pub proof fn law_no_phase_is_passed_over(
    p: Phase,
    q: Phase,
    groups: usize,
    has_dirs: bool,
    has_meta: bool,
    has_deletes: bool,
    verifies: bool,
)
    requires
        p != Phase::Over,
        p matches Phase::Signatures(k) ==> k < groups,
        q matches Phase::Signatures(k) ==> k < groups,
    ensures
        ({
            let next = phase_after(p, groups, has_dirs, has_meta, has_deletes, verifies);
            let idle = |x: Phase|
                (x == Phase::Directories && !has_dirs) || (x == Phase::Attributes && !has_meta) || (
                x == Phase::Deletions && !has_deletes) || (x == Phase::Verify && !verifies);
            &&& rank(p, groups as int) < rank(q, groups as int) < rank(next, groups as int) ==> idle(
                q,
            )
            &&& !idle(next)
        }),
        rank(Phase::Announce, groups as int) < rank(Phase::AwaitIndex, groups as int) < rank(
            Phase::Directories,
            groups as int,
        ) < rank(Phase::Jobs, groups as int) < rank(Phase::Attributes, groups as int) < rank(
            Phase::Deletions,
            groups as int,
        ) < rank(Phase::Done, groups as int) < rank(Phase::AwaitAck, groups as int) < rank(
            Phase::Verify,
            groups as int,
        ) < rank(Phase::Over, groups as int),
        q matches Phase::Signatures(k) ==> rank(Phase::AwaitIndex, groups as int) < rank(
            q,
            groups as int,
        ) < rank(Phase::Directories, groups as int),
{
}

/// An answer is taken only from the frame that was waited for, with what it
/// holds; what the peer reports with a failure comes back in the error.
pub proof fn law_only_awaited_frames_are_taken(frame: Frame)
    ensures
        index_in(frame) matches Some(v) ==> frame == (Frame::IndexResponse { file_list: v }),
        signatures_in(frame) matches Some(v) ==> frame == (Frame::SignatureResponse {
            signatures: v,
        }),
        listing_in(frame) matches Some(v) ==> frame == (Frame::ListResponse { file_list: v }),
        frame matches Frame::IndexResponse { file_list } ==> index_in(frame) == Some(file_list),
        frame matches Frame::SignatureResponse { signatures } ==> signatures_in(frame) == Some(
            signatures,
        ),
        frame matches Frame::ListResponse { file_list } ==> listing_in(frame) == Some(file_list),
        report_in(frame) is Some <==> frame is Ack,
        frame matches Frame::Ack { skipped, hashes, .. } ==> report_in(frame) == Some(
            (skipped, hashes),
        ),
        announced_in(frame) is Some <==> frame is IndexRequest,
        frame matches Frame::IndexRequest { file_list, verify, .. } ==> announced_in(frame)
            == Some((file_list, verify)),
        failure_in(frame) is Some <==> frame is Error,
        frame matches Frame::Error { message } ==> failure_in(frame) == Some(message@),
{
}

/// A refusal never stands for content, and content is handed over unchanged; a
/// failure that the peer reported is passed on in its words.
pub proof fn law_refusals_carry_the_reason<T>(
    found: Option<T>,
    failure: Option<Seq<char>>,
    r: Result<T, SessionError>,
)
    requires
        outcome_of(found, failure, r),
    ensures
        found is Some <==> r is Ok,
        r matches Ok(v) ==> found == Some(v),
        found is None && failure is Some ==> (r matches Err(e) && e@ == ErrorV::Other(
            "Peer error: "@ + failure->0,
        )),
{
}

/// Every line of a listing tells the path, the size and the type of its file,
/// and no change.
pub proof fn law_listings_describe_the_file(m: protocol::MetaV)
    ensures
        listed(m).path == m.path,
        listed(m).size == Some(m.size),
        listed(m).action == ItemizeAction::Skip,
        listed(m).kind == 'L' <==> m.link_target is Some || m.kind == FileKind::Symlink,
        m.link_target is None ==> (listed(m).kind == 'd' <==> m.kind == FileKind::Dir),
        m.link_target is None ==> (listed(m).kind == 'f' <==> m.kind == FileKind::File),
        listed(m).kind == 'L' || listed(m).kind == 'd' || listed(m).kind == 'f' || listed(m).kind
            == 'S',
{
}

/// What a watched session reports in the end is the sum of its cycles: taking
/// the cycle away again leaves what was there before, in every count.
pub proof fn law_cycles_add_up(before: SyncStats, cycle: SyncStats, after: SyncStats)
    requires
        holds_cycle(before, cycle, after),
    ensures
        after.files_sent - cycle.files_sent == before.files_sent,
        after.files_received - cycle.files_received == before.files_received,
        after.bytes_transferred - cycle.bytes_transferred == before.bytes_transferred,
        cycle.files_sent > 0 ==> after.files_sent > before.files_sent,
        cycle.files_received > 0 ==> after.files_received > before.files_received,
        cycle.bytes_transferred > 0 ==> after.bytes_transferred > before.bytes_transferred,
{
}

/// While a side waits only a closed connection ends the session, and nothing
/// that the peer sends is allowed.
pub proof fn law_only_a_closed_connection_ends(probe: Probe)
    ensures
        ends(probe) == Some(true) <==> probe == Probe::Closed,
        ends(probe) is None <==> probe == Probe::Data,
{
}

/// A sending run reports what it sent, nothing as received, and every file that
/// it skipped, that the receiver skipped or that the comparison named.
pub proof fn law_runs_report_every_skipped_file(
    totals: Totals,
    received: Seq<SkippedFile>,
    compared: Seq<SkippedFile>,
    r: SyncStats,
    f: SkippedFile,
)
    requires
        reports_run(totals, received, compared, r),
    ensures
        r.files_sent == totals.files,
        r.files_received == 0,
        r.bytes_transferred == totals.bytes,
        r.skipped@.len() == totals.skipped@.len() + received.len() + compared.len(),
        totals.skipped@.contains(f) || received.contains(f) || compared.contains(f)
            ==> r.skipped@.contains(f),
{
    let own = totals.skipped@;
    if own.contains(f) {
        let i = choose|i: int| 0 <= i < own.len() && own[i] == f;
        assert(r.skipped@[i] == f);
    }
    if received.contains(f) {
        let i = choose|i: int| 0 <= i < received.len() && received[i] == f;
        assert(r.skipped@[own.len() + i] == f);
    }
    if compared.contains(f) {
        let i = choose|i: int| 0 <= i < compared.len() && compared[i] == f;
        assert(r.skipped@[own.len() + received.len() + i] == f);
    }
}

/// A plan holds every entry of the source in the list of what is done to it,
/// and every extra entry of the destination among the deletions.
pub proof fn law_plans_hold_every_entry(
    cfg: planner::PlannerConfig,
    source: Seq<scanner::EntryV>,
    dest: Seq<scanner::EntryV>,
    plan: SyncPlan,
    i: int,
)
    requires
        planned(cfg, source, dest, plan),
    ensures
        0 <= i < source.len() ==> ({
            let named = |list: Seq<planner::SyncTask>|
                exists|k: int|
                    0 <= k < list.len() && (#[trigger] list[k])@.relative_path
                        == source[i].relative_path;
            match planner::decision_at(cfg, source, dest, i) {
                planner::SyncAction::Create => named(plan.creates@),
                planner::SyncAction::Update => named(plan.updates@),
                planner::SyncAction::Skip => named(plan.skips@),
                planner::SyncAction::MetaOnly => named(plan.meta@),
                planner::SyncAction::Delete => false,
            }
        }),
        0 <= i < dest.len() && cfg.delete && !scanner::paths(source).contains(dest[i].relative_path)
            && planner::deletable(planner::scope_view(cfg.delete_scope), dest[i].relative_path)
            ==> exists|k: int|
            0 <= k < plan.deletes@.len() && (#[trigger] plan.deletes@[k])@.relative_path
                == dest[i].relative_path,
{
    if 0 <= i < source.len() {
        planner::law_every_entry_is_planned_once(cfg, source, dest, source.len() as int);
        let k = planner::law_every_entry_is_listed(cfg, source, dest, source.len() as int, i);
        match planner::decision_at(cfg, source, dest, i) {
            planner::SyncAction::Create => {
                assert(planner::task_views(plan.creates@)[k] == plan.creates@[k]@);
            },
            planner::SyncAction::Update => {
                assert(planner::task_views(plan.updates@)[k] == plan.updates@[k]@);
            },
            planner::SyncAction::Skip => {
                assert(planner::task_views(plan.skips@)[k] == plan.skips@[k]@);
            },
            planner::SyncAction::MetaOnly => {
                assert(planner::task_views(plan.meta@)[k] == plan.meta@[k]@);
            },
            planner::SyncAction::Delete => {},
        }
    }
    if 0 <= i < dest.len() && cfg.delete && !scanner::paths(source).contains(
        dest[i].relative_path,
    ) && planner::deletable(planner::scope_view(cfg.delete_scope), dest[i].relative_path) {
        let k = planner::law_extra_entries_are_deleted(cfg, source, dest, dest.len() as int, i);
        assert(planner::task_views(plan.deletes@)[k] == plan.deletes@[k]@);
    }
}

/// The report of a plan names every task once, under what is done to it, in the
/// order in which it is done: first what is created, then what is updated or
/// gets its attributes again, then what is skipped, then what is deleted.
pub proof fn law_reports_follow_the_plan(
    plan: SyncPlan,
    skipped: Seq<Seq<char>>,
    filter: FilterSet,
    i: int,
)
    requires
        i >= 0,
    ensures
        ({
            let r = plan_report(plan, skipped, filter);
            let a = plan.creates@.len() as int;
            let b = a + plan.updates@.len();
            let c = b + plan.meta@.len();
            let d = c + plan.skips@.len();
            &&& r.len() >= d
            &&& i < a ==> r[i].action == ItemizeAction::Create && r[i].path == wire::wire_text(
                plan.creates@[i]@.relative_path,
            )
            &&& a <= i < b ==> r[i].action == ItemizeAction::Update && r[i].path == wire::wire_text(
                plan.updates@[i - a]@.relative_path,
            )
            &&& b <= i < c ==> r[i].action == ItemizeAction::Update && r[i].path == wire::wire_text(
                plan.meta@[i - b]@.relative_path,
            )
            &&& c <= i < d ==> r[i].action == ItemizeAction::Skip && r[i].path == wire::wire_text(
                plan.skips@[i - c]@.relative_path,
            )
            &&& d <= i < r.len() ==> r[i].action == ItemizeAction::Delete
        }),
{
    let n = plan.deletes@.len() as int;
    let deletes = planner::task_views(plan.deletes@);
    let a = plan.creates@.len() as int;
    let b = a + plan.updates@.len();
    let c = b + plan.meta@.len();
    let d = c + plan.skips@.len();
    if d <= i < d + sender::delete_report(filter, skipped, deletes, n).len() {
        sender::law_reported_deletions_are_carried_out(filter, skipped, deletes, n, i - d);
    }
}

/// What a sender prepares carries out the whole plan: every directory is
/// created, every hard link and every link is announced, every task has its own
/// way, every file whose attributes drifted is named, and every path that may go
/// is deleted; signatures are asked for in groups of at most 32.
pub proof fn law_everything_planned_is_prepared(
    out: Outgoing,
    tasks: Seq<planner::TaskV>,
    meta: Seq<planner::TaskV>,
    deletes: Seq<planner::TaskV>,
    skipped: Seq<Seq<char>>,
    filter: FilterSet,
    archive: bool,
    i: int,
)
    requires
        out.follows(tasks, meta, deletes, skipped, filter, archive),
        i >= 0,
    ensures
        out.routes@.len() == tasks.len(),
        i < tasks.len() && tasks[i].is_dir ==> out.routes@[i] == Route::Directory
            && text::views(out.dirs@).contains(wire::wire_text(tasks[i].relative_path)),
        i < tasks.len() && !tasks[i].is_dir && tasks[i].link_target is Some ==> out.routes@[i]
            == Route::Link,
        i < tasks.len() && !tasks[i].is_dir && tasks[i].link_target is None && tasks[i].link_to
            is Some ==> out.routes@[i] == Route::HardLink && exists|k: int|
            0 <= k < out.links.hardlinks@.len() && (#[trigger] out.links.hardlinks@[k])@.0
                == wire::wire_text(tasks[i].relative_path) && Some(out.links.hardlinks@[k]@.1)
                == tasks[i].link_to,
        i < tasks.len() && tasks[i].link_to is None && tasks[i].action
            == planner::SyncAction::Update && tasks[i].source_size > 10_485_760 ==> text::views(
            out.signature_paths@,
        ).contains(wire::wire_text(tasks[i].relative_path)),
        out.attributes@.len() == meta.len(),
        i < meta.len() ==> out.attributes@[i]@ == wire::wire_text(meta[i].relative_path),
        i < deletes.len() && filter.lets_pass(wire::wire_text(deletes[i].relative_path)) && (forall|
            k: int,
        |
            0 <= k < skipped.len() ==> wire::wire_text(deletes[i].relative_path)
                != #[trigger] skipped[k] && !skipped[k].push('/').is_prefix_of(
                wire::wire_text(deletes[i].relative_path),
            )) ==> text::views(out.deletes@).contains(wire::wire_text(deletes[i].relative_path)),
        i < out.signature_groups@.len() ==> 0 <= out.signature_groups@[i].0
            < out.signature_groups@[i].1 <= out.signature_paths@.len()
            && out.signature_groups@[i].1 - out.signature_groups@[i].0 <= 32,
        out.signature_groups@.len() > 0 ==> out.signature_groups@[0].0 == 0
            && out.signature_groups@.last().1 == out.signature_paths@.len(),
        out.signature_paths@.len() > 0 ==> out.signature_groups@.len() > 0,
        out.files_total == tasks.filter(
            |t: planner::TaskV|
                !t.is_dir && t.link_target is None && t.link_to is None && t.special is None,
        ).len(),
{
    let n = tasks.len() as int;
    assert((|t: planner::TaskV| sender::has_content(t)) =~= (|t: planner::TaskV|
        !t.is_dir && t.link_target is None && t.link_to is None && t.special is None));
    if i < n {
        let bases = sender::bases_of(tasks);
        sender::law_routes_fit_the_file(
            tasks[i],
            archive,
            bases[i],
            sender::referenced(bases, wire::wire_text(tasks[i].relative_path)),
        );
        sender::law_directories_are_created(tasks, n, i, 0);
        sender::law_signatures_are_asked_for_deltas(tasks, n, i);
        if !tasks[i].is_dir && tasks[i].link_target is None && tasks[i].link_to is Some {
            let k = sender::law_hard_links_name_their_target(tasks, n, i);
            let sent = out.links.hardlinks@.map_values(|s: protocol::HardlinkSpec| s@);
            assert(sent[k] == out.links.hardlinks@[k]@);
        }
    }
    if i < meta.len() {
        sender::law_attributes_are_set_on_every_file(meta, i);
        assert(text::views(out.attributes@)[i] == out.attributes@[i]@);
    }
    assert(text::views(out.attributes@).len() == out.attributes@.len());
    if i < deletes.len() {
        let m = deletes.len() as int;
        let files = sender::going(filter, skipped, deletes, m, false);
        let dirs = sender::going(filter, skipped, deletes, m, true);
        let path = wire::wire_text(deletes[i].relative_path);
        sender::law_deletions_are_carried_out(filter, skipped, deletes, m, i);
        sender::lemma_delete_list_holds(filter, skipped, deletes, text::views(out.deletes@), path);
    }
}

/// New entries are sent before changed ones, each list in its order.
pub proof fn law_new_entries_are_sent_first(plan: SyncPlan, i: int)
    requires
        0 <= i < plan.creates@.len() + plan.updates@.len(),
    ensures
        plan_tasks(plan).len() == plan.creates@.len() + plan.updates@.len(),
        i < plan.creates@.len() ==> plan_tasks(plan)[i] == plan.creates@[i]@,
        i >= plan.creates@.len() ==> plan_tasks(plan)[i] == plan.updates@[i
            - plan.creates@.len()]@,
{
}

} // verus!
