//! The receiving side: what each frame is answered with, how a file is
//! applied, and what the final report says.
use vstd::prelude::*;

use crate::digest;
use crate::digest::ContentDigest;
use crate::executor::ExecutorOptions;
use crate::host;
use crate::order;
use crate::order::KeyIndex;
use crate::path;
use crate::protocol;
use crate::protocol::{
    Delta, ErrorV, FileKind, FileMeta, Frame, SessionError, SkippedFile, TargetOs,
};
use crate::scanner;
use crate::sender;
use crate::serve;
use crate::spans;
use crate::stats::SyncStats;
use crate::text;
use crate::transfer;
use crate::verify::SourceStat;
use crate::wire;

verus! {

/// The most chunks of a streamed file queued for writing.
pub const WRITE_QUEUE_DEPTH: usize = 32;

/// Why a file is not reported as applied although it was written.
pub open spec fn dest_changed() -> Seq<char> {
    "destination changed after apply; source not removed"@
}

/// The flags that matter for applying one file.
#[derive(Debug, Clone, Copy, PartialEq, Eq, Structural)]
pub struct ApplyCfg {
    /// Flush every file before it is renamed into place.
    pub fsync: bool,
    /// Keep the replaced file.
    pub backup: bool,
    /// Report a digest of everything applied.
    pub verify: bool,
    /// Apply modification times.
    pub preserve_times: bool,
    /// Apply owner and group.
    pub archive: bool,
    /// Write runs of zeros as holes.
    pub sparse: bool,
    /// Apply access times.
    pub preserve_atimes: bool,
    /// Apply extended attributes.
    pub xattrs: bool,
}

/// The receiving half of a sync.
#[derive(Debug, Clone)]
pub struct Receiver {
    /// The operating system that reads the paths.
    pub host: TargetOs,
    /// Where files are received, as a portable path.
    pub root: String,
    /// The flags for applying a file.
    pub cfg: ApplyCfg,
    /// Keep partial files when a transfer aborts.
    pub partial: bool,
    /// Refuse to delete more than this many files.
    pub max_delete: Option<u64>,
    /// Files applied at a time.
    pub apply_jobs: usize,
    /// Use fixed blocks for signatures.
    pub rollsum: bool,
}

impl Receiver {
    /// A receiver rooted at `root`. At least one file is applied at a time.
    pub fn new(
        host: TargetOs,
        root: &str,
        options: &ExecutorOptions,
        apply_jobs: usize,
        verify: bool,
    ) -> (r: Self)
        ensures
            r.host == host,
            r.root@ == root@,
            r.cfg.fsync == options.fsync,
            r.cfg.backup == options.backup,
            r.cfg.verify == verify,
            r.cfg.preserve_times == options.preserve_times,
            r.cfg.archive == options.archive,
            r.cfg.sparse == options.sparse,
            r.cfg.preserve_atimes == options.atimes,
            r.cfg.xattrs == options.xattrs,
            r.partial == options.partial,
            r.max_delete == options.max_delete,
            r.apply_jobs == if apply_jobs < 1 {
                1
            } else {
                apply_jobs
            },
            r.rollsum == options.rollsum,
    {
        let apply_jobs: usize = if apply_jobs < 1 {
            1
        } else {
            apply_jobs
        };
        Receiver {
            host,
            root: text::copy_str(root),
            cfg: ApplyCfg {
                fsync: options.fsync,
                backup: options.backup,
                verify,
                preserve_times: options.preserve_times,
                archive: options.archive,
                sparse: options.sparse,
                preserve_atimes: options.atimes,
                xattrs: options.xattrs,
            },
            partial: options.partial,
            max_delete: options.max_delete,
            apply_jobs,
            rollsum: options.rollsum,
        }
    }

    /// Where a path that the sender names lies. `parent_error` is what a look at
    /// its directory on disk found, if anything.
    pub fn safe_join(&self, rel: &str, parent_error: Option<String>) -> (r: Result<
        String,
        SessionError,
    >)
        ensures
            serve::result_view(r) == walked(
                self.host,
                self.root@,
                rel@,
                text::opt_view(parent_error),
            ),
    {
        let place = serve::sanitize_join(self.host, self.root.as_str(), rel);
        match (&place, parent_error) {
            (Ok(_), Some(why)) => Err(SessionError::Other(refuse(rel, why.as_str()))),
            _ => place,
        }
    }

    /// How the files of a batch are split among workers: at most four, which
    /// each take a run of files.
    pub fn batch_chunks(&self, count: usize) -> (chunks: Vec<(usize, usize)>)
        ensures
            spans::cuts(chunks@, count as int, batch_chunk(count as int, self.apply_jobs as int)),
    {
        let jobs: usize = if self.apply_jobs < 1 {
            1
        } else if self.apply_jobs > 4 {
            4
        } else {
            self.apply_jobs
        };
        let size: usize = spans::div_up(count, jobs);
        let size: usize = if size < 1 {
            1
        } else {
            size
        };
        spans::cut(count, size)
    }

    /// Refuse a request to delete more paths than the limit, as a whole.
    pub fn check_deletes(&self, count: usize) -> (r: Result<(), SessionError>)
        ensures
            r is Err <==> too_many(self.max_delete, count as int),
            match self.max_delete {
                Some(max) => if count > max {
                    r matches Err(e) && e@ == ErrorV::Other(
                        "Refusing to delete "@ + text::decimal_of(count as int)
                            + " files: limit is "@ + text::decimal_of(max as int)
                            + " (--max-delete)"@,
                    )
                } else {
                    r is Ok
                },
                None => r is Ok,
            },
    {
        match self.max_delete {
            Some(max) => {
                if count as u64 > max {
                    let mut m = text::copy_str("Refusing to delete ");
                    let n = text::decimal(count as u64);
                    text::push_text(&mut m, n.as_str());
                    text::push_text(&mut m, " files: limit is ");
                    let limit = text::decimal(max);
                    text::push_text(&mut m, limit.as_str());
                    text::push_text(&mut m, " (--max-delete)");
                    Err(SessionError::Other(m))
                } else {
                    Ok(())
                }
            },
            None => Ok(()),
        }
    }

    /// Whether a chunked file that was interrupted is kept: its path, and the
    /// size it is cut to.
    pub fn keep_partial(&self, state: &ApplyState) -> (r: Option<(String, u64)>)
        ensures
            match r {
                Some((p, n)) => partial_of(self.partial, state@.in_flight) == Some((p@, n as int)),
                None => partial_of(self.partial, state@.in_flight) is None,
            },
            match r {
                Some((p, n)) => self.partial && (state.in_flight matches Some(f) && !f.failed
                    && f.path@ == p@ && f.offset == n),
                None => !self.partial || state.in_flight is None || state.in_flight->0.failed,
            },
    {
        if !self.partial {
            return None;
        }
        match &state.in_flight {
            Some(f) => if f.failed {
                None
            } else {
                Some((text::copy_str(f.path.as_str()), f.offset))
            },
            None => None,
        }
    }
}

/// Whether a request deletes more paths than the limit.
pub open spec fn too_many(max: Option<u64>, count: int) -> bool {
    match max {
        Some(max) => count > max,
        None => false,
    }
}

/// The limit is what may just be deleted: one more is refused, as is every
/// larger number; without a limit nothing is.
pub proof fn law_the_limit_itself_may_be_deleted(max: u64, count: int)
    ensures
        !too_many(Some(max), max as int),
        too_many(Some(max), max + 1),
        count <= max ==> !too_many(Some(max), count),
        count > max ==> too_many(Some(max), count),
        !too_many(None, count),
{
}

/// The path and size under which an interrupted stream is kept, if it is.
pub open spec fn partial_of(partial: bool, f: Option<ChunkedV>) -> Option<(Seq<char>, int)> {
    match f {
        Some(f) => if partial && !f.failed {
            Some((f.path, f.offset))
        } else {
            None
        },
        None => None,
    }
}

/// An interrupted stream is kept under its own path, cut to the bytes that
/// arrived, exactly where that is wanted and it could be written.
pub proof fn law_partial_files_hold_what_arrived(f: ChunkedV)
    ensures
        partial_of(true, Some(f)) is Some <==> !f.failed,
        !f.failed ==> partial_of(true, Some(f)) == Some((f.path, f.offset)),
        partial_of(false, Some(f)) is None,
        partial_of(true, None) is None,
{
}

/// The number of files of a batch that one worker takes.
pub open spec fn batch_chunk(count: int, apply_jobs: int) -> int {
    let jobs = if apply_jobs < 1 {
        1
    } else if apply_jobs > 4 {
        4
    } else {
        apply_jobs
    };
    let size = spans::ceil_div(count, jobs);
    if size < 1 {
        1
    } else {
        size
    }
}

/// A streamed file that is being received.
#[derive(Debug)]
pub struct ChunkedFile {
    /// The identifier that its chunks carry.
    pub file_id: u64,
    /// Slash-separated path relative to the sync root.
    pub path: String,
    /// The announced size.
    pub size: u64,
    /// The bytes received.
    pub offset: u64,
    /// Whether it cannot be written: its chunks are dropped.
    pub failed: bool,
    /// The digest of the bytes received, in a run that verifies.
    pub content: ContentDigest,
}

/// The model of [`ChunkedFile`].
pub struct ChunkedV {
    pub file_id: u64,
    pub path: Seq<char>,
    pub size: u64,
    pub offset: int,
    pub failed: bool,
    pub content: Option<Seq<u8>>,
}

/// The model of an optional streamed file.
pub open spec fn chunked_view(f: Option<ChunkedFile>) -> Option<ChunkedV> {
    match f {
        Some(c) => Some(
            ChunkedV {
                file_id: c.file_id,
                path: c.path@,
                size: c.size,
                offset: c.offset as int,
                failed: c.failed,
                content: c.content@,
            },
        ),
        None => None,
    }
}

/// What applying one file came to.
#[derive(Debug)]
pub enum ApplyOutcome {
    /// Applied: the bytes written, the directory it is in, and the digest under
    /// the file's path when the run verifies.
    Applied(u64, String, Option<(String, [u8; 32])>),
    /// Skipped, and why.
    Skipped(String, String),
}

/// What a receiving run has applied so far.
#[derive(Debug)]
pub struct ApplyState {
    /// Content bytes applied.
    pub bytes_transferred: u64,
    /// Files, directories and links applied.
    pub files_received: u64,
    /// The directories that received a file.
    pub renamed_dirs: Vec<String>,
    /// The files that were skipped.
    pub skipped: Vec<SkippedFile>,
    /// The digests of the files applied.
    pub hashes: Vec<(String, [u8; 32])>,
    /// The streamed file that is being received.
    pub in_flight: Option<ChunkedFile>,
}

/// The model of [`ApplyState`].
pub struct ApplyV {
    pub bytes: int,
    pub files: int,
    pub dirs: Seq<Seq<char>>,
    pub skipped: Seq<(Seq<char>, Seq<char>)>,
    pub hashes: Seq<(Seq<char>, Seq<u8>)>,
    pub in_flight: Option<ChunkedV>,
}

impl View for ApplyState {
    type V = ApplyV;

    open spec fn view(&self) -> ApplyV {
        ApplyV {
            bytes: self.bytes_transferred as int,
            files: self.files_received as int,
            dirs: text::views(self.renamed_dirs@),
            skipped: transfer::skip_views(self.skipped@),
            hashes: transfer::sent_views(self.hashes@),
            in_flight: chunked_view(self.in_flight),
        }
    }
}

impl ApplyV {
    /// After a file was skipped.
    pub open spec fn skip(self, rel: Seq<char>, reason: Seq<char>) -> ApplyV {
        ApplyV { skipped: self.skipped.push((rel, reason)), ..self }
    }

    /// After a file was applied.
    pub open spec fn apply(
        self,
        bytes: u64,
        parent: Seq<char>,
        hash: Option<(Seq<char>, Seq<u8>)>,
    ) -> ApplyV {
        ApplyV {
            bytes: self.bytes + bytes,
            files: self.files + 1,
            dirs: self.dirs.push(parent),
            hashes: match hash {
                Some(h) => self.hashes.push(h),
                None => self.hashes,
            },
            ..self
        }
    }

    /// After one outcome.
    pub open spec fn fold(self, outcome: ApplyOutcome) -> ApplyV {
        match outcome {
            ApplyOutcome::Applied(bytes, parent, hash) => self.apply(
                bytes,
                parent@,
                match hash {
                    Some((rel, h)) => Some((rel@, h@)),
                    None => None,
                },
            ),
            ApplyOutcome::Skipped(rel, reason) => self.skip(rel@, reason@),
        }
    }

    /// After a directory was created.
    pub open spec fn made_dir(self, parent: Seq<char>) -> ApplyV {
        ApplyV { files: self.files + 1, dirs: self.dirs.push(parent), ..self }
    }

    /// After a link or special file was created.
    pub open spec fn made_link(self) -> ApplyV {
        ApplyV { files: self.files + 1, ..self }
    }
}

/// What to do with a chunk.
#[derive(Debug, Clone, Copy, PartialEq, Eq, Structural)]
pub enum ChunkAction {
    /// Write it.
    Write,
    /// Drop it: the file cannot be written.
    Drain,
}

/// The model of the start of a streamed file: only one at a time. `failure` is
/// why it cannot be written, if it cannot.
pub open spec fn started(
    s: ApplyV,
    file_id: u64,
    path: Seq<char>,
    size: u64,
    verify: bool,
    failure: Option<Seq<char>>,
) -> Result<ApplyV, ErrorV> {
    if s.in_flight is Some {
        Err(ErrorV::Other("FileStart while another file is in flight"@))
    } else {
        let base = match failure {
            Some(reason) => s.skip(path, reason),
            None => s,
        };
        Ok(
            ApplyV {
                in_flight: Some(
                    ChunkedV {
                        file_id,
                        path,
                        size,
                        offset: 0,
                        failed: failure is Some,
                        content: if verify {
                            Some(Seq::empty())
                        } else {
                            None
                        },
                    },
                ),
                ..base
            },
        )
    }
}

/// The model of a chunk: it must belong to the file in flight.
pub open spec fn chunk_of(s: ApplyV, file_id: u64, data: Seq<u8>) -> Result<
    (ApplyV, ChunkAction),
    ErrorV,
> {
    match s.in_flight {
        None => Err(ErrorV::Other("FileChunk without FileStart"@)),
        Some(f) => if f.file_id != file_id {
            Err(ErrorV::Other("FileChunk file_id mismatch"@))
        } else if f.failed {
            Ok((s, ChunkAction::Drain))
        } else {
            Ok(
                (
                    ApplyV {
                        in_flight: Some(
                            ChunkedV {
                                offset: f.offset + data.len(),
                                content: digest::taken(f.content, data),
                                ..f
                            },
                        ),
                        ..s
                    },
                    ChunkAction::Write,
                ),
            )
        },
    }
}

/// The model of the end of a streamed file: the file to commit, if there is
/// one.
pub open spec fn ended(s: ApplyV) -> Result<(ApplyV, Option<ChunkedV>), ErrorV> {
    match s.in_flight {
        None => Err(ErrorV::Other("FileEnd without FileStart"@)),
        Some(f) => Ok(
            (
                ApplyV { in_flight: None, ..s },
                if f.failed {
                    None
                } else {
                    Some(f)
                },
            ),
        ),
    }
}

/// The model of the commit of a streamed file.
pub open spec fn committed(
    s: ApplyV,
    file: ChunkedV,
    unchanged: bool,
    parent: Seq<char>,
) -> ApplyV {
    if unchanged {
        s.apply(
            file.offset as u64,
            parent,
            match file.content {
                Some(bytes) => Some((file.path, digest::blake3_of(bytes))),
                None => None,
            },
        )
    } else {
        s.skip(file.path, dest_changed())
    }
}

/// A streamed file arrives whole: announced, sent in any number of pieces and
/// ended, it is handed over for the commit under its own path with as many bytes
/// as the pieces hold. Committed, it counts once with these bytes, and a run
/// that verifies reports the digest of exactly these bytes; where the
/// destination changed meanwhile it is recorded as skipped and counts nothing.
pub proof fn law_streamed_files_arrive_whole(
    s: ApplyV,
    file_id: u64,
    path: Seq<char>,
    size: u64,
    verify: bool,
    data: Seq<Seq<u8>>,
    unchanged: bool,
    parent: Seq<char>,
)
    requires
        s.in_flight is None,
        digest::put_together(data).len() <= u64::MAX,
    ensures
        started(s, file_id, path, size, verify, None) is Ok,
        ({
            let begun = started(s, file_id, path, size, verify, None)->Ok_0;
            let last = after_chunks(begun, file_id, data, data.len() as int);
            &&& ended(last) is Ok
            &&& ended(last)->Ok_0.0 == s
            &&& ended(last)->Ok_0.1 is Some
            &&& {
                let file = ended(last)->Ok_0.1->0;
                let done = committed(ended(last)->Ok_0.0, file, unchanged, parent);
                &&& file.path == path && file.size == size && !file.failed
                &&& file.offset == digest::put_together(data).len()
                &&& unchanged ==> done.files == s.files + 1 && done.bytes == s.bytes
                    + digest::put_together(data).len() && done.skipped == s.skipped && done.dirs
                    == s.dirs.push(parent)
                &&& unchanged && verify ==> done.hashes == s.hashes.push(
                    (path, digest::blake3_of(digest::put_together(data))),
                )
                &&& unchanged && !verify ==> done.hashes == s.hashes
                &&& !unchanged ==> done.files == s.files && done.bytes == s.bytes && done.hashes
                    == s.hashes && done.skipped.len() == s.skipped.len() + 1
                    && done.skipped.last() == (
                    path,
                    "destination changed after apply; source not removed"@,
                )
                &&& done.in_flight is None
            }
        }),
{
    let begun = started(s, file_id, path, size, verify, None)->Ok_0;
    law_chunks_add_up(begun, file_id, data);
    assert(Seq::<u8>::empty() + digest::put_together(data) =~= digest::put_together(data));
}

/// Frames out of turn change nothing and end the session: a piece or an end
/// without a start, a piece of another file, a start while a file is in flight.
pub proof fn law_streams_keep_their_turn(
    s: ApplyV,
    file_id: u64,
    path: Seq<char>,
    size: u64,
    verify: bool,
    failure: Option<Seq<char>>,
    data: Seq<u8>,
)
    ensures
        s.in_flight is Some ==> started(s, file_id, path, size, verify, failure) is Err,
        s.in_flight is None ==> started(s, file_id, path, size, verify, failure) is Ok,
        s.in_flight is None ==> chunk_of(s, file_id, data) is Err && ended(s) is Err,
        s.in_flight is Some && s.in_flight->0.file_id != file_id ==> chunk_of(s, file_id, data)
            is Err,
        s.in_flight is Some && s.in_flight->0.file_id == file_id ==> chunk_of(s, file_id, data)
            is Ok && (chunk_of(s, file_id, data)->Ok_0.1 == ChunkAction::Write
            <==> !s.in_flight->0.failed),
{
}

/// What is counted for one outcome: an applied file once, with its bytes, its
/// directory and the digest that came with it; a skipped one not at all, but its
/// path and reason are recorded. Directories and links count as files without
/// bytes.
pub proof fn law_outcomes_are_counted(
    s: ApplyV,
    bytes: u64,
    parent: String,
    hash: Option<(String, [u8; 32])>,
    rel: String,
    reason: String,
)
    ensures
        ({
            let a = s.fold(ApplyOutcome::Applied(bytes, parent, hash));
            let k = s.fold(ApplyOutcome::Skipped(rel, reason));
            let d = s.made_dir(parent@);
            let l = s.made_link();
            &&& a.files == s.files + 1 && a.bytes == s.bytes + bytes && a.skipped == s.skipped
            &&& a.dirs == s.dirs.push(parent@)
            &&& hash is None ==> a.hashes == s.hashes
            &&& hash matches Some((k, v)) ==> a.hashes == s.hashes.push((k@, v@))
            &&& k.files == s.files && k.bytes == s.bytes && k.hashes == s.hashes && k.dirs
                == s.dirs
            &&& k.skipped == s.skipped.push((rel@, reason@))
            &&& d.files == s.files + 1 && d.bytes == s.bytes && d.dirs == s.dirs.push(parent@)
            &&& d.skipped == s.skipped && d.hashes == s.hashes
            &&& l.files == s.files + 1 && l.bytes == s.bytes && l.dirs == s.dirs && l.skipped
                == s.skipped && l.hashes == s.hashes
        }),
{
}

impl ApplyState {
    /// Nothing applied yet.
    pub fn new() -> (r: Self)
        ensures
            r@ == (ApplyV {
                bytes: 0,
                files: 0,
                dirs: Seq::empty(),
                skipped: Seq::empty(),
                hashes: Seq::empty(),
                in_flight: None,
            }),
    {
        let r = ApplyState {
            bytes_transferred: 0,
            files_received: 0,
            renamed_dirs: Vec::new(),
            skipped: Vec::new(),
            hashes: Vec::new(),
            in_flight: None,
        };
        proof {
            assert(r@.dirs =~= Seq::empty());
            assert(r@.skipped =~= Seq::empty());
            assert(r@.hashes =~= Seq::empty());
        }
        r
    }

    /// Report a file, directory or link as skipped.
    pub fn skip(&mut self, rel: String, reason: String)
        ensures
            final(self)@ == old(self)@.skip(rel@, reason@),
    {
        transfer::skip_file(rel, reason, &mut self.skipped);
    }

    /// Count a file that was applied.
    pub fn apply(&mut self, bytes: u64, parent: String, hash: Option<(String, [u8; 32])>)
        requires
            old(self)@.bytes + bytes <= u64::MAX,
            old(self)@.files < u64::MAX,
        ensures
            final(self)@ == old(self)@.apply(
                bytes,
                parent@,
                match hash {
                    Some((rel, h)) => Some((rel@, h@)),
                    None => None,
                },
            ),
    {
        let ghost was = *self;
        self.bytes_transferred += bytes;
        self.files_received += 1;
        self.renamed_dirs.push(parent);
        assert(text::views(self.renamed_dirs@) =~= text::views(was.renamed_dirs@).push(parent@));
        match hash {
            Some((rel, h)) => {
                self.hashes.push((rel, h));
                assert(transfer::sent_views(self.hashes@) =~= transfer::sent_views(
                    was.hashes@,
                ).push((rel@, h@)));
            },
            None => {},
        }
    }

    /// Take note of what applying one file came to.
    pub fn fold_outcome(&mut self, outcome: ApplyOutcome)
        requires
            outcome matches ApplyOutcome::Applied(bytes, ..) ==> old(self)@.bytes + bytes
                <= u64::MAX,
            old(self)@.files < u64::MAX,
        ensures
            final(self)@ == old(self)@.fold(outcome),
    {
        match outcome {
            ApplyOutcome::Applied(bytes, parent, hash) => self.apply(bytes, parent, hash),
            ApplyOutcome::Skipped(rel, reason) => self.skip(rel, reason),
        }
    }

    /// Count a directory that was created.
    pub fn made_dir(&mut self, parent: String)
        requires
            old(self)@.files < u64::MAX,
        ensures
            final(self)@ == old(self)@.made_dir(parent@),
    {
        let ghost was = *self;
        self.files_received += 1;
        self.renamed_dirs.push(parent);
        assert(text::views(self.renamed_dirs@) =~= text::views(was.renamed_dirs@).push(parent@));
    }

    /// Count a link or special file that was created.
    pub fn made_link(&mut self)
        requires
            old(self)@.files < u64::MAX,
        ensures
            final(self)@ == old(self)@.made_link(),
    {
        self.files_received += 1;
    }

    /// A streamed file begins. `failure` is why it cannot be written, if it
    /// cannot: it is reported as skipped, and its chunks will be dropped. A run
    /// that verifies follows the content.
    pub fn file_start(
        &mut self,
        file_id: u64,
        path: &str,
        size: u64,
        verify: bool,
        failure: Option<String>,
    ) -> (r: Result<(), SessionError>)
        ensures
            match started(old(self)@, file_id, path@, size, verify, text::opt_view(failure)) {
                Ok(s) => r is Ok && final(self)@ == s,
                Err(e) => r matches Err(f) && f@ == e && final(self)@ == old(self)@,
            },
    {
        if self.in_flight.is_some() {
            return Err(protocol::plain_error("FileStart while another file is in flight"));
        }
        let failed = failure.is_some();
        match failure {
            Some(reason) => {
                self.skip(text::copy_str(path), reason);
            },
            None => {},
        }
        self.in_flight = Some(
            ChunkedFile {
                file_id,
                path: text::copy_str(path),
                size,
                offset: 0,
                failed,
                content: ContentDigest::new(verify),
            },
        );
        Ok(())
    }

    /// A chunk of a streamed file arrived.
    pub fn file_chunk(&mut self, file_id: u64, data: &[u8]) -> (r: Result<ChunkAction, SessionError>)
        requires
            old(self)@.in_flight matches Some(f) ==> f.offset + data@.len() <= u64::MAX,
        ensures
            match chunk_of(old(self)@, file_id, data@) {
                Ok((s, action)) => r matches Ok(a) && a == action && final(self)@ == s,
                Err(e) => r matches Err(f) && f@ == e && final(self)@ == old(self)@,
            },
    {
        match &self.in_flight {
            None => {
                return Err(protocol::plain_error("FileChunk without FileStart"));
            },
            Some(f) => {
                if f.file_id != file_id {
                    return Err(protocol::plain_error("FileChunk file_id mismatch"));
                }
                if f.failed {
                    return Ok(ChunkAction::Drain);
                }
            },
        }
        match self.in_flight.take() {
            Some(f) => {
                let mut f = f;
                f.content.update(data);
                f.offset += data.len() as u64;
                self.in_flight = Some(f);
            },
            None => {},
        }
        Ok(ChunkAction::Write)
    }

    /// A streamed file ends: gives the file to commit, unless it could not be
    /// written.
    pub fn file_end(&mut self) -> (r: Result<Option<ChunkedFile>, SessionError>)
        ensures
            match ended(old(self)@) {
                Ok((s, commit)) => r matches Ok(c) && chunked_view(c) == commit && final(self)@
                    == s,
                Err(e) => r matches Err(f) && f@ == e && final(self)@ == old(self)@,
            },
    {
        match self.in_flight.take() {
            None => Err(protocol::plain_error("FileEnd without FileStart")),
            Some(f) => if f.failed {
                Ok(None)
            } else {
                Ok(Some(f))
            },
        }
    }

    /// A streamed file was committed. When the destination did not stay as it
    /// was applied, the file is reported as skipped instead: its source must
    /// not be removed. In a run that verifies, the file is reported under the
    /// digest of the bytes received.
    pub fn file_committed(&mut self, file: ChunkedFile, unchanged: bool, parent: String)
        requires
            old(self)@.bytes + file.offset <= u64::MAX,
            old(self)@.files < u64::MAX,
        ensures
            final(self)@ == committed(
                old(self)@,
                chunked_view(Some(file))->0,
                unchanged,
                parent@,
            ),
            final(self)@ == if unchanged {
                old(self)@.apply(
                    file.offset,
                    parent@,
                    match file.content@ {
                        Some(bytes) => Some((file.path@, digest::blake3_of(bytes))),
                        None => None,
                    },
                )
            } else {
                old(self)@.skip(file.path@, dest_changed())
            },
    {
        if unchanged {
            let hash = if file.content.is_wanted() {
                let h = file.content.finalize();
                Some((file.path, h))
            } else {
                None
            };
            self.apply(file.offset, parent, hash);
        } else {
            self.skip(
                file.path,
                text::copy_str("destination changed after apply; source not removed"),
            );
        }
    }
}

/// What a frame asks the receiver for.
#[derive(Debug, Clone, Copy, PartialEq, Eq, Structural)]
pub enum Handling {
    /// Apply one file.
    Recipe,
    /// Apply many small files.
    Batch,
    /// Begin a streamed file.
    FileStart,
    /// Append to a streamed file.
    FileChunk,
    /// Complete a streamed file.
    FileEnd,
    /// Answer with signatures.
    Signatures,
    /// Create directories.
    Directories,
    /// Create links and special files.
    Links,
    /// Re-apply attributes.
    Attributes,
    /// Delete paths.
    Deletes,
    /// Report and stop.
    Done,
}

/// What a frame asks the receiver for.
pub open spec fn handling_of(frame: Frame) -> Option<Handling> {
    match frame {
        Frame::DeltaRecipe { .. } => Some(Handling::Recipe),
        Frame::Batch { .. } => Some(Handling::Batch),
        Frame::FileStart { .. } => Some(Handling::FileStart),
        Frame::FileChunk { .. } => Some(Handling::FileChunk),
        Frame::FileEnd { .. } => Some(Handling::FileEnd),
        Frame::SignatureRequest { .. } => Some(Handling::Signatures),
        Frame::MakeDir { .. } => Some(Handling::Directories),
        Frame::CreateLinks { .. } => Some(Handling::Links),
        Frame::SetMeta { .. } => Some(Handling::Attributes),
        Frame::DeleteRequest { .. } => Some(Handling::Deletes),
        Frame::Done { .. } => Some(Handling::Done),
        _ => None,
    }
}

/// Decide what a frame asks for, and give the frame back. A failure that the
/// peer reports and a frame that has no place here end the session.
pub fn dispatch(frame: Frame) -> (r: Result<(Handling, Frame), SessionError>)
    ensures
        match handling_of(frame) {
            Some(h) => r == Ok::<(Handling, Frame), SessionError>((h, frame)),
            None => match frame {
                Frame::Error { message } => r matches Err(e) && e@ == ErrorV::Other(
                    "Peer error: "@ + message@,
                ),
                _ => r matches Err(e) && e@ == ErrorV::Unexpected(
                    "Unexpected frame in apply loop: "@,
                    frame,
                ),
            },
        },
{
    let handling = match &frame {
        Frame::DeltaRecipe { .. } => Handling::Recipe,
        Frame::Batch { .. } => Handling::Batch,
        Frame::FileStart { .. } => Handling::FileStart,
        Frame::FileChunk { .. } => Handling::FileChunk,
        Frame::FileEnd { .. } => Handling::FileEnd,
        Frame::SignatureRequest { .. } => Handling::Signatures,
        Frame::MakeDir { .. } => Handling::Directories,
        Frame::CreateLinks { .. } => Handling::Links,
        Frame::SetMeta { .. } => Handling::Attributes,
        Frame::DeleteRequest { .. } => Handling::Deletes,
        Frame::Done { .. } => Handling::Done,
        Frame::Error { message } => {
            return Err(protocol::error_of("Peer error: ", message.as_str()));
        },
        _ => {
            return Err(protocol::unexpected("Unexpected frame in apply loop: ", frame));
        },
    };
    Ok((handling, frame))
}

/// Whether every file in flight must be applied first: links need their
/// targets, deletions a settled tree, and the report everything.
pub open spec fn settles_first(h: Handling) -> bool {
    h == Handling::Links || h == Handling::Deletes || h == Handling::Done
}

/// Every frame of a sender has its own answer, and no other frame has one: what
/// is asked for is done, and only links, deletions and the final report wait for
/// the files in flight.
pub proof fn law_frames_get_their_own_answer(frame: Frame)
    ensures
        frame is DeltaRecipe <==> handling_of(frame) == Some(Handling::Recipe),
        frame is Batch <==> handling_of(frame) == Some(Handling::Batch),
        frame is FileStart <==> handling_of(frame) == Some(Handling::FileStart),
        frame is FileChunk <==> handling_of(frame) == Some(Handling::FileChunk),
        frame is FileEnd <==> handling_of(frame) == Some(Handling::FileEnd),
        frame is SignatureRequest <==> handling_of(frame) == Some(Handling::Signatures),
        frame is MakeDir <==> handling_of(frame) == Some(Handling::Directories),
        frame is CreateLinks <==> handling_of(frame) == Some(Handling::Links),
        frame is SetMeta <==> handling_of(frame) == Some(Handling::Attributes),
        frame is DeleteRequest <==> handling_of(frame) == Some(Handling::Deletes),
        frame is Done <==> handling_of(frame) == Some(Handling::Done),
        handling_of(frame) is Some ==> (settles_first(handling_of(frame)->0) <==> (frame
            is CreateLinks || frame is DeleteRequest || frame is Done)),
{
}

/// Whether every file in flight must be applied first.
pub fn drains_first(h: Handling) -> (r: bool)
    ensures
        r == settles_first(h),
{
    match h {
        Handling::Links | Handling::Deletes | Handling::Done => true,
        _ => false,
    }
}

/// The bytes of a streamed file are counted and digested exactly: after its
/// start and any number of its chunks, the file in flight has received as many
/// bytes as they hold, and the content followed is the chunks put together.
pub proof fn law_chunks_add_up(s: ApplyV, file_id: u64, data: Seq<Seq<u8>>)
    requires
        s.in_flight matches Some(f) && f.file_id == file_id && !f.failed,
    ensures
        after_chunks(s, file_id, data, data.len() as int) == (ApplyV {
            in_flight: Some(
                ChunkedV {
                    offset: s.in_flight->0.offset + digest::put_together(data).len(),
                    content: digest::taken(s.in_flight->0.content, digest::put_together(data)),
                    ..s.in_flight->0
                },
            ),
            ..s
        }),
{
    lemma_chunks_add_up(s, file_id, data, data.len() as int);
    assert(data.take(data.len() as int) =~= data);
}

proof fn lemma_chunks_add_up(s: ApplyV, file_id: u64, data: Seq<Seq<u8>>, n: int)
    requires
        s.in_flight matches Some(f) && f.file_id == file_id && !f.failed,
        0 <= n <= data.len(),
    ensures
        after_chunks(s, file_id, data, n) == (ApplyV {
            in_flight: Some(
                ChunkedV {
                    offset: s.in_flight->0.offset + digest::put_together(data.take(n)).len(),
                    content: digest::taken(
                        s.in_flight->0.content,
                        digest::put_together(data.take(n)),
                    ),
                    ..s.in_flight->0
                },
            ),
            ..s
        }),
    decreases n,
{
    let before = s.in_flight->0.content;
    if n > 0 {
        lemma_chunks_add_up(s, file_id, data, n - 1);
        assert(data.take(n).drop_last() =~= data.take(n - 1));
        assert(data.take(n).last() == data[n - 1]);
        if before is Some {
            assert(before->0 + digest::put_together(data.take(n - 1)) + data[n - 1] =~= before->0
                + (digest::put_together(data.take(n - 1)) + data[n - 1]));
        }
    } else {
        assert(data.take(0) =~= Seq::empty());
        if before is Some {
            assert(before->0 + Seq::<u8>::empty() =~= before->0);
        }
    }
}

/// The state after the first `n` chunks.
pub open spec fn after_chunks(s: ApplyV, file_id: u64, data: Seq<Seq<u8>>, n: int) -> ApplyV
    decreases n,
{
    if n <= 0 {
        s
    } else {
        let before = after_chunks(s, file_id, data, n - 1);
        match chunk_of(before, file_id, data[n - 1]) {
            Ok((after, _)) => after,
            Err(_) => before,
        }
    }
}

/// A file that could not be written is reported once, at its start: its chunks
/// and its end change no count and commit nothing.
pub proof fn law_failed_files_are_drained(
    s: ApplyV,
    file_id: u64,
    path: Seq<char>,
    size: u64,
    verify: bool,
    reason: Seq<char>,
    data: Seq<u8>,
)
    requires
        s.in_flight is None,
    ensures
        ({
            let begun = started(s, file_id, path, size, verify, Some(reason))->Ok_0;
            &&& started(s, file_id, path, size, verify, Some(reason)) is Ok
            &&& begun.skipped == s.skipped.push((path, reason))
            &&& chunk_of(begun, file_id, data) == Ok::<(ApplyV, ChunkAction), ErrorV>(
                (begun, ChunkAction::Drain),
            )
            &&& ended(begun)->Ok_0.1 is None
            &&& ended(begun)->Ok_0.0 == s.skip(path, reason)
        }),
{
}

/// The directory part of a path, when it has one, as it is written.
pub open spec fn parent_part(os: TargetOs, rel: Seq<char>) -> Option<Seq<char>> {
    let q = host::portable(os, rel);
    match host::parent_of(os, q) {
        Some(dir) => if dir.len() > 0 {
            Some(rel.take(dir.len() - (q.len() - rel.len())))
        } else {
            None
        },
        None => None,
    }
}

/// The directory part of a path, when it has one.
fn directory_part(os: TargetOs, rel: &str) -> (out: Option<String>)
    ensures
        text::opt_view(out) == parent_part(os, rel@),
{
    let q = host::to_portable(os, rel);
    match host::parent(os, q.as_str()) {
        Some(dir) => {
            let d = text::chars_of(dir.as_str());
            let x = text::chars_of(rel);
            let y = text::chars_of(q.as_str());
            proof {
                host::lemma_parent_fits(os, rel@);
            }
            if d.len() > 0 {
                let out = text::string_of(&x, 0, d.len() - (y.len() - x.len()));
                assert(out@ =~= parent_part(os, rel@)->0);
                Some(out)
            } else {
                None
            }
        },
        None => None,
    }
}

/// The text of a refusal.
pub open spec fn refusal_text(p: Seq<char>, why: Seq<char>) -> Seq<char> {
    "Unsafe path '"@ + p + "': "@ + why
}

/// Where a path that the sender names lies, or why it is refused: it must stay
/// below the root, and the look at its directory must have found nothing.
pub open spec fn walked(os: TargetOs, root: Seq<char>,
    rel: Seq<char>,
    parent_error: Option<Seq<char>>,
) -> Result<Seq<char>, ErrorV> {
    match (serve::sanitized(os, root, rel), parent_error) {
        (Ok(_), Some(why)) => Err(ErrorV::Other(refusal_text(rel, why))),
        (place, _) => place,
    }
}

/// Why a path is refused.
fn refuse(rel: &str, why: &str) -> (m: String)
    ensures
        m@ == refusal_text(rel@, why@),
{
    let mut m = text::copy_str("Unsafe path '");
    text::push_text(&mut m, rel);
    text::push_text(&mut m, "': ");
    text::push_text(&mut m, why);
    m
}

/// Where a file of a batch goes, or why it is skipped: first its directory must
/// be acceptable, then its whole path. `parent_error` is what a look at the
/// directory on disk found, if anything.
pub open spec fn admission(os: TargetOs, root: Seq<char>,
    rel: Seq<char>,
    parent_error: Option<Seq<char>>,
) -> Result<Seq<char>, Seq<char>> {
    let whole = match serve::below(os, root, rel) {
        Ok(p) => Ok(p),
        Err(why) => Err(refusal_text(rel, why)),
    };
    match parent_part(os, rel) {
        None => whole,
        Some(dir) => match serve::below(os, root, dir) {
            Err(why) => Err(refusal_text(dir, why)),
            Ok(_) => match parent_error {
                Some(why) => Err(refusal_text(dir, why)),
                None => whole,
            },
        },
    }
}

/// Decide where a received file goes, or why it is refused. In a batch one bad
/// path skips that file, and the rest of the batch is applied.
pub fn place_file(
    os: TargetOs,
    root: &str,
    rel: &str,
    parent_error: Option<String>,
) -> (r: Result<String, String>)
    ensures
        match admission(os, root@, rel@, text::opt_view(parent_error)) {
            Ok(p) => r matches Ok(q) && q@ == p,
            Err(why) => r matches Err(m) && m@ == why,
        },
{
    match directory_part(os, rel) {
        Some(dir) => {
            match serve::join_below(os, root, dir.as_str()) {
                Err(why) => {
                    return Err(refuse(dir.as_str(), why));
                },
                Ok(_) => {},
            }
            match parent_error {
                Some(why) => {
                    return Err(refuse(dir.as_str(), why.as_str()));
                },
                None => {},
            }
        },
        None => {},
    }
    match serve::join_below(os, root, rel) {
        Ok(p) => Ok(p),
        Err(why) => Err(refuse(rel, why)),
    }
}

/// The places of the files of a batch that are let in, among the first `n`:
/// each with its position.
pub open spec fn placed_files(os: TargetOs, root: Seq<char>,
    rels: Seq<Seq<char>>,
    parent_errors: Seq<Option<Seq<char>>>,
    n: int,
) -> Seq<(int, Seq<char>)>
    decreases n,
{
    if n <= 0 {
        Seq::empty()
    } else {
        let front = placed_files(os, root, rels, parent_errors, n - 1);
        match admission(os, root, rels[n - 1], parent_errors[n - 1]) {
            Ok(p) => front.push((n - 1, p)),
            Err(_) => front,
        }
    }
}

/// The files of a batch that are skipped, among the first `n`, and why.
pub open spec fn refused_files(os: TargetOs, root: Seq<char>,
    rels: Seq<Seq<char>>,
    parent_errors: Seq<Option<Seq<char>>>,
    n: int,
) -> Seq<(Seq<char>, Seq<char>)>
    decreases n,
{
    if n <= 0 {
        Seq::empty()
    } else {
        let front = refused_files(os, root, rels, parent_errors, n - 1);
        match admission(os, root, rels[n - 1], parent_errors[n - 1]) {
            Ok(_) => front,
            Err(why) => front.push((rels[n - 1], why)),
        }
    }
}

/// The model of a list of placed files.
pub open spec fn place_views(v: Seq<(usize, String)>) -> Seq<(int, Seq<char>)> {
    v.map_values(|p: (usize, String)| (p.0 as int, p.1@))
}

/// Decide where the files of a batch go, and which are skipped.
/// `parent_errors` tells for each file what a look at its directory on disk
/// found, if anything.
pub fn place_batch(
    os: TargetOs,
    root: &str,
    rels: &Vec<String>,
    parent_errors: &Vec<Option<String>>,
) -> (r: (
    Vec<(usize, String)>,
    Vec<SkippedFile>,
))
    requires
        rels.len() == parent_errors.len(),
    ensures
        place_views(r.0@) == placed_files(os, root@,
            text::views(rels@),
            sender::opt_views(parent_errors@),
            rels.len() as int,
        ),
        transfer::skip_views(r.1@) == refused_files(os, root@,
            text::views(rels@),
            sender::opt_views(parent_errors@),
            rels.len() as int,
        ),
{
    let ghost rv = text::views(rels@);
    let ghost ev = sender::opt_views(parent_errors@);
    let mut places: Vec<(usize, String)> = Vec::new();
    let mut skipped: Vec<SkippedFile> = Vec::new();
    let mut i: usize = 0;
    proof {
        assert(place_views(places@) =~= Seq::empty());
        assert(transfer::skip_views(skipped@) =~= Seq::empty());
    }
    while i < rels.len()
        invariant
            i <= rels.len(),
            rels.len() == parent_errors.len(),
            rv == text::views(rels@),
            ev == sender::opt_views(parent_errors@),
            place_views(places@) == placed_files(os, root@, rv, ev, i as int),
            transfer::skip_views(skipped@) == refused_files(os, root@, rv, ev, i as int),
        decreases rels.len() - i,
    {
        assert(rv[i as int] == rels@[i as int]@);
        assert(ev[i as int] == text::opt_view(parent_errors@[i as int]));
        let parent_error = protocol::copy_opt(&parent_errors[i]);
        match place_file(os, root, rels[i].as_str(), parent_error) {
            Ok(p) => {
                let ghost was = places@;
                places.push((i, p));
                assert(place_views(places@) =~= place_views(was).push((i as int, p@)));
            },
            Err(why) => {
                transfer::skip_file(text::copy_str(rels[i].as_str()), why, &mut skipped);
            },
        }
        i += 1;
    }
    (places, skipped)
}

/// One bad path costs one file: every file of a batch is either placed or
/// reported, never both and never neither.
pub proof fn law_batches_lose_no_file(os: TargetOs, root: Seq<char>,
    rels: Seq<Seq<char>>,
    parent_errors: Seq<Option<Seq<char>>>,
    n: int,
)
    requires
        n >= 0,
    ensures
        placed_files(os, root, rels, parent_errors, n).len() + refused_files(os, root,
            rels,
            parent_errors,
            n,
        ).len() == n,
    decreases n,
{
    if n > 0 {
        law_batches_lose_no_file(os, root, rels, parent_errors, n - 1);
    }
}

/// A file of a batch that is let in lies below the root.
pub proof fn law_admitted_files_stay_inside(os: TargetOs, root: Seq<char>,
    rel: Seq<char>,
    parent_error: Option<Seq<char>>,
)
    requires
        admission(os, root, rel, parent_error) is Ok,
    ensures
        path::under(admission(os, root, rel, parent_error)->Ok_0, root),
{
    serve::law_sanitized_paths_stay_inside(os, root, rel);
}

/// A path that the sender names and that is not refused stays below the root.
pub proof fn law_joined_paths_stay_inside(os: TargetOs, root: Seq<char>,
    rel: Seq<char>,
    parent_error: Option<Seq<char>>,
)
    requires
        walked(os, root, rel, parent_error) is Ok,
    ensures
        parent_error is None,
        path::under(walked(os, root, rel, parent_error)->Ok_0, root),
{
    serve::law_sanitized_paths_stay_inside(os, root, rel);
}

/// Every file of a batch whose path is safe and whose directory was found good is
/// placed at its own position, at the names of its path below the root; every
/// other one is reported under its own path.
pub proof fn law_safe_files_are_placed(
    os: TargetOs,
    root: Seq<char>,
    rels: Seq<Seq<char>>,
    parent_errors: Seq<Option<Seq<char>>>,
    n: int,
    i: int,
)
    requires
        0 <= i < n <= rels.len(),
    ensures
        admission(os, root, rels[i], parent_errors[i]) is Ok ==> placed_files(
            os,
            root,
            rels,
            parent_errors,
            n,
        ).contains((i, admission(os, root, rels[i], parent_errors[i])->Ok_0)),
        admission(os, root, rels[i], parent_errors[i]) is Err ==> refused_files(
            os,
            root,
            rels,
            parent_errors,
            n,
        ).contains((rels[i], admission(os, root, rels[i], parent_errors[i])->Err_0)),
        admission(os, root, rels[i], parent_errors[i]) is Ok ==> path::comps(
            admission(os, root, rels[i], parent_errors[i])->Ok_0,
        ) == path::comps(root) + serve::names_of(host::portable(os, rels[i])),
    decreases n,
{
    let placed = placed_files(os, root, rels, parent_errors, n);
    let refused = refused_files(os, root, rels, parent_errors, n);
    if i == n - 1 {
        match admission(os, root, rels[i], parent_errors[i]) {
            Ok(p) => {
                assert(placed.last() == (i, p));
                serve::law_sanitized_paths_stay_inside(os, root, rels[i]);
            },
            Err(why) => {
                assert(refused.last() == (rels[i], why));
            },
        }
    } else {
        law_safe_files_are_placed(os, root, rels, parent_errors, n - 1, i);
        let was_placed = placed_files(os, root, rels, parent_errors, n - 1);
        let was_refused = refused_files(os, root, rels, parent_errors, n - 1);
        match admission(os, root, rels[i], parent_errors[i]) {
            Ok(p) => {
                let k = choose|k: int| 0 <= k < was_placed.len() && was_placed[k] == (i, p);
                assert(placed[k] == (i, p));
            },
            Err(why) => {
                let k = choose|k: int|
                    0 <= k < was_refused.len() && was_refused[k] == (rels[i], why);
                assert(refused[k] == (rels[i], why));
            },
        }
    }
}

/// What applying one recipe takes.
#[derive(Debug, Clone, Copy, PartialEq, Eq, Structural)]
pub struct RecipePlan {
    /// Open the basis file.
    pub open_basis: bool,
    /// Compute a digest of what is written.
    pub need_hash: bool,
    /// Flush the file before it is renamed into place.
    pub fsync: bool,
    /// Keep the replaced file.
    pub backup: bool,
    /// Look at the destination again after its metadata was applied.
    pub recheck: bool,
    /// Remember the signature that came with the recipe.
    pub cache_signature: bool,
}

/// What applying a recipe takes.
pub open spec fn recipe_plan(
    delta: Delta,
    has_meta: bool,
    has_signature: bool,
    cfg: ApplyCfg,
) -> RecipePlan {
    RecipePlan {
        open_basis: delta.basis_size > 0,
        need_hash: delta.checksum is Some || cfg.verify,
        fsync: cfg.fsync || cfg.verify,
        backup: cfg.backup,
        recheck: has_meta && cfg.verify,
        cache_signature: has_signature && has_meta && cfg.preserve_times,
    }
}

/// Decide what applying one recipe takes. A digest is needed when the sender
/// computed one or the run verifies; a run that verifies makes every file
/// durable; a signature is remembered only under the times it will have.
pub fn plan_recipe(delta: &Delta, has_meta: bool, has_signature: bool, cfg: ApplyCfg) -> (r:
    RecipePlan)
    ensures
        r == recipe_plan(*delta, has_meta, has_signature, cfg),
        r.open_basis == (delta.basis_size > 0),
        r.need_hash == (delta.checksum is Some || cfg.verify),
        r.fsync == (cfg.fsync || cfg.verify),
        r.backup == cfg.backup,
        r.recheck == (has_meta && cfg.verify),
        r.cache_signature == (has_signature && has_meta && cfg.preserve_times),
{
    let (fsync, backup) = commit_flags(cfg);
    RecipePlan {
        open_basis: delta.basis_size > 0,
        need_hash: delta.checksum.is_some() || cfg.verify,
        fsync,
        backup,
        recheck: has_meta && cfg.verify,
        cache_signature: has_signature && has_meta && cfg.preserve_times,
    }
}

/// What is done next to apply one recipe.
#[derive(Debug, Clone, Copy, PartialEq, Eq, Structural)]
pub enum RecipeStep {
    /// Open the basis file.
    OpenBasis,
    /// Create the staged file.
    Stage,
    /// Write the content, and compare its digest with the sender's.
    Write,
    /// Put the staged file in its place.
    Commit,
    /// Apply the source's attributes.
    ApplyMeta,
    /// Look at the destination again.
    Recheck,
    /// Remember the signature that came with the recipe.
    CacheSignature,
    /// The file is applied.
    Applied,
    /// The file is skipped.
    Skipped,
}

/// The step behind the look at the destination.
pub open spec fn after_recheck(plan: RecipePlan) -> RecipeStep {
    if plan.cache_signature {
        RecipeStep::CacheSignature
    } else {
        RecipeStep::Applied
    }
}

/// The step that follows when `step` went well or not. Whatever fails skips
/// the file, but for remembering a signature.
pub open spec fn recipe_step_after(
    step: RecipeStep,
    ok: bool,
    plan: RecipePlan,
    has_meta: bool,
) -> RecipeStep {
    if !ok && step != RecipeStep::CacheSignature && step != RecipeStep::Applied {
        RecipeStep::Skipped
    } else {
        match step {
            RecipeStep::OpenBasis => RecipeStep::Stage,
            RecipeStep::Stage => RecipeStep::Write,
            RecipeStep::Write => RecipeStep::Commit,
            RecipeStep::Commit => if has_meta {
                RecipeStep::ApplyMeta
            } else {
                RecipeStep::Applied
            },
            RecipeStep::ApplyMeta => if plan.recheck {
                RecipeStep::Recheck
            } else {
                after_recheck(plan)
            },
            RecipeStep::Recheck => after_recheck(plan),
            RecipeStep::CacheSignature => RecipeStep::Applied,
            RecipeStep::Applied => RecipeStep::Applied,
            RecipeStep::Skipped => RecipeStep::Skipped,
        }
    }
}

/// The first step of applying a recipe.
pub open spec fn recipe_start(plan: RecipePlan) -> RecipeStep {
    if plan.open_basis {
        RecipeStep::OpenBasis
    } else {
        RecipeStep::Stage
    }
}

/// The first step of applying a recipe.
pub fn first_recipe_step(plan: RecipePlan) -> (r: RecipeStep)
    ensures
        r == recipe_start(plan),
        r == if plan.open_basis {
            RecipeStep::OpenBasis
        } else {
            RecipeStep::Stage
        },
{
    if plan.open_basis {
        RecipeStep::OpenBasis
    } else {
        RecipeStep::Stage
    }
}

/// The step that follows.
pub fn next_recipe_step(step: RecipeStep, ok: bool, plan: RecipePlan, has_meta: bool) -> (r:
    RecipeStep)
    ensures
        r == recipe_step_after(step, ok, plan, has_meta),
{
    let last = if plan.cache_signature {
        RecipeStep::CacheSignature
    } else {
        RecipeStep::Applied
    };
    match step {
        RecipeStep::CacheSignature | RecipeStep::Applied => RecipeStep::Applied,
        RecipeStep::Skipped => RecipeStep::Skipped,
        _ => {
            if !ok {
                return RecipeStep::Skipped;
            }
            match step {
                RecipeStep::OpenBasis => RecipeStep::Stage,
                RecipeStep::Stage => RecipeStep::Write,
                RecipeStep::Write => RecipeStep::Commit,
                RecipeStep::Commit => if has_meta {
                    RecipeStep::ApplyMeta
                } else {
                    RecipeStep::Applied
                },
                RecipeStep::ApplyMeta => if plan.recheck {
                    RecipeStep::Recheck
                } else {
                    last
                },
                _ => last,
            }
        },
    }
}

/// The place of a step.
pub open spec fn step_rank(step: RecipeStep) -> int {
    match step {
        RecipeStep::OpenBasis => 0,
        RecipeStep::Stage => 1,
        RecipeStep::Write => 2,
        RecipeStep::Commit => 3,
        RecipeStep::ApplyMeta => 4,
        RecipeStep::Recheck => 5,
        RecipeStep::CacheSignature => 6,
        RecipeStep::Applied => 7,
        RecipeStep::Skipped => 7,
    }
}

/// Applying a recipe ends: every step leads to a later one. Nothing is put in
/// its place but content that was written and whose digest agrees, and a
/// signature is remembered only of a file that is still as it was applied.
pub proof fn law_only_checked_content_is_committed(
    step: RecipeStep,
    ok: bool,
    plan: RecipePlan,
    has_meta: bool,
)
    requires
        step != RecipeStep::Applied,
        step != RecipeStep::Skipped,
    ensures
        ({
            let next = recipe_step_after(step, ok, plan, has_meta);
            &&& step_rank(step) < step_rank(next)
            &&& next == RecipeStep::Commit ==> step == RecipeStep::Write && ok
            &&& next == RecipeStep::CacheSignature ==> plan.cache_signature && ok && (step
                == RecipeStep::Recheck || (step == RecipeStep::ApplyMeta && !plan.recheck))
            &&& next == RecipeStep::Applied ==> step_rank(step) >= step_rank(RecipeStep::Commit)
        }),
{
}

/// The step that a run of a recipe has reached after `n` steps, where step `k`
/// went well if `ok(k)`.
pub open spec fn recipe_run(
    plan: RecipePlan,
    has_meta: bool,
    ok: spec_fn(int) -> bool,
    n: int,
) -> RecipeStep
    decreases n,
{
    if n <= 0 {
        recipe_start(plan)
    } else {
        recipe_step_after(recipe_run(plan, has_meta, ok, n - 1), ok(n - 1), plan, has_meta)
    }
}

/// A recipe whose steps all go well is applied: a file that has a basis opens it
/// first; then, with or without one, the content is staged, written and put in
/// its place, in this order; attributes follow where they are known, and a run
/// that verifies looks at the file again.
pub proof fn law_good_recipes_are_applied(
    delta: Delta,
    has_meta: bool,
    has_signature: bool,
    cfg: ApplyCfg,
    ok: spec_fn(int) -> bool,
)
    requires
        forall|k: int| #[trigger] ok(k),
    ensures
        ({
            let plan = recipe_plan(delta, has_meta, has_signature, cfg);
            let from = if delta.basis_size > 0 {
                1int
            } else {
                0int
            };
            &&& from == 1 ==> recipe_run(plan, has_meta, ok, 0) == RecipeStep::OpenBasis
            &&& recipe_run(plan, has_meta, ok, from) == RecipeStep::Stage
            &&& recipe_run(plan, has_meta, ok, from + 1) == RecipeStep::Write
            &&& recipe_run(plan, has_meta, ok, from + 2) == RecipeStep::Commit
            &&& has_meta ==> recipe_run(plan, has_meta, ok, from + 3) == RecipeStep::ApplyMeta
            &&& !has_meta ==> recipe_run(plan, has_meta, ok, from + 3) == RecipeStep::Applied
            &&& has_meta && cfg.verify ==> recipe_run(plan, has_meta, ok, from + 4)
                == RecipeStep::Recheck
            &&& has_meta && has_signature && cfg.preserve_times ==> recipe_run(
                plan,
                has_meta,
                ok,
                if cfg.verify {
                    from + 5
                } else {
                    from + 4
                },
            ) == RecipeStep::CacheSignature
            &&& recipe_run(plan, has_meta, ok, 7) == RecipeStep::Applied
        }),
{
    reveal_with_fuel(recipe_run, 8);
    assert(ok(0) && ok(1) && ok(2) && ok(3) && ok(4) && ok(5) && ok(6));
}

/// A step that goes well never skips the file, and one that does not always does,
/// but for remembering a signature; what is applied or skipped stays so.
pub proof fn law_only_failures_skip(
    step: RecipeStep,
    ok: bool,
    plan: RecipePlan,
    has_meta: bool,
)
    ensures
        ok && step != RecipeStep::Skipped ==> recipe_step_after(step, ok, plan, has_meta)
            != RecipeStep::Skipped,
        !ok && step != RecipeStep::Applied && step != RecipeStep::CacheSignature
            ==> recipe_step_after(step, ok, plan, has_meta) == RecipeStep::Skipped,
        step == RecipeStep::CacheSignature || step == RecipeStep::Applied ==> recipe_step_after(
            step,
            ok,
            plan,
            has_meta,
        ) == RecipeStep::Applied,
        step == RecipeStep::Skipped ==> recipe_step_after(step, ok, plan, has_meta)
            == RecipeStep::Skipped,
{
}

/// What a recipe asks of the files around it: without a basis none is opened, a
/// digest that came is compared, a run that verifies has every file digested and
/// on disk, a replaced file is kept exactly where backups are asked for, and a
/// signature is remembered only with the times that it belongs to.
pub proof fn law_recipes_ask_for_what_they_need(
    delta: Delta,
    has_meta: bool,
    has_signature: bool,
    cfg: ApplyCfg,
)
    ensures
        ({
            let plan = recipe_plan(delta, has_meta, has_signature, cfg);
            &&& plan.open_basis <==> delta.basis_size != 0
            &&& delta.checksum is Some ==> plan.need_hash
            &&& cfg.verify ==> plan.need_hash && plan.fsync
            &&& plan.need_hash ==> delta.checksum is Some || cfg.verify
            &&& cfg.fsync ==> plan.fsync
            &&& plan.fsync ==> cfg.fsync || cfg.verify
            &&& plan.backup <==> cfg.backup
            &&& plan.recheck <==> cfg.verify && has_meta
            &&& plan.cache_signature ==> has_signature && has_meta && cfg.preserve_times
            &&& has_signature && has_meta && cfg.preserve_times ==> plan.cache_signature
            &&& commit_plan(cfg) == (plan.fsync, plan.backup)
        }),
{
}

/// The file that the copied ranges of a recipe come from.
pub open spec fn basis_of_recipe(path: Seq<char>, sibling: Option<Seq<char>>) -> Seq<char> {
    match sibling {
        Some(s) => s,
        None => path,
    }
}

/// The ranges are copied from the sibling that a recipe names; only without one
/// from the file itself.
pub proof fn law_a_named_sibling_is_the_basis(path: Seq<char>, sibling: Seq<char>)
    ensures
        basis_of_recipe(path, Some(sibling)) == sibling,
        basis_of_recipe(path, None) == path,
{
}

/// The file that the copied ranges of a recipe come from: a sibling that the
/// recipe names, or the file itself.
pub fn basis_file(path: &str, sibling: &Option<String>) -> (r: String)
    ensures
        r@ == basis_of_recipe(path@, text::opt_view(*sibling)),
        r@ == match *sibling {
            Some(s) => s@,
            None => path@,
        },
{
    match sibling {
        Some(s) => text::copy_str(s.as_str()),
        None => text::copy_str(path),
    }
}

/// Whether a digest is the one that was expected, if one was.
pub open spec fn digest_fits(expected: Option<Seq<u8>>, actual: Seq<u8>) -> bool {
    expected is Some ==> expected == Some(actual)
}

/// Content with another digest than the sender's is never taken for good, and
/// content with the same digest is.
pub proof fn law_other_digests_do_not_fit(expected: Seq<u8>, actual: Seq<u8>)
    ensures
        digest_fits(Some(expected), actual) <==> expected == actual,
        digest_fits(None, actual),
{
}

/// Whether what was written has the digest that the sender computed, if it
/// computed one.
pub fn checksum_matches(expected: &Option<[u8; 32]>, actual: &[u8; 32]) -> (r: bool)
    ensures
        r == digest_fits(protocol::hash_view(*expected), actual@),
        r == (expected matches Some(e) ==> e@ == actual@),
{
    match expected {
        Some(e) => protocol::same_hash(e, actual),
        None => true,
    }
}

/// Whether the content that was written has the digest that the sender
/// computed, if it computed one.
pub fn content_checks(expected: &Option<[u8; 32]>, content: &ContentDigest) -> (r: bool)
    ensures
        r == digest_fits(protocol::hash_view(*expected), digest::digest_of(content@)),
        r == (expected matches Some(e) ==> e@ == digest::digest_of(content@)),
{
    let actual = content.finalize();
    checksum_matches(expected, &actual)
}

/// How a received file is committed.
pub open spec fn commit_plan(cfg: ApplyCfg) -> (bool, bool) {
    (cfg.fsync || cfg.verify, cfg.backup)
}

/// How a received file is committed: whether it is flushed first, and whether
/// the file that it replaces is kept. A run that verifies makes every file
/// durable.
pub fn commit_flags(cfg: ApplyCfg) -> (r: (bool, bool))
    ensures
        r == commit_plan(cfg),
        r.0 == (cfg.fsync || cfg.verify),
        r.1 == cfg.backup,
{
    (cfg.fsync || cfg.verify, cfg.backup)
}

/// The outcome of applying one recipe.
pub open spec fn recipe_outcome(
    rel: Seq<char>,
    source_size: u64,
    parent: Seq<char>,
    hash: Seq<u8>,
    cfg: ApplyCfg,
    failure: Option<Seq<char>>,
    unchanged: bool,
) -> Result<(u64, Seq<char>, Option<(Seq<char>, Seq<u8>)>), Seq<char>> {
    match failure {
        Some(why) => Err(why),
        None => if cfg.verify && !unchanged {
            Err(dest_changed())
        } else {
            Ok(
                (
                    source_size,
                    parent,
                    if cfg.verify {
                        Some((rel, hash))
                    } else {
                        None
                    },
                ),
            )
        },
    }
}

/// Decide what applying one recipe came to. `failure` is the first thing that
/// went wrong, if any; `unchanged` tells whether the destination still was as
/// it was applied, in a run that verifies; `content` is what was written. A
/// failure skips the file, and the run goes on.
pub fn settle_recipe(
    rel: String,
    source_size: u64,
    parent: String,
    content: &ContentDigest,
    cfg: ApplyCfg,
    failure: Option<String>,
    unchanged: bool,
) -> (r: ApplyOutcome)
    ensures
        match recipe_outcome(
            rel@,
            source_size,
            parent@,
            digest::digest_of(content@),
            cfg,
            text::opt_view(failure),
            unchanged,
        ) {
            Ok((n, p, h)) => r matches ApplyOutcome::Applied(m, q, g) && m == n && q@ == p && (
            match g {
                Some((k, v)) => h == Some((k@, v@)),
                None => h is None,
            }),
            Err(why) => r matches ApplyOutcome::Skipped(k, m) && k@ == rel@ && m@ == why,
        },
{
    match failure {
        Some(why) => ApplyOutcome::Skipped(rel, why),
        None => {
            if cfg.verify && !unchanged {
                ApplyOutcome::Skipped(
                    rel,
                    text::copy_str("destination changed after apply; source not removed"),
                )
            } else if cfg.verify {
                let hash = content.finalize();
                ApplyOutcome::Applied(source_size, parent, Some((rel, hash)))
            } else {
                ApplyOutcome::Applied(source_size, parent, None)
            }
        },
    }
}

/// A digest is reported only for a file whose application succeeded and that
/// still was as it was applied.
pub proof fn law_digests_are_reported_only_for_intact_files(
    rel: Seq<char>,
    source_size: u64,
    parent: Seq<char>,
    hash: Seq<u8>,
    cfg: ApplyCfg,
    failure: Option<Seq<char>>,
    unchanged: bool,
)
    requires
        recipe_outcome(rel, source_size, parent, hash, cfg, failure, unchanged) matches Ok(o)
            && o.2 is Some,
    ensures
        failure is None,
        unchanged,
        cfg.verify,
        recipe_outcome(rel, source_size, parent, hash, cfg, failure, unchanged)->Ok_0.2 == Some(
            (rel, hash),
        ),
{
}

/// A recipe that met no failure counts as applied, with the whole size of the
/// file; where the run verifies, only if the file stayed as it was applied, and
/// then its digest is reported under its own path. A failure is passed on.
pub proof fn law_recipes_without_failure_are_applied(
    rel: Seq<char>,
    source_size: u64,
    parent: Seq<char>,
    hash: Seq<u8>,
    cfg: ApplyCfg,
    why: Seq<char>,
    unchanged: bool,
)
    ensures
        !cfg.verify ==> recipe_outcome(rel, source_size, parent, hash, cfg, None, unchanged) == Ok::<
            (u64, Seq<char>, Option<(Seq<char>, Seq<u8>)>),
            Seq<char>,
        >((source_size, parent, None)),
        cfg.verify && unchanged ==> recipe_outcome(
            rel,
            source_size,
            parent,
            hash,
            cfg,
            None,
            unchanged,
        ) == Ok::<(u64, Seq<char>, Option<(Seq<char>, Seq<u8>)>), Seq<char>>(
            (source_size, parent, Some((rel, hash))),
        ),
        cfg.verify && !unchanged ==> recipe_outcome(
            rel,
            source_size,
            parent,
            hash,
            cfg,
            None,
            unchanged,
        ) is Err,
        recipe_outcome(rel, source_size, parent, hash, cfg, Some(why), unchanged) == Err::<
            (u64, Seq<char>, Option<(Seq<char>, Seq<u8>)>),
            Seq<char>,
        >(why),
{
}

/// Whether the destination still has the size and time that were applied.
pub open spec fn still_matches(stat: SourceStat, meta: protocol::MetaV) -> bool {
    stat.len == meta.size && stat.mtime == meta.mtime && stat.mtime_nsec == meta.mtime_nsec
}

/// Whether the destination still has the size and time that were applied.
pub fn dest_still_matches(stat: SourceStat, meta: &FileMeta) -> (r: bool)
    ensures
        r == still_matches(stat, meta@),
{
    stat.len == meta.size && stat.mtime == meta.mtime && stat.mtime_nsec == meta.mtime_nsec
}

/// A destination that differs in size, or in time by as little as a nanosecond,
/// has changed; one that does not has not.
pub proof fn law_any_difference_is_a_change(stat: SourceStat, meta: protocol::MetaV)
    ensures
        stat.len != meta.size ==> !still_matches(stat, meta),
        stat.mtime != meta.mtime ==> !still_matches(stat, meta),
        stat.mtime_nsec != meta.mtime_nsec ==> !still_matches(stat, meta),
        stat.len == meta.size && stat.mtime == meta.mtime && stat.mtime_nsec == meta.mtime_nsec
            ==> still_matches(stat, meta),
{
}

/// The attributes to apply to a file.
#[derive(Debug, Clone, Copy, PartialEq, Eq, Structural)]
pub struct PlatformMeta {
    /// Content size in bytes.
    pub size: u64,
    /// Permission bits; `0` leaves them alone.
    pub mode: u32,
    /// Modification time in seconds since the Unix epoch.
    pub mtime_sec: i64,
    /// Nanosecond remainder of the modification time.
    pub mtime_nsec: u32,
    /// Access time in seconds since the Unix epoch.
    pub atime_sec: i64,
    /// Nanosecond remainder of the access time.
    pub atime_nsec: u32,
}

/// The attributes to apply, with the given permission bits.
pub open spec fn attributes_of(meta: protocol::MetaV, mode: u32) -> PlatformMeta {
    PlatformMeta {
        size: meta.size,
        mode,
        mtime_sec: wire::unwrapped(meta.mtime) as i64,
        mtime_nsec: meta.mtime_nsec,
        atime_sec: wire::unwrapped(meta.atime) as i64,
        atime_nsec: meta.atime_nsec,
    }
}

/// Attributes arrive as they were sent: what an entry of the source is announced
/// with is what is applied, each time for itself.
pub proof fn law_attributes_arrive_as_sent(e: scanner::EntryV, mode: u32)
    ensures
        ({
            let a = attributes_of(wire::meta_of(e), mode);
            &&& a.size == e.size
            &&& a.mode == mode
            &&& a.mtime_sec == e.mtime_sec
            &&& a.mtime_nsec == e.mtime_nsec
            &&& a.atime_sec == e.atime_sec
            &&& a.atime_nsec == e.atime_nsec
        }),
{
    wire::law_mtime_roundtrip(e.mtime_sec, 0);
    wire::law_mtime_roundtrip(e.atime_sec, 0);
}

/// The attributes to apply, with the given permission bits.
pub fn platform_meta(meta: &FileMeta, mode: u32) -> (r: PlatformMeta)
    ensures
        r == attributes_of(meta@, mode),
        r.size == meta.size,
        r.mode == mode,
        r.mtime_sec == wire::unwrapped(meta.mtime),
        r.mtime_nsec == meta.mtime_nsec,
        r.atime_sec == wire::unwrapped(meta.atime),
        r.atime_nsec == meta.atime_nsec,
{
    PlatformMeta {
        size: meta.size,
        mode,
        mtime_sec: wire::mtime_from_wire(meta.mtime),
        mtime_nsec: meta.mtime_nsec,
        atime_sec: wire::mtime_from_wire(meta.atime),
        atime_nsec: meta.atime_nsec,
    }
}

/// Which attributes of an applied file are set.
#[derive(Debug, Clone, Copy, PartialEq, Eq, Structural)]
pub struct MetaPlan {
    /// Set the permission bits.
    pub mode: bool,
    /// Set the modification time.
    pub times: bool,
    /// Set the access time.
    pub atimes: bool,
    /// Set owner and group, as far as possible.
    pub owner: bool,
    /// Set the extended attributes, as far as possible.
    pub xattrs: bool,
}

/// Which attributes of an applied file are set.
pub open spec fn meta_plan(meta: protocol::MetaV, cfg: ApplyCfg) -> MetaPlan {
    MetaPlan {
        mode: true,
        times: cfg.preserve_times,
        atimes: cfg.preserve_atimes,
        owner: cfg.archive,
        xattrs: cfg.xattrs && (meta.xattrs matches Some(x) && x.len() > 0),
    }
}

/// Which attributes of a created link are set.
pub open spec fn link_meta_plan(cfg: ApplyCfg) -> MetaPlan {
    MetaPlan {
        mode: false,
        times: cfg.preserve_times,
        atimes: cfg.preserve_atimes,
        owner: cfg.archive,
        xattrs: false,
    }
}

/// Each attribute is set exactly where its own option asks for it. Files always
/// get their permission bits, links never do, nor extended attributes.
pub proof fn law_attributes_follow_their_options(meta: protocol::MetaV, cfg: ApplyCfg)
    ensures
        ({
            let file = meta_plan(meta, cfg);
            let link = link_meta_plan(cfg);
            &&& file.mode
            &&& !link.mode && !link.xattrs
            &&& file.times <==> cfg.preserve_times
            &&& link.times <==> cfg.preserve_times
            &&& file.atimes <==> cfg.preserve_atimes
            &&& link.atimes <==> cfg.preserve_atimes
            &&& file.owner <==> cfg.archive
            &&& link.owner <==> cfg.archive
            &&& !cfg.xattrs || meta.xattrs is None ==> !file.xattrs
            &&& meta.xattrs is Some && meta.xattrs->0.len() == 0 ==> !file.xattrs
            &&& cfg.xattrs && meta.xattrs is Some && meta.xattrs->0.len() > 0 ==> file.xattrs
        }),
{
}

/// Decide which attributes of an applied file are set.
pub fn plan_meta(meta: &FileMeta, cfg: ApplyCfg) -> (r: MetaPlan)
    ensures
        r == meta_plan(meta@, cfg),
        r.mode,
        r.times == cfg.preserve_times,
        r.atimes == cfg.preserve_atimes,
        r.owner == cfg.archive,
        r.xattrs == (cfg.xattrs && (meta@.xattrs matches Some(x) && x.len() > 0)),
{
    let has_xattrs = match &meta.xattrs {
        Some(v) => {
            let ghost f = |p: (String, Vec<u8>)| (p.0@, p.1@);
            assert(v@.map_values(f).len() == v@.len());
            v.len() > 0
        },
        None => false,
    };
    MetaPlan {
        mode: true,
        times: cfg.preserve_times,
        atimes: cfg.preserve_atimes,
        owner: cfg.archive,
        xattrs: cfg.xattrs && has_xattrs,
    }
}

/// Decide which attributes of a created link are set: never its permission
/// bits or extended attributes.
pub fn plan_link_meta(cfg: ApplyCfg) -> (r: MetaPlan)
    ensures
        r == link_meta_plan(cfg),
        !r.mode,
        r.times == cfg.preserve_times,
        r.atimes == cfg.preserve_atimes,
        r.owner == cfg.archive,
        !r.xattrs,
{
    MetaPlan {
        mode: false,
        times: cfg.preserve_times,
        atimes: cfg.preserve_atimes,
        owner: cfg.archive,
        xattrs: false,
    }
}

/// The permission bits of a special file, for those that were announced.
pub open spec fn special_bits(announced: Option<u32>) -> u32 {
    match announced {
        Some(bits) => bits,
        None => 0o644,
    }
}

/// The permission bits that a special file is created with.
pub fn special_mode(meta: Option<&FileMeta>) -> (mode: u32)
    ensures
        mode == special_bits(
            match meta {
                Some(m) => Some(m.mode),
                None => None,
            },
        ),
        mode == match meta {
            Some(m) => m.mode,
            None => 0o644,
        },
{
    match meta {
        Some(m) => m.mode,
        None => 0o644,
    }
}

/// The target that a shortcut is written with.
pub fn shortcut_target(target: &str) -> (r: String)
    ensures
        r@ == text::swap_char(target@, '/', '\\'),
{
    text::replace_char(target, '/', '\\')
}

/// What a look at a path to delete found.
#[derive(Debug)]
pub enum DeleteLook {
    /// A directory.
    Dir,
    /// Anything else.
    NonDir,
    /// Nothing.
    Missing,
    /// It could not be looked at.
    Failed(String),
}

/// What is done with a path to delete.
#[derive(Debug)]
pub enum DeleteAction {
    /// Remove the directory if it is empty.
    RemoveDir,
    /// Move the file aside as a backup.
    Backup,
    /// Remove the file.
    Remove,
    /// Nothing.
    Nothing,
    /// End the session.
    Abort(String),
}

/// What is done with a path to delete.
pub open spec fn deletion_of(look: DeleteLook, backup: bool) -> DeleteAction {
    match look {
        DeleteLook::Dir => DeleteAction::RemoveDir,
        DeleteLook::NonDir => if backup {
            DeleteAction::Backup
        } else {
            DeleteAction::Remove
        },
        DeleteLook::Missing => DeleteAction::Nothing,
        DeleteLook::Failed(m) => DeleteAction::Abort(m),
    }
}

/// Nothing is removed outright where backups are asked for, a file that is there
/// goes either way, a directory is only ever removed as one, and what is not
/// there is left alone.
pub proof fn law_deletions_spare_backups(look: DeleteLook, backup: bool)
    ensures
        deletion_of(look, backup) is Remove <==> look is NonDir && !backup,
        deletion_of(look, backup) is Backup <==> look is NonDir && backup,
        deletion_of(look, backup) is RemoveDir <==> look is Dir,
        deletion_of(look, backup) is Nothing <==> look is Missing,
        deletion_of(look, backup) is Abort <==> look is Failed,
        look matches DeleteLook::Failed(m) ==> deletion_of(look, backup) == DeleteAction::Abort(m),
{
}

/// Decide what is done with a path to delete: a backup is kept of everything
/// but directories, and a path that is gone needs nothing.
pub fn delete_action(look: DeleteLook, backup: bool) -> (r: DeleteAction)
    ensures
        r == deletion_of(look, backup),
        match look {
            DeleteLook::Dir => r is RemoveDir,
            DeleteLook::NonDir => if backup {
                r is Backup
            } else {
                r is Remove
            },
            DeleteLook::Missing => r is Nothing,
            DeleteLook::Failed(m) => r matches DeleteAction::Abort(n) && n == m,
        },
{
    match look {
        DeleteLook::Dir => DeleteAction::RemoveDir,
        DeleteLook::NonDir => if backup {
            DeleteAction::Backup
        } else {
            DeleteAction::Remove
        },
        DeleteLook::Missing => DeleteAction::Nothing,
        DeleteLook::Failed(m) => DeleteAction::Abort(m),
    }
}

/// One link or special file to create.
#[derive(Debug, Clone, Copy, PartialEq, Eq, Structural)]
pub enum CreateStep {
    /// The link at this position.
    Link(usize),
    /// The special file at this position.
    Special(usize),
    /// The hard link at this position.
    HardLink(usize),
}

/// The order in which links and special files are created: links, special
/// files, and hard links last.
pub open spec fn create_order(links: int, specials: int, hardlinks: int) -> Seq<CreateStep> {
    Seq::new(links as nat, |i: int| CreateStep::Link(i as usize)) + Seq::new(
        specials as nat,
        |i: int| CreateStep::Special(i as usize),
    ) + Seq::new(hardlinks as nat, |i: int| CreateStep::HardLink(i as usize))
}

/// The order in which links and special files are created.
pub fn create_steps(links: usize, specials: usize, hardlinks: usize) -> (out: Vec<CreateStep>)
    ensures
        out@ == create_order(links as int, specials as int, hardlinks as int),
{
    let mut out: Vec<CreateStep> = Vec::new();
    let ghost a = Seq::new(links as nat, |i: int| CreateStep::Link(i as usize));
    let ghost b = Seq::new(specials as nat, |i: int| CreateStep::Special(i as usize));
    let ghost c = Seq::new(hardlinks as nat, |i: int| CreateStep::HardLink(i as usize));
    let mut i: usize = 0;
    while i < links
        invariant
            i <= links,
            a == Seq::new(links as nat, |i: int| CreateStep::Link(i as usize)),
            out@ == a.take(i as int),
        decreases links - i,
    {
        out.push(CreateStep::Link(i));
        i += 1;
        assert(a.take(i as int) =~= out@);
    }
    assert(a.take(i as int) =~= a);
    assert(a + b.take(0) =~= a);
    let mut j: usize = 0;
    while j < specials
        invariant
            j <= specials,
            b == Seq::new(specials as nat, |i: int| CreateStep::Special(i as usize)),
            out@ == a + b.take(j as int),
        decreases specials - j,
    {
        out.push(CreateStep::Special(j));
        j += 1;
        assert(a + b.take(j as int) =~= out@);
    }
    assert(b.take(j as int) =~= b);
    assert(a + b + c.take(0) =~= a + b);
    let mut k: usize = 0;
    while k < hardlinks
        invariant
            k <= hardlinks,
            c == Seq::new(hardlinks as nat, |i: int| CreateStep::HardLink(i as usize)),
            out@ == a + b + c.take(k as int),
        decreases hardlinks - k,
    {
        out.push(CreateStep::HardLink(k));
        k += 1;
        assert(a + b + c.take(k as int) =~= out@);
    }
    assert(c.take(k as int) =~= c);
    out
}

/// Every link, special file and hard link is created exactly once, and a hard
/// link only after everything that it may be linked to.
pub proof fn law_hard_links_come_after_their_targets(
    links: int,
    specials: int,
    hardlinks: int,
    i: int,
    j: int,
)
    requires
        0 <= links <= usize::MAX,
        0 <= specials <= usize::MAX,
        0 <= hardlinks <= usize::MAX,
    ensures
        ({
            let order = create_order(links, specials, hardlinks);
            &&& order.len() == links + specials + hardlinks
            &&& 0 <= i < order.len() && 0 <= j < order.len() && order[i] is HardLink
                && !(order[j] is HardLink) ==> j < i
            &&& 0 <= i < j < order.len() ==> order[i] != order[j]
            &&& 0 <= i < links ==> order.contains(CreateStep::Link(i as usize))
            &&& 0 <= i < specials ==> order.contains(CreateStep::Special(i as usize))
            &&& 0 <= i < hardlinks ==> order.contains(CreateStep::HardLink(i as usize))
        }),
{
    let order = create_order(links, specials, hardlinks);
    if 0 <= i < links {
        assert(order[i] == CreateStep::Link(i as usize));
    }
    if 0 <= i < specials {
        assert(order[links + i] == CreateStep::Special(i as usize));
    }
    if 0 <= i < hardlinks {
        assert(order[links + specials + i] == CreateStep::HardLink(i as usize));
    }
}

/// What a look at a basis file found.
#[derive(Debug, Clone, Copy, PartialEq, Eq, Structural)]
pub enum BasisLook {
    /// A file.
    File,
    /// Nothing, or a directory.
    Absent,
    /// It could not be opened.
    Failed,
}

/// How the signature of a basis file is obtained.
#[derive(Debug, Clone, Copy, PartialEq, Eq, Structural)]
pub enum SignatureSource {
    /// From the cache.
    Cached,
    /// It is the empty signature.
    Empty,
    /// By cutting the file at content boundaries.
    Chunks,
    /// By cutting the file into blocks of one size.
    Blocks,
    /// Not at all: the file is left out of the answer.
    Unavailable,
}

/// How the signature of a basis file is obtained.
pub open spec fn signature_from(cached: bool, look: BasisLook, rollsum: bool) -> SignatureSource {
    if cached {
        SignatureSource::Cached
    } else {
        match look {
            BasisLook::Absent => SignatureSource::Empty,
            BasisLook::Failed => SignatureSource::Unavailable,
            BasisLook::File => if rollsum {
                SignatureSource::Blocks
            } else {
                SignatureSource::Chunks
            },
        }
    }
}

/// A basis is read exactly where it is there and no signature of it is at hand,
/// and cut as the run asks; one that is not there has the empty signature, and
/// one that cannot be read has none.
pub proof fn law_signatures_describe_the_basis(look: BasisLook, rollsum: bool)
    ensures
        signature_from(true, look, rollsum) == SignatureSource::Cached,
        signature_from(false, look, rollsum) != SignatureSource::Cached,
        signature_from(false, look, rollsum) == SignatureSource::Empty <==> look
            == BasisLook::Absent,
        signature_from(false, look, rollsum) == SignatureSource::Unavailable <==> look
            == BasisLook::Failed,
        signature_from(false, look, rollsum) == SignatureSource::Blocks <==> look
            == BasisLook::File && rollsum,
{
}

/// Decide how the signature of a basis file is obtained: a cached one saves
/// reading the file, and a file that is not there has an empty one.
pub fn signature_source(cached: bool, look: BasisLook, rollsum: bool) -> (r: SignatureSource)
    ensures
        r == signature_from(cached, look, rollsum),
        r == if cached {
            SignatureSource::Cached
        } else {
            match look {
                BasisLook::Absent => SignatureSource::Empty,
                BasisLook::Failed => SignatureSource::Unavailable,
                BasisLook::File => if rollsum {
                    SignatureSource::Blocks
                } else {
                    SignatureSource::Chunks
                },
            }
        },
{
    if cached {
        return SignatureSource::Cached;
    }
    match look {
        BasisLook::Absent => SignatureSource::Empty,
        BasisLook::Failed => SignatureSource::Unavailable,
        BasisLook::File => if rollsum {
            SignatureSource::Blocks
        } else {
            SignatureSource::Chunks
        },
    }
}

/// Whether an emptied directory is removed after a deletion.
pub open spec fn pruned(dir: Seq<char>, root: Seq<char>, is_empty: bool) -> bool {
    is_empty && path::comps(dir) != path::comps(root)
}

/// Pruning never removes the root, nor what still holds something; an empty
/// directory below the root goes.
pub proof fn law_pruning_stops_at_the_root(dir: Seq<char>, root: Seq<char>)
    ensures
        !pruned(root, root, true),
        !pruned(dir, root, false),
        path::under(dir, root) && !path::under(root, dir) ==> pruned(dir, root, true),
{
}

/// Whether an emptied directory is removed after a deletion: never the root
/// itself, and nothing that still holds something.
pub fn prunes(dir: &str, root: &str, is_empty: bool) -> (r: bool)
    ensures
        r == pruned(dir@, root@, is_empty),
        r == (is_empty && path::comps(dir@) != path::comps(root@)),
{
    is_empty && !path::same_path(dir, root)
}

/// Whether a report is the one of a receiving run.
pub open spec fn reports_state(state: ApplyState, r: SyncStats) -> bool {
    &&& r.files_sent == 0
    &&& r.files_received == state.files_received
    &&& r.bytes_transferred == state.bytes_transferred
    &&& r.skipped == state.skipped
}

/// What a receiving run reports locally.
pub fn received_stats(state: ApplyState, duration: u64) -> (r: SyncStats)
    requires
        state.files_received <= usize::MAX,
    ensures
        reports_state(state, r),
        r.files_sent == 0,
        r.files_received == state.files_received,
        r.bytes_transferred == state.bytes_transferred,
        r.duration == duration,
        r.changes@.len() == 0,
        r.skipped == state.skipped,
{
    SyncStats {
        files_sent: 0,
        files_received: state.files_received as usize,
        bytes_transferred: state.bytes_transferred,
        duration,
        changes: Vec::new(),
        skipped: state.skipped,
    }
}

/// The number of regular files in a list.
pub open spec fn file_count(metas: Seq<protocol::MetaV>) -> int {
    metas.filter(|m: protocol::MetaV| m.kind == FileKind::File).len() as int
}

/// The number of regular files in a file list.
pub fn count_files(metas: &Vec<FileMeta>) -> (n: usize)
    ensures
        n == file_count(wire::meta_views(metas@)),
        n == wire::meta_views(metas@).filter(|m: protocol::MetaV| m.kind == FileKind::File).len(),
{
    let ghost f = |m: protocol::MetaV| m.kind == FileKind::File;
    let ghost mv = wire::meta_views(metas@);
    let mut n: usize = 0;
    let mut i: usize = 0;
    assert(mv.take(0).filter(f) =~= Seq::empty()) by {
        reveal(Seq::filter);
    }
    while i < metas.len()
        invariant
            i <= metas.len(),
            f == (|m: protocol::MetaV| m.kind == FileKind::File),
            mv == wire::meta_views(metas@),
            n == mv.take(i as int).filter(f).len(),
            n <= i,
        decreases metas.len() - i,
    {
        assert(mv[i as int] == metas@[i as int]@);
        proof {
            assert(mv.take(i + 1) =~= mv.take(i as int).push(mv[i as int]));
            mv.take(i as int).lemma_filter_push(mv[i as int], f);
        }
        if metas[i].kind == FileKind::File {
            n += 1;
        }
        i += 1;
    }
    assert(mv.take(i as int) =~= mv);
    n
}

/// The metadata of the files of a run, by path.
pub struct MetaIndex {
    metas: Vec<FileMeta>,
    index: KeyIndex,
}

impl View for MetaIndex {
    type V = Seq<protocol::MetaV>;

    closed spec fn view(&self) -> Seq<protocol::MetaV> {
        wire::meta_views(self.metas@)
    }
}

/// The paths of a file list.
pub open spec fn meta_paths(metas: Seq<protocol::MetaV>) -> Seq<Seq<char>> {
    metas.map_values(|m: protocol::MetaV| m.path)
}

/// The metadata for a path; a later entry replaces an earlier one.
pub open spec fn meta_for(metas: Seq<protocol::MetaV>, rel: Seq<char>) -> Option<protocol::MetaV> {
    let i = order::last_index(meta_paths(metas), rel);
    if i < 0 {
        None
    } else {
        Some(metas[i])
    }
}

impl MetaIndex {
    /// The index belongs to the list.
    pub closed spec fn well_formed(&self) -> bool {
        &&& self.index.well_formed()
        &&& self.index@ == meta_paths(self@)
    }

    /// Index a file list.
    pub fn new(metas: Vec<FileMeta>) -> (r: MetaIndex)
        ensures
            r.well_formed(),
            r@ == wire::meta_views(metas@),
    {
        let mut keys: Vec<Vec<char>> = Vec::new();
        let mut i: usize = 0;
        while i < metas.len()
            invariant
                i <= metas.len(),
                keys.len() == i,
                forall|j: int| 0 <= j < i ==> (#[trigger] keys@[j])@ == metas@[j]@.path,
            decreases metas.len() - i,
        {
            keys.push(text::chars_of(metas[i].path.as_str()));
            i += 1;
        }
        assert(order::key_views(keys@) =~= meta_paths(wire::meta_views(metas@)));
        MetaIndex { metas, index: KeyIndex::new(keys) }
    }

    /// The metadata for a path.
    pub fn find(&self, rel: &str) -> (r: Option<&FileMeta>)
        requires
            self.well_formed(),
        ensures
            match r {
                Some(m) => meta_for(self@, rel@) == Some(m@),
                None => meta_for(self@, rel@) is None,
            },
    {
        let key = text::chars_of(rel);
        proof {
            order::lemma_last_index(self.index@, rel@);
        }
        match self.index.find_last(&key) {
            Some(i) => {
                assert(self@[i as int] == self.metas@[i as int]@);
                Some(&self.metas[i])
            },
            None => None,
        }
    }
}

/// The directories to make durable before the final report: each one once.
pub fn dirs_to_sync(dirs: &Vec<String>) -> (out: Vec<String>)
    ensures
        forall|d: Seq<char>|
            #[trigger] text::views(out@).contains(d) <==> text::views(dirs@).contains(d),
        text::views(out@).no_duplicates(),
{
    let ghost dv = text::views(dirs@);
    let mut keys: Vec<Vec<char>> = Vec::new();
    let mut i: usize = 0;
    while i < dirs.len()
        invariant
            i <= dirs.len(),
            keys.len() == i,
            forall|j: int| 0 <= j < i ==> (#[trigger] keys@[j])@ == dirs@[j]@,
        decreases dirs.len() - i,
    {
        keys.push(text::chars_of(dirs[i].as_str()));
        i += 1;
    }
    assert(order::key_views(keys@) =~= dv);
    let ord = order::sort_order(&keys);
    let mut out: Vec<String> = Vec::new();
    let mut n: usize = 0;
    while n < ord.len()
        invariant
            n <= ord.len(),
            ord.len() == dirs.len(),
            keys.len() == dirs.len(),
            dv == text::views(dirs@),
            order::key_views(keys@) == dv,
            order::orders(dv, ord@, 0, dirs.len() as int),
            n == 0 ==> out.len() == 0,
            n > 0 ==> out.len() > 0 && text::views(out@).last() == dv[ord@[n - 1] as int],
            forall|a: int, b: int|
                0 <= a < b < out.len() ==> text::lex_lt(
                    #[trigger] text::views(out@)[a],
                    #[trigger] text::views(out@)[b],
                ),
            forall|a: int|
                0 <= a < out.len() ==> dv.contains(#[trigger] text::views(out@)[a]),
            forall|k: int|
                0 <= k < n ==> text::views(out@).contains(dv[#[trigger] ord@[k] as int]),
        decreases ord.len() - n,
    {
        let at: usize = ord[n];
        let ghost ov = text::views(out@);
        let fresh = out.len() == 0 || !text::same(out[out.len() - 1].as_str(), dirs[at].as_str());
        if fresh {
            let d = text::copy_str(dirs[at].as_str());
            out.push(d);
            proof {
                let nv = text::views(out@);
                assert(nv =~= ov.push(d@));
                assert forall|a: int, b: int| 0 <= a < b < out.len() implies text::lex_lt(
                    #[trigger] nv[a],
                    #[trigger] nv[b],
                ) by {
                    if b == out.len() - 1 {
                        assert(order::sorts_before(dv, ord@[n - 1] as int, at as int));
                        let prev = ov.last();
                        assert(prev == dv[ord@[n - 1] as int]);
                        assert(text::lex_lt(prev, d@));
                        if a < ov.len() - 1 {
                            assert(text::lex_lt(ov[a], ov[ov.len() - 1]));
                            text::lemma_lex_trans(ov[a], prev, d@);
                        }
                    } else {
                        assert(nv[a] == ov[a] && nv[b] == ov[b]);
                    }
                }
                assert forall|k: int| 0 <= k < n + 1 implies nv.contains(
                    dv[#[trigger] ord@[k] as int],
                ) by {
                    if k < n {
                        let a = choose|a: int| 0 <= a < ov.len() && ov[a] == dv[ord@[k] as int];
                        assert(nv[a] == ov[a]);
                    } else {
                        assert(nv[nv.len() - 1] == d@);
                    }
                }
                assert forall|a: int| 0 <= a < out.len() implies dv.contains(
                    #[trigger] nv[a],
                ) by {
                    if a < ov.len() {
                        assert(nv[a] == ov[a]);
                    } else {
                        assert(dv[at as int] == d@);
                    }
                }
            }
        } else {
            proof {
                assert(ov.last() == dv[at as int]);
                assert(ov[ov.len() - 1] == dv[at as int]);
            }
        }
        n += 1;
    }
    proof {
        let ov = text::views(out@);
        assert forall|d: Seq<char>| #[trigger] ov.contains(d) <==> dv.contains(d) by {
            if dv.contains(d) {
                let j = choose|j: int| 0 <= j < dv.len() && dv[j] == d;
                assert(order::placed(ord@, j));
                let k = choose|k: int| 0 <= k < ord.len() && #[trigger] ord@[k] == j;
                assert(ov.contains(dv[ord@[k] as int]));
            }
        }
        assert forall|a: int, b: int| 0 <= a < ov.len() && 0 <= b < ov.len() && a != b implies ov[a]
            != ov[b] by {
            text::lemma_lex_irrefl(ov[a]);
            if a < b {
                assert(text::lex_lt(ov[a], ov[b]));
            } else {
                assert(text::lex_lt(ov[b], ov[a]));
            }
        }
    }
    out
}

/// Whether a frame is the final report on a state.
pub open spec fn acknowledges(state: ApplyState, frame: Frame) -> bool {
    frame matches Frame::Ack { files, bytes, skipped, hashes } && files == state.files_received
        && bytes == state.bytes_transferred && transfer::skip_views(skipped@)
        == transfer::skip_views(state.skipped@) && hashes == state.hashes
}

/// The final report of a receiving run.
pub fn acknowledge(state: &mut ApplyState) -> (frame: Frame)
    ensures
        acknowledges(*old(state), frame),
        frame matches Frame::Ack { files, bytes, skipped, hashes } && files == old(
            state,
        ).files_received && bytes == old(state).bytes_transferred && transfer::skip_views(skipped@)
            == transfer::skip_views(old(state).skipped@) && hashes == old(state).hashes,
        final(state).hashes@.len() == 0,
        final(state).files_received == old(state).files_received,
        final(state).bytes_transferred == old(state).bytes_transferred,
        final(state).skipped == old(state).skipped,
        final(state).renamed_dirs == old(state).renamed_dirs,
        final(state).in_flight == old(state).in_flight,
{
    let mut skipped: Vec<SkippedFile> = Vec::new();
    let mut i: usize = 0;
    while i < state.skipped.len()
        invariant
            i <= state.skipped.len(),
            *state == *old(state),
            skipped.len() == i,
            forall|j: int| 0 <= j < i ==> (#[trigger] skipped@[j])@ == state.skipped@[j]@,
        decreases state.skipped.len() - i,
    {
        let s = &state.skipped[i];
        skipped.push(
            SkippedFile::new(text::copy_str(s.path.as_str()), text::copy_str(s.reason.as_str())),
        );
        i += 1;
    }
    assert(transfer::skip_views(skipped@) =~= transfer::skip_views(state.skipped@));
    let mut hashes: Vec<(String, [u8; 32])> = Vec::new();
    std::mem::swap(&mut hashes, &mut state.hashes);
    Frame::Ack {
        files: state.files_received,
        bytes: state.bytes_transferred,
        skipped,
        hashes,
    }
}

/// A path's attributes are those of its last mention; a path that is not
/// mentioned has none.
pub proof fn law_the_last_mention_counts(metas: Seq<protocol::MetaV>, rel: Seq<char>)
    ensures
        meta_for(metas, rel) is Some <==> meta_paths(metas).contains(rel),
        meta_for(metas, rel) matches Some(m) ==> m.path == rel && metas.contains(m),
        forall|m: protocol::MetaV|
            m.path == rel ==> #[trigger] meta_for(metas.push(m), rel) == Some(m),
        forall|m: protocol::MetaV|
            m.path != rel ==> #[trigger] meta_for(metas.push(m), rel) == meta_for(metas, rel),
{
    order::lemma_last_index(meta_paths(metas), rel);
    let i = order::last_index(meta_paths(metas), rel);
    if i >= 0 {
        assert(metas[i].path == rel);
    }
    assert forall|m: protocol::MetaV| m.path == rel implies #[trigger] meta_for(
        metas.push(m),
        rel,
    ) == Some(m) by {
        assert(meta_paths(metas.push(m)) =~= meta_paths(metas).push(m.path));
        assert(meta_paths(metas).push(m.path).drop_last() =~= meta_paths(metas));
    }
    assert forall|m: protocol::MetaV| m.path != rel implies #[trigger] meta_for(
        metas.push(m),
        rel,
    ) == meta_for(metas, rel) by {
        assert(meta_paths(metas.push(m)) =~= meta_paths(metas).push(m.path));
        assert(meta_paths(metas).push(m.path).drop_last() =~= meta_paths(metas));
        order::lemma_last_index(meta_paths(metas), rel);
    }
}

/// A batch is shared out among the jobs, but among no more than four: every
/// file gets a place, no job is left a whole share behind, and there is always
/// at least one file to a share.
pub proof fn law_batches_are_shared_out(count: int, jobs: int)
    requires
        count > 0,
    ensures
        jobs <= 1 ==> batch_chunk(count, jobs) == count,
        1 <= jobs <= 4 ==> batch_chunk(count, jobs) * jobs >= count && (batch_chunk(count, jobs)
            - 1) * jobs < count,
        jobs > 4 ==> batch_chunk(count, jobs) * 4 >= count && (batch_chunk(count, jobs) - 1) * 4
            < count,
        batch_chunk(count, jobs) >= 1,
        batch_chunk(0, jobs) == 1,
{
    spans::law_quotients_are_rounded_up(count, 1);
    spans::law_quotients_are_rounded_up(count, 4);
    if 1 <= jobs <= 4 {
        spans::law_quotients_are_rounded_up(count, jobs);
    }
}

/// A special file gets the bits that were announced for it, and those of an
/// ordinary file where none were.
pub proof fn law_special_files_get_the_announced_bits(bits: u32)
    ensures
        special_bits(Some(bits)) == bits,
        special_bits(None) == 0o644,
{
}

/// A receiving run reports what it received and skipped, and nothing as sent.
pub proof fn law_runs_report_what_arrived(state: ApplyState, r: SyncStats)
    requires
        reports_state(state, r),
    ensures
        r.files_received == state.files_received,
        r.bytes_transferred == state.bytes_transferred,
        r.skipped@ == state.skipped@,
        r.files_sent == 0,
{
}

/// Every regular file of a list counts once, and nothing else does.
pub proof fn law_regular_files_are_counted(metas: Seq<protocol::MetaV>, m: protocol::MetaV)
    ensures
        m.kind == FileKind::File ==> file_count(metas.push(m)) == file_count(metas) + 1,
        m.kind != FileKind::File ==> file_count(metas.push(m)) == file_count(metas),
        file_count(Seq::empty()) == 0,
{
    let f = |x: protocol::MetaV| x.kind == FileKind::File;
    metas.lemma_filter_push(m, f);
    assert(Seq::<protocol::MetaV>::empty().filter(f) =~= Seq::empty()) by {
        reveal(Seq::filter);
    }
}

/// The final report tells everything of the run: the counts, every file that was
/// skipped with its reason, and every digest.
pub proof fn law_final_reports_are_complete(state: ApplyState, frame: Frame, i: int)
    requires
        acknowledges(state, frame),
    ensures
        frame matches Frame::Ack { files, bytes, skipped, hashes } && files == state.files_received
            && bytes == state.bytes_transferred && hashes@ == state.hashes@ && skipped@.len()
            == state.skipped@.len() && (0 <= i < skipped@.len() ==> skipped@[i].path@
            == state.skipped@[i].path@ && skipped@[i].reason@ == state.skipped@[i].reason@),
{
    match frame {
        Frame::Ack { files, bytes, skipped, hashes } => {
            let a = transfer::skip_views(skipped@);
            let b = transfer::skip_views(state.skipped@);
            assert(a.len() == skipped@.len());
            assert(b.len() == state.skipped@.len());
            if 0 <= i < skipped@.len() {
                assert(a[i] == skipped@[i]@);
                assert(b[i] == state.skipped@[i]@);
            }
        },
        _ => {},
    }
}

/// On Unix every relative path that does not climb is admitted, at its place
/// below the root, unless its directory cannot be entered; then it is refused,
/// by the name of that directory and the reason.
pub proof fn law_safe_paths_are_admitted(root: Seq<char>, rel: Seq<char>, why: Seq<char>)
    requires
        rel.len() > 0,
        rel[0] != '/',
        !path::comps(rel).contains(path::Comp::Parent),
    ensures
        admission(TargetOs::Unix, root, rel, None) is Ok,
        serve::sanitized(TargetOs::Unix, root, rel) == Ok::<Seq<char>, ErrorV>(
            admission(TargetOs::Unix, root, rel, None)->Ok_0,
        ),
        walked(TargetOs::Unix, root, rel, None) == serve::sanitized(TargetOs::Unix, root, rel),
        walked(TargetOs::Unix, root, rel, Some(why)) == Err::<Seq<char>, ErrorV>(
            ErrorV::Other("Unsafe path '"@ + rel + "': "@ + why),
        ),
        parent_part(TargetOs::Unix, rel) matches Some(dir) ==> path::parent_of(rel) == Some(dir)
            && dir.len() > 0 && admission(TargetOs::Unix, root, rel, Some(why)) == Err::<
            Seq<char>,
            Seq<char>,
        >("Unsafe path '"@ + dir + "': "@ + why),
        parent_part(TargetOs::Unix, rel) is None ==> admission(TargetOs::Unix, root, rel, Some(why))
            is Ok,
        path::parent_of(rel) matches Some(dir) ==> (dir.len() > 0 ==> parent_part(
            TargetOs::Unix,
            rel,
        ) == Some(dir)),
{
    host::lemma_unix(root, rel);
    serve::law_refusals_name_the_path(root, rel);
    match path::parent_of(rel) {
        Some(dir) => {
            path::lemma_parent_is_prefix(rel);
            path::law_directory_lacks_the_last_component(rel);
            assert(rel.take(dir.len() as int) =~= dir);
            host::lemma_unix(root, dir);
            if path::comps(dir).contains(path::Comp::Parent) {
                let cs = path::comps(dir);
                let i = choose|i: int| 0 <= i < cs.len() && cs[i] == path::Comp::Parent;
                assert(path::comps(rel)[i] == path::Comp::Parent);
            }
            if dir.len() > 0 {
                assert(dir[0] == rel[0]);
            }
        },
        None => {},
    }
}

/// What comes out of turn in a stream is refused in words that tell what was
/// wrong.
pub proof fn law_streams_out_of_turn_are_told(
    s: ApplyV,
    file_id: u64,
    path: Seq<char>,
    size: u64,
    verify: bool,
    failure: Option<Seq<char>>,
    data: Seq<u8>,
)
    ensures
        s.in_flight is Some ==> started(s, file_id, path, size, verify, failure) == Err::<
            ApplyV,
            ErrorV,
        >(ErrorV::Other("FileStart while another file is in flight"@)),
        s.in_flight is None ==> chunk_of(s, file_id, data) == Err::<(ApplyV, ChunkAction), ErrorV>(
            ErrorV::Other("FileChunk without FileStart"@),
        ),
        s.in_flight is None ==> ended(s) == Err::<(ApplyV, Option<ChunkedV>), ErrorV>(
            ErrorV::Other("FileEnd without FileStart"@),
        ),
        s.in_flight matches Some(f) ==> (f.file_id != file_id ==> chunk_of(s, file_id, data)
            == Err::<(ApplyV, ChunkAction), ErrorV>(ErrorV::Other("FileChunk file_id mismatch"@))),
{
}

/// The model of a receiving side shows its counts, its lists and the streamed
/// file as they are.
pub proof fn law_models_show_the_state(s: ApplyState, i: int)
    ensures
        s@.bytes == s.bytes_transferred,
        s@.files == s.files_received,
        s@.dirs.len() == s.renamed_dirs@.len(),
        s@.skipped.len() == s.skipped@.len(),
        s@.hashes.len() == s.hashes@.len(),
        0 <= i < s.renamed_dirs@.len() ==> s@.dirs[i] == s.renamed_dirs@[i]@,
        0 <= i < s.skipped@.len() ==> s@.skipped[i] == (
            s.skipped@[i].path@,
            s.skipped@[i].reason@,
        ),
        0 <= i < s.hashes@.len() ==> s@.hashes[i] == (s.hashes@[i].0@, s.hashes@[i].1@),
        s.in_flight is None <==> s@.in_flight is None,
        s.in_flight matches Some(f) ==> s@.in_flight == Some(
            (ChunkedV {
                file_id: f.file_id,
                path: f.path@,
                size: f.size,
                offset: f.offset as int,
                failed: f.failed,
                content: f.content@,
            }),
        ),
{
}

} // verus!
