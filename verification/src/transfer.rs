//! The schedule of one transfer: which job runs next, what is waited for, and
//! what the run has sent so far.
use vstd::prelude::*;

use crate::digest;
use crate::digest::ContentDigest;
use crate::protocol;
use crate::protocol::{Delta, DeltaOp, ErrorV, SessionError, SkippedFile};
use crate::sender;
use crate::sender::Route;
use crate::text;

verus! {

/// What the sender does next.
#[derive(Debug, Clone, Copy, PartialEq, Eq, Structural)]
pub enum Step {
    /// Start reading the small file at this position.
    StartRead(usize),
    /// Wait for the oldest read.
    JoinRead,
    /// Send the collected small files as one frame.
    SendBatch,
    /// Start computing the delta (or reading the whole content) at this position.
    StartDelta(usize),
    /// Wait for the oldest computation and send it.
    JoinDelta,
    /// Stream the file at this position.
    SendChunked(usize),
    /// Send the links, hard links and special files.
    SendLinks,
    /// Nothing is left.
    Finished,
}

/// Whether a route carries the content of a file.
pub open spec fn is_job(r: Route) -> bool {
    match r {
        Route::Batch | Route::CrossDelta | Route::Delta | Route::WholeLiteral
        | Route::Chunked => true,
        _ => false,
    }
}

/// The first job at or after position `at`.
pub open spec fn next_job(routes: Seq<Route>, at: int) -> int
    decreases routes.len() - at,
{
    if at >= routes.len() {
        routes.len() as int
    } else if is_job(routes[at]) {
        at
    } else {
        next_job(routes, at + 1)
    }
}

/// The state of a run.
pub struct RunV {
    /// The way of each task.
    pub routes: Seq<Route>,
    /// The number of tasks dealt with.
    pub at: int,
    /// The reads in flight.
    pub reads: int,
    /// Whether a read was waited for and its result is still to come.
    pub joining: bool,
    /// The small files collected.
    pub held: int,
    /// Their size.
    pub held_bytes: int,
    /// The computations in flight.
    pub pending: int,
    /// The most computations in flight.
    pub window: int,
    /// Whether the collected files are to be sent now.
    pub flushing: bool,
    /// Whether the links were sent.
    pub links_sent: bool,
}

impl RunV {
    /// The run once the collected small files are sent or there are none.
    pub open spec fn settled(self) -> RunV {
        RunV { flushing: false, ..self }
    }

    /// What comes next when nothing is to be flushed.
    pub open spec fn steady(self) -> (RunV, Step) {
        let job = next_job(self.routes, self.at);
        if job < self.routes.len() {
            let moved = RunV { at: job, ..self };
            let done = RunV { at: job + 1, ..self };
            match self.routes[job] {
                Route::Batch => if self.reads >= sender::BATCH_READ_WINDOW {
                    (RunV { reads: self.reads - 1, joining: true, ..moved }, Step::JoinRead)
                } else {
                    (
                        RunV {
                            reads: self.reads + 1,
                            flushing: self.held_bytes >= sender::BATCH_BYTES_BUDGET,
                            ..done
                        },
                        Step::StartRead(job as usize),
                    )
                },
                Route::Chunked => (done, Step::SendChunked(job as usize)),
                _ => if self.pending >= self.window {
                    (RunV { pending: self.pending - 1, ..moved }, Step::JoinDelta)
                } else {
                    (RunV { pending: self.pending + 1, ..done }, Step::StartDelta(job as usize))
                },
            }
        } else {
            let moved = RunV { at: job, ..self };
            if self.pending > 0 {
                (RunV { pending: self.pending - 1, ..moved }, Step::JoinDelta)
            } else if self.reads > 0 {
                (RunV { reads: self.reads - 1, joining: true, ..moved }, Step::JoinRead)
            } else if self.held > 0 {
                (RunV { held: 0, held_bytes: 0, ..moved }, Step::SendBatch)
            } else if !self.links_sent {
                (RunV { links_sent: true, ..moved }, Step::SendLinks)
            } else {
                (moved, Step::Finished)
            }
        }
    }

    /// What comes next.
    pub open spec fn step(self) -> (RunV, Step) {
        if self.flushing {
            if self.reads > 0 {
                (RunV { reads: self.reads - 1, joining: true, ..self }, Step::JoinRead)
            } else if self.held > 0 {
                (RunV { held: 0, held_bytes: 0, ..self.settled() }, Step::SendBatch)
            } else {
                self.settled().steady()
            }
        } else {
            self.steady()
        }
    }

    /// The run after the awaited read gave `len` bytes, or failed.
    pub open spec fn read(self, len: Option<u64>) -> RunV {
        match len {
            Some(n) => RunV {
                joining: false,
                held: self.held + 1,
                held_bytes: self.held_bytes + n,
                ..self
            },
            None => RunV { joining: false, ..self },
        }
    }

    /// The bounds that every run keeps: no window is ever exceeded.
    pub open spec fn valid(self) -> bool {
        &&& 0 <= self.at <= self.routes.len() <= usize::MAX
        &&& 0 <= self.reads <= sender::BATCH_READ_WINDOW
        &&& 0 <= self.pending <= self.window
        &&& self.window >= 1
        &&& 0 <= self.held
        &&& self.held + self.reads + (if self.joining {
            1int
        } else {
            0
        }) <= self.at
        &&& 0 <= self.held_bytes
        &&& self.links_sent ==> self.pending == 0 && self.reads == 0 && self.held == 0
            && !self.joining && next_job(self.routes, self.at) == self.routes.len()
    }

    /// A new run.
    pub open spec fn start(routes: Seq<Route>, compute_jobs: int) -> RunV {
        RunV {
            routes,
            at: 0,
            reads: 0,
            joining: false,
            held: 0,
            held_bytes: 0,
            pending: 0,
            window: if compute_jobs < 1 {
                1
            } else {
                compute_jobs
            },
            flushing: false,
            links_sent: false,
        }
    }
}

proof fn lemma_next_job(routes: Seq<Route>, at: int)
    requires
        0 <= at <= routes.len(),
    ensures
        at <= next_job(routes, at) <= routes.len(),
        next_job(routes, at) < routes.len() ==> is_job(routes[next_job(routes, at)]),
        forall|k: int| at <= k < next_job(routes, at) ==> !is_job(#[trigger] routes[k]),
        next_job(routes, next_job(routes, at)) == next_job(routes, at),
    decreases routes.len() - at,
{
    if at < routes.len() && !is_job(routes[at]) {
        lemma_next_job(routes, at + 1);
    }
}

/// The schedule of one transfer: small files are read ahead within a window
/// and collected into batches of a bounded size; deltas are computed within a
/// window and sent in plan order; links come last.
#[derive(Debug)]
pub struct SendRun {
    routes: Vec<Route>,
    at: usize,
    reads: usize,
    joining: bool,
    held: usize,
    held_bytes: u64,
    pending: usize,
    window: usize,
    flushing: bool,
    links_sent: bool,
}

impl View for SendRun {
    type V = RunV;

    closed spec fn view(&self) -> RunV {
        RunV {
            routes: self.routes@,
            at: self.at as int,
            reads: self.reads as int,
            joining: self.joining,
            held: self.held as int,
            held_bytes: self.held_bytes as int,
            pending: self.pending as int,
            window: self.window as int,
            flushing: self.flushing,
            links_sent: self.links_sent,
        }
    }
}

impl SendRun {
    /// A run over tasks with these routes. At least one computation is in
    /// flight at a time, whatever `compute_jobs` says.
    pub fn new(routes: Vec<Route>, compute_jobs: usize) -> (r: Self)
        ensures
            r@ == RunV::start(routes@, compute_jobs as int),
            r@.valid(),
    {
        let window: usize = if compute_jobs < 1 {
            1
        } else {
            compute_jobs
        };
        let count: usize = routes.len();
        assert(routes@.len() == count);
        SendRun {
            routes,
            at: 0,
            reads: 0,
            joining: false,
            held: 0,
            held_bytes: 0,
            pending: 0,
            window,
            flushing: false,
            links_sent: false,
        }
    }

    /// Decide what comes next. A read that was waited for must have been
    /// reported first.
    pub fn next(&mut self) -> (step: Step)
        requires
            old(self)@.valid(),
            !old(self)@.joining,
        ensures
            (final(self)@, step) == old(self)@.step(),
            final(self)@.valid(),
    {
        let ghost before = self@;
        if self.flushing {
            if self.reads > 0 {
                self.reads -= 1;
                self.joining = true;
                return Step::JoinRead;
            }
            self.flushing = false;
            if self.held > 0 {
                self.held = 0;
                self.held_bytes = 0;
                return Step::SendBatch;
            }
        }
        let ghost steady = self@;
        let ghost job = next_job(self.routes@, self.at as int);
        proof {
            lemma_next_job(self.routes@, self.at as int);
        }
        let mut at: usize = self.at;
        while at < self.routes.len()
            invariant
                self@ == steady,
                steady.valid(),
                !steady.joining,
                job == next_job(self.routes@, steady.at),
                next_job(self.routes@, at as int) == job,
                steady.at <= at <= self.routes.len(),
                at <= job <= self.routes.len(),
                before.step() == steady.steady(),
                before == old(self)@,
                next_job(self.routes@, job) == job,
            ensures
                at == self.routes.len(),
                at == job,
                self@ == steady,
                steady.valid(),
                !steady.joining,
                before.step() == steady.steady(),
            decreases self.routes.len() - at,
        {
            match self.routes[at] {
                Route::Batch => {
                    self.at = at;
                    if self.reads >= sender::BATCH_READ_WINDOW {
                        self.reads -= 1;
                        self.joining = true;
                        return Step::JoinRead;
                    }
                    self.reads += 1;
                    self.at += 1;
                    self.flushing = self.held_bytes >= sender::BATCH_BYTES_BUDGET;
                    return Step::StartRead(at);
                },
                Route::Chunked => {
                    self.at = at + 1;
                    return Step::SendChunked(at);
                },
                Route::CrossDelta | Route::Delta | Route::WholeLiteral => {
                    self.at = at;
                    if self.pending >= self.window {
                        self.pending -= 1;
                        return Step::JoinDelta;
                    }
                    self.pending += 1;
                    self.at += 1;
                    return Step::StartDelta(at);
                },
                _ => {
                    at += 1;
                    proof {
                        lemma_next_job(self.routes@, at as int);
                    }
                },
            }
        }
        self.at = at;
        if self.pending > 0 {
            self.pending -= 1;
            return Step::JoinDelta;
        }
        if self.reads > 0 {
            self.reads -= 1;
            self.joining = true;
            return Step::JoinRead;
        }
        if self.held > 0 {
            self.held = 0;
            self.held_bytes = 0;
            return Step::SendBatch;
        }
        if !self.links_sent {
            self.links_sent = true;
            return Step::SendLinks;
        }
        Step::Finished
    }

    /// Report the awaited read: the size of its content, or `None` when the
    /// file could not be read.
    pub fn read_done(&mut self, len: Option<u64>)
        requires
            old(self)@.valid(),
            old(self)@.joining,
            len matches Some(n) ==> old(self)@.held_bytes + n <= u64::MAX,
        ensures
            final(self)@ == old(self)@.read(len),
            final(self)@.valid(),
    {
        self.joining = false;
        match len {
            Some(n) => {
                self.held += 1;
                self.held_bytes += n;
            },
            None => {},
        }
    }

    /// The size of the small files collected so far.
    pub fn collected(&self) -> (n: u64)
        ensures
            n == self@.held_bytes,
    {
        self.held_bytes
    }
}

/// The run after one step, when a read that is waited for ends as `read` says.
pub open spec fn advance(v: RunV, read: Option<u64>) -> RunV {
    let (w, step) = v.step();
    if step == Step::JoinRead {
        w.read(read)
    } else {
        w
    }
}

/// The run after `n` steps; `reads` tells how a read that is waited for in
/// each step ends.
pub open spec fn run_after(v: RunV, reads: spec_fn(int) -> Option<u64>, n: int) -> RunV
    decreases n,
{
    if n <= 0 {
        v
    } else {
        advance(run_after(v, reads, n - 1), reads(n - 1))
    }
}

/// The job that a step starts.
pub open spec fn job_of(step: Step) -> Option<int> {
    match step {
        Step::StartRead(k) | Step::StartDelta(k) | Step::SendChunked(k) => Some(k as int),
        _ => None,
    }
}

/// The jobs started in the first `n` steps.
pub open spec fn jobs_started(v: RunV, reads: spec_fn(int) -> Option<u64>, n: int) -> Seq<int>
    decreases n,
{
    if n <= 0 {
        Seq::empty()
    } else {
        let front = jobs_started(v, reads, n - 1);
        match job_of(run_after(v, reads, n - 1).step().1) {
            Some(k) => front.push(k),
            None => front,
        }
    }
}

/// The positions of the jobs among the first `n` tasks.
pub open spec fn jobs_before(routes: Seq<Route>, n: int) -> Seq<int>
    decreases n,
{
    if n <= 0 {
        Seq::empty()
    } else if is_job(routes[n - 1]) {
        jobs_before(routes, n - 1).push(n - 1)
    } else {
        jobs_before(routes, n - 1)
    }
}

proof fn lemma_jobs_gap(routes: Seq<Route>, a: int, b: int)
    requires
        0 <= a <= b <= routes.len(),
        forall|k: int| a <= k < b ==> !is_job(#[trigger] routes[k]),
    ensures
        jobs_before(routes, b) == jobs_before(routes, a),
    decreases b - a,
{
    if a < b {
        lemma_jobs_gap(routes, a, b - 1);
        assert(!is_job(routes[b - 1]));
    }
}

/// Every step keeps the windows: never more computations in flight than the
/// window allows, never more reads than the read-ahead allows.
pub proof fn law_windows_are_kept(v: RunV, read: Option<u64>)
    requires
        v.valid(),
        !v.joining,
    ensures
        advance(v, read).valid(),
        !advance(v, read).joining,
        advance(v, read).pending <= v.window,
        advance(v, read).reads <= sender::BATCH_READ_WINDOW,
        advance(v, read).window == v.window,
        advance(v, read).routes == v.routes,
{
    lemma_next_job(v.routes, v.at);
}

/// Every job is started exactly once, in plan order, whatever the reads give.
pub proof fn law_jobs_start_once_in_order(
    routes: Seq<Route>,
    compute_jobs: int,
    reads: spec_fn(int) -> Option<u64>,
    n: int,
)
    requires
        routes.len() <= usize::MAX,
        n >= 0,
    ensures
        ({
            let v = RunV::start(routes, compute_jobs);
            let w = run_after(v, reads, n);
            &&& w.valid()
            &&& !w.joining
            &&& w.routes == routes
            &&& jobs_started(v, reads, n) == jobs_before(routes, w.at)
        }),
    decreases n,
{
    let v = RunV::start(routes, compute_jobs);
    if n > 0 {
        law_jobs_start_once_in_order(routes, compute_jobs, reads, n - 1);
        let u = run_after(v, reads, n - 1);
        let w = advance(u, reads(n - 1));
        law_windows_are_kept(u, reads(n - 1));
        lemma_next_job(routes, u.at);
        let job = next_job(routes, u.at);
        lemma_jobs_gap(routes, u.at, job);
        assert(w.at == u.at || w.at == job || w.at == job + 1);
        if job_of(u.step().1) is Some {
            assert(w.at == job + 1);
            assert(jobs_before(routes, job + 1) == jobs_before(routes, job).push(job));
        }
    }
}

/// Links are sent after every job was started, waited for and sent.
pub proof fn law_links_come_last(
    routes: Seq<Route>,
    compute_jobs: int,
    reads: spec_fn(int) -> Option<u64>,
    n: int,
)
    requires
        routes.len() <= usize::MAX,
        n >= 0,
        run_after(RunV::start(routes, compute_jobs), reads, n).step().1 == Step::SendLinks,
    ensures
        ({
            let v = RunV::start(routes, compute_jobs);
            let w = run_after(v, reads, n);
            &&& w.pending == 0 && w.reads == 0 && w.held == 0
            &&& jobs_started(v, reads, n) == jobs_before(routes, routes.len() as int)
        }),
{
    law_jobs_start_once_in_order(routes, compute_jobs, reads, n);
    let w = run_after(RunV::start(routes, compute_jobs), reads, n);
    lemma_next_job(routes, w.at);
    lemma_jobs_gap(routes, w.at, routes.len() as int);
}

/// What is left to do in a run.
pub open spec fn work_left(v: RunV) -> int {
    4 * (v.routes.len() - v.at) + 2 * v.reads + v.held + v.pending + (if v.links_sent {
        0int
    } else {
        1
    })
}

/// Every step but the last leaves less to do, so every run ends.
pub proof fn law_runs_end(v: RunV, read: Option<u64>)
    requires
        v.valid(),
        !v.joining,
        v.step().1 != Step::Finished,
    ensures
        0 <= work_left(advance(v, read)) < work_left(v),
{
    lemma_next_job(v.routes, v.at);
}

/// One small file of a batch.
#[derive(Debug)]
pub struct BatchItem {
    /// The item's number in this run.
    pub file_id: u64,
    /// Slash-separated path relative to the sync root.
    pub file_path: String,
    /// The content.
    pub data: Vec<u8>,
    /// The content's digest, when the run verifies.
    pub checksum: Option<[u8; 32]>,
}

/// The digest of `data` in a run that verifies, and none otherwise.
pub open spec fn digest_if(verify: bool, data: Seq<u8>) -> Option<Seq<u8>> {
    if verify {
        Some(digest::blake3_of(data))
    } else {
        None
    }
}

/// A small file that was read: the digest is computed only when the run
/// verifies.
pub fn batch_item(seq: u64, rel: String, data: Vec<u8>, verify: bool) -> (r: BatchItem)
    ensures
        r.file_id == seq,
        r.file_path@ == rel@,
        r.data@ == data@,
        protocol::hash_view(r.checksum) == digest_if(verify, data@),
{
    let checksum = if verify {
        Some(digest::content_hash(data.as_slice()))
    } else {
        None
    };
    BatchItem { file_id: seq, file_path: rel, data, checksum }
}

/// A delta that carries the whole content of a file.
pub fn literal_delta(source_size: u64, data: Vec<u8>, checksum: Option<[u8; 32]>) -> (r: Delta)
    ensures
        r.source_size == source_size,
        r.basis_size == 0,
        r.checksum == checksum,
        data@.len() > 0 ==> r.carries(data@),
        data@.len() == 0 ==> r.ops@.len() == 0,
        forall|basis: Seq<u8>| #[trigger]
            protocol::built(r.ops@, basis, r.ops@.len() as int) == data@,
{
    let mut ops: Vec<DeltaOp> = Vec::new();
    if data.len() > 0 {
        ops.push(DeltaOp::Literal(data));
    }
    let r = Delta { source_size, basis_size: 0, ops, checksum };
    proof {
        assert forall|basis: Seq<u8>| #[trigger]
            protocol::built(r.ops@, basis, r.ops@.len() as int) == data@ by {
            if data@.len() > 0 {
                protocol::law_carried_content_is_built(r, data@, data@, basis);
            } else {
                assert(data@ =~= Seq::empty());
            }
        }
    }
    r
}

/// The content of a medium file as a delta: `len` is the size that the file
/// had when it was opened, `data` what was read of it.
pub fn read_whole_delta(len: u64, data: Vec<u8>, verify: bool) -> (r: Delta)
    ensures
        r.source_size == len,
        r.basis_size == 0,
        protocol::hash_view(r.checksum) == digest_if(verify, data@),
        data@.len() > 0 ==> r.carries(data@),
        data@.len() == 0 ==> r.ops@.len() == 0,
        forall|basis: Seq<u8>| #[trigger]
            protocol::built(r.ops@, basis, r.ops@.len() as int) == data@,
{
    let checksum = if verify {
        Some(digest::content_hash(data.as_slice()))
    } else {
        None
    };
    literal_delta(len, data, checksum)
}

/// Whether a basis is of use.
pub open spec fn useful(basis: Option<(u64, usize)>) -> bool {
    basis matches Some((file_size, chunks)) && file_size != 0 && chunks != 0
}

/// Whether a basis of this size, cut into this many chunks, is of use. A
/// missing or empty one is not, and the file is streamed instead.
pub fn basis_is_useful(basis: Option<(u64, usize)>) -> (r: bool)
    ensures
        r == useful(basis),
        r == (basis matches Some((file_size, chunks)) && file_size != 0 && chunks != 0),
{
    match basis {
        Some((file_size, chunks)) => file_size != 0 && chunks != 0,
        None => false,
    }
}

/// How the content of a file that takes its turn in the delta window is
/// prepared.
#[derive(Debug, Clone, Copy, PartialEq, Eq, Structural)]
pub enum DeltaWork {
    /// As a delta against a sibling's signature.
    Sibling,
    /// As a delta against the destination's signature.
    Own,
    /// As one literal.
    Whole,
    /// Not at all: the file is streamed.
    Stream,
}

/// How the content of a file is prepared.
pub open spec fn work_of(
    route: Route,
    sibling_signed: bool,
    basis: Option<(u64, usize)>,
) -> DeltaWork {
    match route {
        Route::CrossDelta => if sibling_signed {
            DeltaWork::Sibling
        } else {
            DeltaWork::Stream
        },
        Route::WholeLiteral => DeltaWork::Whole,
        Route::Delta => if useful(basis) {
            DeltaWork::Own
        } else {
            DeltaWork::Stream
        },
        _ => DeltaWork::Stream,
    }
}

/// A delta is computed only against what is known: the destination's own copy
/// where its signature came and describes something, a sibling where its
/// signature is there. Without either the whole file is sent, never nothing.
pub proof fn law_deltas_need_a_known_basis(
    route: Route,
    sibling_signed: bool,
    file_size: u64,
    chunks: usize,
)
    ensures
        work_of(Route::Delta, sibling_signed, Some((file_size, chunks))) == DeltaWork::Own <==> (
        file_size > 0 && chunks > 0),
        work_of(Route::Delta, sibling_signed, Some((file_size, chunks))) == DeltaWork::Stream <==> (
        file_size == 0 || chunks == 0),
        work_of(Route::Delta, sibling_signed, None) == DeltaWork::Stream,
        work_of(Route::CrossDelta, true, None) == DeltaWork::Sibling,
        work_of(Route::CrossDelta, true, Some((file_size, chunks))) == DeltaWork::Sibling,
        work_of(Route::CrossDelta, false, Some((file_size, chunks))) == DeltaWork::Stream,
        work_of(Route::CrossDelta, false, None) == DeltaWork::Stream,
        work_of(Route::WholeLiteral, sibling_signed, None) == DeltaWork::Whole,
        work_of(Route::WholeLiteral, sibling_signed, Some((file_size, chunks)))
            == DeltaWork::Whole,
        work_of(Route::Chunked, sibling_signed, None) == DeltaWork::Stream,
        work_of(route, sibling_signed, None) == DeltaWork::Own ==> route == Route::Delta,
        useful(Some((file_size, chunks))) <==> file_size > 0 && chunks > 0,
        !useful(None),
{
}

/// Decide how the content of a file is prepared. `sibling_signed` tells whether
/// the sibling's signature arrived; `basis` is the size and the number of
/// chunks of the destination's signature, if there is one.
pub fn delta_work(route: Route, sibling_signed: bool, basis: Option<(u64, usize)>) -> (r: DeltaWork)
    ensures
        r == work_of(route, sibling_signed, basis),
        r == match route {
            Route::CrossDelta => if sibling_signed {
                DeltaWork::Sibling
            } else {
                DeltaWork::Stream
            },
            Route::WholeLiteral => DeltaWork::Whole,
            Route::Delta => match basis {
                Some((file_size, chunks)) => if file_size != 0 && chunks != 0 {
                    DeltaWork::Own
                } else {
                    DeltaWork::Stream
                },
                None => DeltaWork::Stream,
            },
            _ => DeltaWork::Stream,
        },
{
    match route {
        Route::CrossDelta => if sibling_signed {
            DeltaWork::Sibling
        } else {
            DeltaWork::Stream
        },
        Route::WholeLiteral => DeltaWork::Whole,
        Route::Delta => if basis_is_useful(basis) {
            DeltaWork::Own
        } else {
            DeltaWork::Stream
        },
        _ => DeltaWork::Stream,
    }
}

/// Whether the signature of a referenced file is computed apart.
pub open spec fn signed_apart(route: Route, dependents: int) -> bool {
    dependents > 0 && route != Route::Delta
}

/// Whether the chunk signature of a source is sent along with its delta.
pub open spec fn signature_sent(rollsum: bool, chunks: int) -> bool {
    !rollsum && chunks > 0
}

/// Whether the files that are sent as deltas against a file may go on.
pub open spec fn feeds(sent: u64, expected: u64, has_signature: bool) -> bool {
    sent == expected && has_signature
}

/// A file that others are sent against is signed one way or the other: by its own
/// delta, or apart; a file that none is sent against is not signed apart. Others
/// are sent against it only if it arrived with exactly the size that was scanned
/// and its signature is there; and a signature of fixed blocks, or of nothing, is
/// never sent along.
pub proof fn law_references_are_signed_and_whole(
    route: Route,
    dependents: int,
    sent: u64,
    expected: u64,
    chunks: int,
)
    ensures
        dependents > 0 ==> signed_apart(route, dependents) || route == Route::Delta,
        signed_apart(route, dependents) ==> dependents > 0,
        signed_apart(Route::Delta, dependents) == false,
        sent != expected ==> !feeds(sent, expected, true),
        !feeds(sent, expected, false),
        feeds(expected, expected, true),
        !signature_sent(true, chunks),
        signature_sent(false, chunks) <==> chunks > 0,
{
}

/// Whether the signature of a referenced file is computed apart: a delta
/// against the file's own former version gives it for free, nothing else does.
pub fn signs_apart(route: Route, dependents: usize) -> (r: bool)
    ensures
        r == signed_apart(route, dependents as int),
        r == (dependents > 0 && route != Route::Delta),
{
    match route {
        Route::Delta => false,
        _ => dependents > 0,
    }
}

/// Whether the chunk signature of a source is sent along with its delta: only
/// content-defined chunks are, and only if there are any.
pub fn sends_signature(rollsum: bool, chunks: usize) -> (r: bool)
    ensures
        r == signature_sent(rollsum, chunks as int),
        r == (!rollsum && chunks > 0),
{
    !rollsum && chunks > 0
}

/// Whether the files that are sent as deltas against a file may go on: only
/// when that file arrived as it was scanned, and its signature is known.
pub fn feeds_dependents(sent: u64, expected: u64, has_signature: bool) -> (r: bool)
    ensures
        r == feeds(sent, expected, has_signature),
        r == (sent == expected && has_signature),
{
    sent == expected && has_signature
}

/// Whether a computed delta is discarded and the file streamed: too many
/// literal bytes for one frame, or a sibling basis that matched less than half.
pub open spec fn streams_instead(
    literal_bytes: int,
    matched_bytes: int,
    source_size: int,
    sibling: bool,
) -> bool {
    literal_bytes > sender::DELTA_LITERAL_CHUNK_LIMIT || (sibling && 2 * matched_bytes
        < source_size)
}

/// Whether a computed delta is discarded and the file streamed.
pub fn stream_instead(literal_bytes: u64, matched_bytes: u64, source_size: u64, sibling: bool) -> (r:
    bool)
    ensures
        r == streams_instead(
            literal_bytes as int,
            matched_bytes as int,
            source_size as int,
            sibling,
        ),
{
    literal_bytes > sender::DELTA_LITERAL_CHUNK_LIMIT || (sibling && matched_bytes < source_size
        - matched_bytes.min(source_size))
}

/// The model of [`Totals`].
pub struct TotalsV {
    pub bytes: int,
    pub files: int,
    pub transferred: Seq<(Seq<char>, Seq<u8>)>,
    pub skipped: Seq<(Seq<char>, Seq<char>)>,
}

/// The model of a list of transferred files.
pub open spec fn sent_views(v: Seq<(String, [u8; 32])>) -> Seq<(Seq<char>, Seq<u8>)> {
    v.map_values(|p: (String, [u8; 32])| (p.0@, p.1@))
}

/// The model of a list of skipped files.
pub open spec fn skip_views(v: Seq<SkippedFile>) -> Seq<(Seq<char>, Seq<char>)> {
    v.map_values(|s: SkippedFile| s@)
}

/// The digest that a recipe carries, or the one that stands for none.
pub open spec fn carried_digest(checksum: Option<[u8; 32]>) -> Seq<u8> {
    match checksum {
        Some(h) => h@,
        None => digest::no_digest(),
    }
}

impl TotalsV {
    /// After `n` directories.
    pub open spec fn dirs(self, n: int) -> TotalsV {
        TotalsV { files: self.files + n, ..self }
    }

    /// After a file was sent whole.
    pub open spec fn sent(self, rel: Seq<char>, expected: u64, sent: u64, hash: Seq<u8>) -> TotalsV {
        let counted = TotalsV { bytes: self.bytes + sent, files: self.files + 1, ..self };
        if sent == expected {
            TotalsV { transferred: self.transferred.push((rel, hash)), ..counted }
        } else {
            TotalsV {
                skipped: self.skipped.push((rel, "source changed during transfer; not removed"@)),
                ..counted
            }
        }
    }

    /// After a file could not be sent.
    pub open spec fn failed(self, rel: Seq<char>, reason: Seq<char>) -> TotalsV {
        TotalsV { skipped: self.skipped.push((rel, reason)), ..self }
    }

    /// After a file failed: what concerns the file alone skips it, and what
    /// concerns the connection ends the run.
    pub open spec fn settled(self, rel: Seq<char>, failure: SendFailureV) -> Result<
        TotalsV,
        ErrorV,
    > {
        match failure {
            SendFailureV::Source(m) => Ok(self.failed(rel, m)),
            SendFailureV::Delta(m) => Ok(self.failed(rel, m)),
            SendFailureV::Session(e) => Err(e),
        }
    }

    /// After the first `n` items of a batch.
    pub open spec fn batch(self, items: Seq<BatchItem>, n: int) -> TotalsV
        decreases n,
    {
        if n <= 0 {
            self
        } else {
            let front = self.batch(items, n - 1);
            let item = items[n - 1];
            TotalsV {
                bytes: front.bytes + item.data@.len(),
                files: front.files + 1,
                transferred: front.transferred.push(
                    (
                        item.file_path@,
                        match item.checksum {
                            Some(h) => h@,
                            None => digest::no_digest(),
                        },
                    ),
                ),
                ..front
            }
        }
    }
}

/// Why sending a file failed.
#[derive(Debug, Clone)]
pub enum SendFailure {
    /// The source could not be read, or is gone.
    Source(String),
    /// The delta could not be computed.
    Delta(String),
    /// The connection or the protocol failed.
    Session(SessionError),
}

/// The model of [`SendFailure`].
pub enum SendFailureV {
    Source(Seq<char>),
    Delta(Seq<char>),
    Session(ErrorV),
}

impl View for SendFailure {
    type V = SendFailureV;

    open spec fn view(&self) -> SendFailureV {
        match self {
            SendFailure::Source(m) => SendFailureV::Source(m@),
            SendFailure::Delta(m) => SendFailureV::Delta(m@),
            SendFailure::Session(e) => SendFailureV::Session(e@),
        }
    }
}

/// What a run has sent so far.
#[derive(Debug)]
pub struct Totals {
    /// Content bytes of the files sent.
    pub bytes: u64,
    /// Files and directories sent.
    pub files: u64,
    /// The files whose content was sent, with the digest of that content.
    pub transferred: Vec<(String, [u8; 32])>,
    /// The files that were skipped.
    pub skipped: Vec<SkippedFile>,
}

impl View for Totals {
    type V = TotalsV;

    open spec fn view(&self) -> TotalsV {
        TotalsV {
            bytes: self.bytes as int,
            files: self.files as int,
            transferred: sent_views(self.transferred@),
            skipped: skip_views(self.skipped@),
        }
    }
}

impl Totals {
    /// Nothing sent yet.
    pub fn new() -> (r: Self)
        ensures
            r@ == (TotalsV {
                bytes: 0,
                files: 0,
                transferred: Seq::empty(),
                skipped: Seq::empty(),
            }),
    {
        let r = Totals { bytes: 0, files: 0, transferred: Vec::new(), skipped: Vec::new() };
        proof {
            assert(r@.transferred =~= Seq::empty());
            assert(r@.skipped =~= Seq::empty());
        }
        r
    }

    /// Count the directories announced.
    pub fn add_dirs(&mut self, n: u64)
        requires
            old(self)@.files + n <= u64::MAX,
        ensures
            final(self)@ == old(self)@.dirs(n as int),
    {
        self.files += n;
    }

    /// Count a file that was sent. When it did not have the scanned size its
    /// source changed in the meantime, so it must never be removed: it is
    /// reported as skipped instead of transferred.
    fn add_sent(&mut self, rel: String, expected: u64, sent: u64, hash: [u8; 32])
        requires
            old(self)@.files < u64::MAX,
            old(self)@.bytes + sent <= u64::MAX,
        ensures
            final(self)@ == old(self)@.sent(rel@, expected, sent, hash@),
    {
        let ghost was = *self;
        self.bytes += sent;
        self.files += 1;
        if sent == expected {
            self.transferred.push((rel, hash));
            proof {
                assert(sent_views(self.transferred@) =~= sent_views(was.transferred@).push(
                    (rel@, hash@),
                ));
            }
        } else {
            source_changed(rel, &mut self.skipped);
        }
    }

    /// Count a file that was streamed, under the digest of the bytes that were
    /// streamed; gives the number of those bytes.
    pub fn add_stream(&mut self, rel: String, expected: u64, stream: ChunkStream) -> (sent: u64)
        requires
            old(self)@.files < u64::MAX,
            old(self)@.bytes + stream@.sent <= u64::MAX,
        ensures
            sent == stream@.sent,
            final(self)@ == old(self)@.sent(
                rel@,
                expected,
                sent,
                digest::digest_of(stream@.content),
            ),
    {
        let (sent, _, hash) = stream.finish();
        self.add_sent(rel, expected, sent, hash);
        sent
    }

    /// Count a file that was sent as a recipe, under the digest that the recipe
    /// carries; gives the size of the file.
    pub fn add_recipe(&mut self, rel: String, expected: u64, delta: &Delta) -> (sent: u64)
        requires
            old(self)@.files < u64::MAX,
            old(self)@.bytes + delta.source_size <= u64::MAX,
        ensures
            sent == delta.source_size,
            final(self)@ == old(self)@.sent(rel@, expected, sent, carried_digest(delta.checksum)),
    {
        let hash: [u8; 32] = match delta.checksum {
            Some(h) => h,
            None => [0u8; 32],
        };
        assert(delta.checksum is None ==> hash@ =~= digest::no_digest());
        self.add_sent(rel, expected, delta.source_size, hash);
        delta.source_size
    }

    /// Go on behind a file that failed. What concerns the file alone skips it and
    /// reports it; what concerns the connection ends the run.
    pub fn settle_failure(&mut self, rel: String, failure: SendFailure) -> (r: Result<
        (),
        SessionError,
    >)
        ensures
            match old(self)@.settled(rel@, failure@) {
                Ok(now) => r is Ok && final(self)@ == now,
                Err(e) => (r matches Err(x) && x@ == e) && final(self)@ == old(self)@,
            },
            match failure@ {
                SendFailureV::Source(m) | SendFailureV::Delta(m) => r is Ok && final(self)@ == old(
                    self,
                )@.failed(rel@, m),
                SendFailureV::Session(e) => (r matches Err(x) && x@ == e) && final(self)@ == old(
                    self,
                )@,
            },
    {
        match failure {
            SendFailure::Source(m) => {
                self.add_failed(rel, m);
                Ok(())
            },
            SendFailure::Delta(m) => {
                self.add_failed(rel, m);
                Ok(())
            },
            SendFailure::Session(e) => Err(e),
        }
    }

    /// Report a file that could not be sent.
    pub fn add_failed(&mut self, rel: String, reason: String)
        ensures
            final(self)@ == old(self)@.failed(rel@, reason@),
    {
        skip_file(rel, reason, &mut self.skipped);
    }

    /// Count the files of a batch that was sent.
    pub fn add_batch(&mut self, items: &Vec<BatchItem>)
        requires
            old(self)@.batch(items@, items.len() as int).bytes <= u64::MAX,
            old(self)@.batch(items@, items.len() as int).files <= u64::MAX,
        ensures
            final(self)@ == old(self)@.batch(items@, items.len() as int),
    {
        let ghost start = self@;
        let mut i: usize = 0;
        while i < items.len()
            invariant
                i <= items.len(),
                self@ == start.batch(items@, i as int),
                start.batch(items@, items.len() as int).bytes <= u64::MAX,
                start.batch(items@, items.len() as int).files <= u64::MAX,
            decreases items.len() - i,
        {
            proof {
                lemma_batch_grows(start, items@, i + 1, items.len() as int);
            }
            let ghost was = *self;
            let item = &items[i];
            let hash: [u8; 32] = match item.checksum {
                Some(h) => h,
                None => [0u8; 32],
            };
            assert(item.checksum is None ==> hash@ =~= digest::no_digest());
            self.bytes += item.data.len() as u64;
            self.files += 1;
            let rel = text::copy_str(item.file_path.as_str());
            self.transferred.push((rel, hash));
            assert(sent_views(self.transferred@) =~= sent_views(was.transferred@).push(
                (rel@, hash@),
            ));
            i += 1;
        }
    }
}

proof fn lemma_batch_grows(t: TotalsV, items: Seq<BatchItem>, a: int, b: int)
    requires
        0 <= a <= b,
    ensures
        t.batch(items, a).bytes <= t.batch(items, b).bytes,
        t.batch(items, a).files <= t.batch(items, b).files,
    decreases b - a,
{
    if a < b {
        lemma_batch_grows(t, items, a, b - 1);
    }
}

/// Report a file that could not be sent.
pub fn skip_file(rel: String, reason: String, skipped: &mut Vec<SkippedFile>)
    ensures
        skip_views(final(skipped)@) == skip_views(old(skipped)@).push((rel@, reason@)),
{
    let ghost was = skipped@;
    let s = SkippedFile::new(rel, reason);
    skipped.push(s);
    assert(skip_views(skipped@) =~= skip_views(was).push(s@));
}

/// Report a file whose source changed while it was sent.
pub fn source_changed(rel: String, skipped: &mut Vec<SkippedFile>)
    ensures
        skip_views(final(skipped)@) == skip_views(old(skipped)@).push(
            (rel@, "source changed during transfer; not removed"@),
        ),
{
    skip_file(rel, text::copy_str("source changed during transfer; not removed"), skipped);
}

/// A file counts as transferred only when exactly the scanned number of bytes
/// was sent.
pub proof fn law_changed_sources_are_not_transferred(
    t: TotalsV,
    rel: Seq<char>,
    expected: u64,
    sent: u64,
    hash: Seq<u8>,
)
    requires
        sent != expected,
    ensures
        t.sent(rel, expected, sent, hash).transferred == t.transferred,
        t.sent(rel, expected, sent, hash).skipped.last().0 == rel,
{
}

/// The most bytes of a streamed file in one chunk.
pub const CHUNK_SIZE: usize = 1024 * 1024;

/// Encoded chunks are written together once there are this many bytes.
pub const CHUNK_BATCH_BYTES: usize = 8 * 1024 * 1024;

/// The progress of one streamed file.
pub struct ChunkV {
    /// Content bytes sent.
    pub sent: int,
    /// Encoded bytes that are not written yet.
    pub buffered: int,
    /// The content sent, in a run that verifies.
    pub content: Option<Seq<u8>>,
}

impl ChunkV {
    /// Nothing sent yet.
    pub open spec fn start(verify: bool) -> ChunkV {
        ChunkV {
            sent: 0,
            buffered: 0,
            content: if verify {
                Some(Seq::empty())
            } else {
                None
            },
        }
    }

    /// After a chunk that was encoded into `encoded` bytes.
    pub open spec fn chunk(self, data: Seq<u8>, encoded: int) -> ChunkV {
        ChunkV {
            sent: self.sent + data.len(),
            buffered: if self.buffered + encoded >= CHUNK_BATCH_BYTES {
                0
            } else {
                self.buffered + encoded
            },
            content: digest::taken(self.content, data),
        }
    }

    /// After the first `n` of some chunks.
    pub open spec fn chunks(self, data: Seq<Seq<u8>>, encoded: Seq<int>, n: int) -> ChunkV
        decreases n,
    {
        if n <= 0 {
            self
        } else {
            self.chunks(data, encoded, n - 1).chunk(data[n - 1], encoded[n - 1])
        }
    }
}

/// The digest of a streamed file is that of everything that was streamed: in a
/// run that verifies, the content followed is the chunks put together, and as
/// long as what was counted.
pub proof fn law_streams_are_digested_whole(
    verify: bool,
    data: Seq<Seq<u8>>,
    encoded: Seq<int>,
)
    requires
        data.len() == encoded.len(),
    ensures
        ({
            let end = ChunkV::start(verify).chunks(data, encoded, data.len() as int);
            &&& end.sent == digest::put_together(data).len()
            &&& end.content == if verify {
                Some(digest::put_together(data))
            } else {
                None
            }
        }),
{
    lemma_chunks(verify, data, encoded, data.len() as int);
    assert(data.take(data.len() as int) =~= data);
}

proof fn lemma_chunks(verify: bool, data: Seq<Seq<u8>>, encoded: Seq<int>, n: int)
    requires
        0 <= n <= data.len(),
    ensures
        ({
            let end = ChunkV::start(verify).chunks(data, encoded, n);
            &&& end.sent == digest::put_together(data.take(n)).len()
            &&& end.content == if verify {
                Some(digest::put_together(data.take(n)))
            } else {
                None
            }
        }),
    decreases n,
{
    if n > 0 {
        lemma_chunks(verify, data, encoded, n - 1);
        assert(data.take(n).drop_last() =~= data.take(n - 1));
        assert(data.take(n).last() == data[n - 1]);
    }
}

/// The progress of one streamed file on the sending side.
#[derive(Debug)]
pub struct ChunkStream {
    sent: u64,
    buffered: usize,
    content: ContentDigest,
}

impl View for ChunkStream {
    type V = ChunkV;

    closed spec fn view(&self) -> ChunkV {
        ChunkV {
            sent: self.sent as int,
            buffered: self.buffered as int,
            content: self.content@,
        }
    }
}

impl ChunkStream {
    /// Nothing sent yet. A run that verifies follows the content.
    pub fn new(verify: bool) -> (r: Self)
        ensures
            r@ == ChunkV::start(verify),
    {
        ChunkStream { sent: 0, buffered: 0, content: ContentDigest::new(verify) }
    }

    /// A chunk was encoded into `encoded` bytes. The result tells whether the
    /// encoded chunks are to be written now.
    pub fn add_chunk(&mut self, data: &[u8], encoded: usize) -> (write_now: bool)
        requires
            old(self)@.sent + data@.len() <= u64::MAX,
            old(self)@.buffered + encoded <= usize::MAX,
        ensures
            write_now == (old(self)@.buffered + encoded >= CHUNK_BATCH_BYTES),
            final(self)@ == old(self)@.chunk(data@, encoded as int),
    {
        self.content.update(data);
        self.sent += data.len() as u64;
        self.buffered += encoded;
        if self.buffered >= CHUNK_BATCH_BYTES {
            self.buffered = 0;
            true
        } else {
            false
        }
    }

    /// Whether encoded chunks are still to be written.
    pub fn is_unwritten(&self) -> (r: bool)
        ensures
            r == (self@.buffered > 0),
    {
        self.buffered > 0
    }

    /// The stream ends: gives the content bytes sent, whether encoded chunks
    /// are still to be written, and the digest of the content.
    pub fn finish(self) -> (r: (u64, bool, [u8; 32]))
        ensures
            r.0 == self@.sent,
            r.1 == (self@.buffered > 0),
            r.2@ == digest::digest_of(self@.content),
    {
        let hash = self.content.finalize();
        (self.sent, self.buffered > 0, hash)
    }
}

/// A file that was sent with exactly the size that was scanned is on the list of
/// transferred files under its own path and digest; sent or not, its bytes count
/// and it counts once. A file that could not be sent counts nothing and is
/// recorded with the reason.
pub proof fn law_sent_files_are_counted(
    t: TotalsV,
    rel: Seq<char>,
    expected: u64,
    sent: u64,
    hash: Seq<u8>,
    reason: Seq<char>,
    n: int,
)
    ensures
        ({
            let s = t.sent(rel, expected, sent, hash);
            let f = t.failed(rel, reason);
            let d = t.dirs(n);
            &&& s.files == t.files + 1 && s.bytes == t.bytes + sent
            &&& sent == expected ==> s.transferred == t.transferred.push((rel, hash)) && s.skipped
                == t.skipped
            &&& sent != expected ==> s.transferred == t.transferred && s.skipped.len()
                == t.skipped.len() + 1 && s.skipped.last() == (
                rel,
                "source changed during transfer; not removed"@,
            )
            &&& f.files == t.files && f.bytes == t.bytes && f.transferred == t.transferred
            &&& f.skipped == t.skipped.push((rel, reason))
            &&& d.files == t.files + n && d.bytes == t.bytes && d.transferred == t.transferred
                && d.skipped == t.skipped
        }),
{
}

/// Every file of a batch counts: once, with the bytes of its content, and as
/// transferred under its own path with its own digest.
pub proof fn law_batches_are_counted(t: TotalsV, items: Seq<BatchItem>, n: int, i: int)
    requires
        0 <= i < n <= items.len(),
    ensures
        ({
            let b = t.batch(items, n);
            &&& b.files == t.files + n
            &&& b.skipped == t.skipped
            &&& b.transferred.len() == t.transferred.len() + n
            &&& b.transferred[t.transferred.len() + i].0 == items[i].file_path@
            &&& items[i].checksum matches Some(h) ==> b.transferred[t.transferred.len() + i].1
                == h@
            &&& items[i].checksum is None ==> b.transferred[t.transferred.len() + i].1.len() == 32
                && b.transferred[t.transferred.len() + i].1[0] == 0
            &&& b.bytes == t.batch(items, n - 1).bytes + items[n - 1].data@.len()
        }),
        t.batch(items, 0) == t,
    decreases n,
{
    reveal_with_fuel(TotalsV::batch, 2);
    if n > 1 {
        law_batches_are_counted(
            t,
            items,
            n - 1,
            if i < n - 1 {
                i
            } else {
                0
            },
        );
    }
}

/// In a run that verifies a file travels with the digest of its own content, and
/// otherwise with none.
pub proof fn law_digests_are_of_the_content(data: Seq<u8>)
    ensures
        digest_if(true, data) == Some(digest::blake3_of(data)),
        digest_if(false, data) is None,
{
}

/// A computed delta is given up exactly when it carries more than 256 MiB
/// literally, or is against a sibling that gave less than half of the file.
pub proof fn law_poor_deltas_are_streamed(
    literal_bytes: int,
    matched_bytes: int,
    source_size: int,
)
    ensures
        streams_instead(literal_bytes, matched_bytes, source_size, false) <==> literal_bytes
            > 268_435_456,
        streams_instead(literal_bytes, matched_bytes, source_size, true) <==> literal_bytes
            > 268_435_456 || matched_bytes + matched_bytes < source_size,
{
}

/// The routes that carry content are jobs, and no others are.
pub proof fn law_content_routes_are_jobs(r: Route)
    ensures
        is_job(r) <==> !(r == Route::Directory || r == Route::Link || r == Route::HardLink || r
            == Route::Special || r == Route::Ignored),
{
}

/// Every task that carries content is among the jobs, and nothing else is, in the
/// order of the plan.
pub proof fn law_jobs_are_the_tasks_with_content(routes: Seq<Route>, n: int, i: int, k: int)
    requires
        0 <= n <= routes.len(),
    ensures
        0 <= i < n && is_job(routes[i]) ==> jobs_before(routes, n).contains(i),
        0 <= k < jobs_before(routes, n).len() ==> 0 <= jobs_before(routes, n)[k] < n && is_job(
            routes[jobs_before(routes, n)[k]],
        ),
        forall|a: int, b: int|
            0 <= a < b < jobs_before(routes, n).len() ==> #[trigger] jobs_before(routes, n)[a]
                < #[trigger] jobs_before(routes, n)[b],
        forall|a: int|
            0 <= a < jobs_before(routes, n).len() ==> #[trigger] jobs_before(routes, n)[a] < n,
    decreases n,
{
    if n > 0 {
        law_jobs_are_the_tasks_with_content(routes, n - 1, i, k);
        let front = jobs_before(routes, n - 1);
        let all = jobs_before(routes, n);
        if 0 <= i < n && is_job(routes[i]) {
            if i == n - 1 {
                assert(all.last() == i);
            } else {
                let a = choose|a: int| 0 <= a < front.len() && front[a] == i;
                assert(all[a] == i);
            }
        }
        assert forall|a: int, b: int| 0 <= a < b < all.len() implies #[trigger] all[a]
            < #[trigger] all[b] by {
            assert(all[a] == front[a]);
            if b < front.len() {
                assert(all[b] == front[b]);
            }
        }
    }
}

/// What each step does to what is in flight: a read is counted while it runs and
/// its content is held until the next batch, which sends all of it; a computation
/// is counted until it is sent. Each job is started by the step of its own route.
pub proof fn law_steps_account_for_the_work(v: RunV, len: u64)
    requires
        v.valid(),
        !v.joining,
    ensures
        ({
            let (w, s) = v.step();
            &&& s is StartRead <==> w.reads == v.reads + 1
            &&& s is JoinRead <==> w.reads == v.reads - 1
            &&& s is JoinRead <==> w.joining
            &&& s is StartDelta <==> w.pending == v.pending + 1
            &&& s is JoinDelta <==> w.pending == v.pending - 1
            &&& s is SendBatch ==> v.held > 0 && v.reads == 0 && w.held == 0 && w.held_bytes == 0
            &&& !(s is SendBatch) ==> w.held == v.held && w.held_bytes == v.held_bytes
            &&& s is SendLinks <==> w.links_sent && !v.links_sent
            &&& s is Finished ==> v.links_sent && v.held == 0 && v.pending == 0 && v.reads == 0
            &&& s matches Step::StartRead(k) ==> k < v.routes.len() && v.routes[k as int]
                == Route::Batch
            &&& s matches Step::SendChunked(k) ==> k < v.routes.len() && v.routes[k as int]
                == Route::Chunked
            &&& s matches Step::StartDelta(k) ==> k < v.routes.len() && (v.routes[k as int]
                == Route::Delta || v.routes[k as int] == Route::CrossDelta || v.routes[k as int]
                == Route::WholeLiteral)
            &&& s is StartRead && v.held_bytes >= 134_217_728 ==> w.flushing
            &&& s is StartRead && v.held_bytes < 134_217_728 ==> !w.flushing
            &&& s is JoinRead ==> w.read(Some(len)).held == w.held + 1 && w.read(
                Some(len),
            ).held_bytes == w.held_bytes + len && w.read(None).held == w.held && w.read(
                None,
            ).held_bytes == w.held_bytes && !w.read(None).joining && !w.read(Some(len)).joining
        }),
{
    lemma_next_job(v.routes, v.at);
}

/// A streamed file's chunks are written together once 8 MiB of them are encoded,
/// and none is forgotten: what is not written is still counted.
pub proof fn law_encoded_chunks_are_written(c: ChunkV, data: Seq<u8>, encoded: int)
    requires
        c.buffered >= 0,
        encoded >= 0,
    ensures
        ({
            let d = c.chunk(data, encoded);
            &&& d.sent == c.sent + data.len()
            &&& c.buffered + encoded >= 8_388_608 ==> d.buffered == 0
            &&& c.buffered + encoded < 8_388_608 ==> d.buffered == c.buffered + encoded
            &&& c.content is None ==> d.content is None
            &&& c.content matches Some(x) ==> d.content == Some(x + data)
        }),
{
}

/// A delta that carries a digest is told with it, and one without as undigested,
/// by zeros.
pub proof fn law_carried_digests_are_told(h: [u8; 32], i: int)
    ensures
        carried_digest(Some(h)) == h@,
        carried_digest(None).len() == 32,
        0 <= i < 32 ==> carried_digest(None)[i] == 0,
{
}

/// A run is kept busy: the next task with content is started as soon as there is
/// room for it, 32 reads and as many deltas as there are workers may be under
/// way at a time, and only what does not fit waits for something to end.
pub proof fn law_tasks_start_as_soon_as_there_is_room(v: RunV, next: int, jobs: int)
    requires
        v.valid(),
        !v.joining,
        !v.flushing,
        v.at <= next < v.routes.len(),
        is_job(v.routes[next]),
        forall|k: int| v.at <= k < next ==> !is_job(#[trigger] v.routes[k]),
    ensures
        v.routes[next] == Route::Batch && v.reads < 32 ==> v.step().1 == Step::StartRead(
            next as usize,
        ),
        v.routes[next] == Route::Batch && v.reads >= 32 ==> v.step().1 == Step::JoinRead,
        v.routes[next] == Route::Chunked ==> v.step().1 == Step::SendChunked(next as usize),
        v.routes[next] != Route::Batch && v.routes[next] != Route::Chunked && v.pending < v.window
            ==> v.step().1 == Step::StartDelta(next as usize),
        v.routes[next] != Route::Batch && v.routes[next] != Route::Chunked && v.pending >= v.window
            ==> v.step().1 == Step::JoinDelta,
        jobs >= 1 ==> RunV::start(v.routes, jobs).window == jobs,
        jobs < 1 ==> RunV::start(v.routes, jobs).window == 1,
{
    lemma_next_job(v.routes, v.at);
    let job = next_job(v.routes, v.at);
    if job < next {
        assert(!is_job(v.routes[job]));
    }
    if next < job {
        assert(!is_job(v.routes[next]));
    }
}

/// Once every task was started what is under way is waited for, what was read is
/// sent, then the links, and nothing is sent twice.
pub proof fn law_runs_wind_down_in_order(v: RunV)
    requires
        v.valid(),
        !v.joining,
        !v.flushing,
        forall|k: int| v.at <= k < v.routes.len() ==> !is_job(#[trigger] v.routes[k]),
    ensures
        v.pending > 0 ==> v.step().1 == Step::JoinDelta,
        v.pending == 0 && v.reads > 0 ==> v.step().1 == Step::JoinRead,
        v.pending == 0 && v.reads == 0 && v.held > 0 ==> v.step().1 == Step::SendBatch,
        v.pending == 0 && v.reads == 0 && v.held == 0 && !v.links_sent ==> v.step().1
            == Step::SendLinks,
        v.pending == 0 && v.reads == 0 && v.held == 0 && v.links_sent ==> v.step().1
            == Step::Finished,
{
    lemma_next_job(v.routes, v.at);
}

/// A file that cannot be read or compared is skipped with its reason and the run
/// goes on; a failure of the connection ends it and is passed on.
pub proof fn law_one_failed_file_does_not_end_a_run(
    t: TotalsV,
    rel: Seq<char>,
    reason: Seq<char>,
    e: ErrorV,
)
    ensures
        t.settled(rel, SendFailureV::Source(reason)) matches Ok(s) && s.skipped == t.skipped.push(
            (rel, reason),
        ) && s.files == t.files && s.bytes == t.bytes && s.transferred == t.transferred,
        t.settled(rel, SendFailureV::Delta(reason)) == t.settled(rel, SendFailureV::Source(reason)),
        t.settled(rel, SendFailureV::Session(e)) == Err::<TotalsV, ErrorV>(e),
{
}

/// The model of what a run has sent shows its counts and lists as they are.
pub proof fn law_models_show_the_totals(t: Totals, i: int)
    ensures
        t@.bytes == t.bytes,
        t@.files == t.files,
        t@.transferred.len() == t.transferred@.len(),
        t@.skipped.len() == t.skipped@.len(),
        0 <= i < t.transferred@.len() ==> t@.transferred[i] == (
            t.transferred@[i].0@,
            t.transferred@[i].1@,
        ),
        0 <= i < t.skipped@.len() ==> t@.skipped[i] == (
            t.skipped@[i].path@,
            t.skipped@[i].reason@,
        ),
{
}

} // verus!
