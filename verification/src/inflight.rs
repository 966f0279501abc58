//! The applies that are in flight: which are waited for, and when.

use vstd::prelude::*;

use crate::protocol;
use crate::receiver::{ApplyOutcome, ApplyV};
use crate::text;

verus! {

/// An apply that is in flight: its number, and the path that it applies, or
/// `None` for a part of a batch.
#[derive(Debug, Clone)]
pub struct Job {
    /// Its number.
    pub id: u64,
    /// The path of a single file.
    pub path: Option<String>,
}

/// The model of [`Job`].
pub struct JobV {
    pub id: int,
    pub path: Option<Seq<char>>,
}

impl View for Job {
    type V = JobV;

    open spec fn view(&self) -> JobV {
        JobV { id: self.id as int, path: text::opt_view(self.path) }
    }
}

/// The models of a sequence of jobs.
pub open spec fn job_views(v: Seq<Job>) -> Seq<JobV> {
    v.map_values(|j: Job| j@)
}

/// Which jobs are waited for.
pub enum Wait {
    /// Those that apply this path.
    Path(Seq<char>),
    /// The parts of batches.
    Batches,
    /// The single files.
    Files,
}

impl Wait {
    /// Whether a job is waited for.
    pub open spec fn takes(self, j: JobV) -> bool {
        match self {
            Wait::Path(p) => j.path == Some(p),
            Wait::Batches => j.path is None,
            Wait::Files => j.path is Some,
        }
    }
}

/// The numbers of those of the first `n` jobs that are waited for.
pub open spec fn taken(jobs: Seq<JobV>, w: Wait, n: int) -> Seq<int>
    decreases n,
{
    if n <= 0 {
        Seq::empty()
    } else if w.takes(jobs[n - 1]) {
        taken(jobs, w, n - 1).push(jobs[n - 1].id)
    } else {
        taken(jobs, w, n - 1)
    }
}

/// Those of the first `n` jobs that are not waited for.
pub open spec fn left(jobs: Seq<JobV>, w: Wait, n: int) -> Seq<JobV>
    decreases n,
{
    if n <= 0 {
        Seq::empty()
    } else if w.takes(jobs[n - 1]) {
        left(jobs, w, n - 1)
    } else {
        left(jobs, w, n - 1).push(jobs[n - 1])
    }
}

/// What happens to the applies of a run.
pub enum ApplyEvent {
    /// An apply starts.
    Start(Option<Seq<char>>),
    /// The apply of a path is waited for, because its file is read next.
    Basis(Seq<char>),
    /// Everything is waited for.
    Drain,
}

/// The model of [`Applies`].
pub struct AppliesV {
    /// The number of the next apply.
    pub next: int,
    /// The applies in flight.
    pub running: Seq<JobV>,
}

impl AppliesV {
    /// Nothing in flight.
    pub open spec fn none() -> AppliesV {
        AppliesV { next: 0, running: Seq::empty() }
    }

    /// After an apply started.
    pub open spec fn start(self, path: Option<Seq<char>>) -> AppliesV {
        AppliesV {
            next: self.next + 1,
            running: self.running.push(JobV { id: self.next, path }),
        }
    }

    /// After some were waited for.
    pub open spec fn without(self, w: Wait) -> AppliesV {
        AppliesV { running: left(self.running, w, self.running.len() as int), ..self }
    }

    /// The numbers of those that are waited for.
    pub open spec fn waited(self, w: Wait) -> Seq<int> {
        taken(self.running, w, self.running.len() as int)
    }

    /// What an event leaves in flight.
    pub open spec fn after(self, e: ApplyEvent) -> AppliesV {
        match e {
            ApplyEvent::Start(path) => self.start(path),
            ApplyEvent::Basis(p) => self.without(Wait::Path(p)),
            ApplyEvent::Drain => AppliesV { running: Seq::empty(), ..self },
        }
    }

    /// Which applies are waited for at an event, in order: before everything is
    /// settled, the batches and then the single files.
    pub open spec fn joined(self, e: ApplyEvent) -> Seq<int> {
        match e {
            ApplyEvent::Start(_) => Seq::empty(),
            ApplyEvent::Basis(p) => self.waited(Wait::Path(p)),
            ApplyEvent::Drain => self.waited(Wait::Batches) + self.waited(Wait::Files),
        }
    }
}

/// What is in flight after the first `n` events of a run.
pub open spec fn state_after(events: Seq<ApplyEvent>, n: int) -> AppliesV
    decreases n,
{
    if n <= 0 {
        AppliesV::none()
    } else {
        state_after(events, n - 1).after(events[n - 1])
    }
}

/// The applies that the first `n` events of a run have waited for, in order.
pub open spec fn joined_by(events: Seq<ApplyEvent>, n: int) -> Seq<int>
    decreases n,
{
    if n <= 0 {
        Seq::empty()
    } else {
        joined_by(events, n - 1) + state_after(events, n - 1).joined(events[n - 1])
    }
}

/// The applies of a receiving run that are in flight.
#[derive(Debug)]
pub struct Applies {
    next: u64,
    running: Vec<Job>,
}

impl View for Applies {
    type V = AppliesV;

    closed spec fn view(&self) -> AppliesV {
        AppliesV { next: self.next as int, running: job_views(self.running@) }
    }
}

impl Applies {
    /// Nothing in flight.
    pub fn new() -> (r: Applies)
        ensures
            r@ == AppliesV::none(),
    {
        let r = Applies { next: 0, running: Vec::new() };
        assert(r@.running =~= Seq::<JobV>::empty());
        r
    }

    /// Whether another apply can be numbered.
    pub fn has_room(&self) -> (r: bool)
        ensures
            r == (self@.next < u64::MAX),
    {
        self.next < u64::MAX
    }

    /// An apply starts; gives its number. `path` is that of a single file.
    pub fn start(&mut self, path: Option<String>) -> (id: u64)
        requires
            old(self)@.next < u64::MAX,
        ensures
            id == old(self)@.next,
            final(self)@ == old(self)@.after(ApplyEvent::Start(text::opt_view(path))),
    {
        let id: u64 = self.next;
        let ghost was = self.running@;
        let job = Job { id, path };
        self.running.push(job);
        self.next += 1;
        assert(job_views(self.running@) =~= job_views(was).push(job@));
        id
    }

    /// A file is read that may be in flight: gives the applies to wait for
    /// first.
    pub fn join_basis(&mut self, basis: &str) -> (ids: Vec<u64>)
        ensures
            numbers(ids@) == old(self)@.joined(ApplyEvent::Basis(basis@)),
            final(self)@ == old(self)@.after(ApplyEvent::Basis(basis@)),
    {
        let ghost w = Wait::Path(basis@);
        let ghost all = self@.running;
        let mut ids: Vec<u64> = Vec::new();
        let mut keep: Vec<Job> = Vec::new();
        let mut i: usize = 0;
        assert(numbers(ids@) =~= Seq::<int>::empty());
        assert(job_views(keep@) =~= Seq::<JobV>::empty());
        while i < self.running.len()
            invariant
                i <= self.running.len(),
                w == Wait::Path(basis@),
                all == job_views(self.running@),
                numbers(ids@) == taken(all, w, i as int),
                job_views(keep@) == left(all, w, i as int),
            decreases self.running.len() - i,
        {
            let job = &self.running[i];
            assert(all[i as int] == job@);
            let hit = match &job.path {
                Some(p) => text::same(p.as_str(), basis),
                None => false,
            };
            let ghost ids0 = ids@;
            let ghost keep0 = keep@;
            if hit {
                ids.push(job.id);
                assert(numbers(ids@) =~= numbers(ids0).push(job.id as int));
            } else {
                let kept = Job { id: job.id, path: protocol::copy_opt(&job.path) };
                keep.push(kept);
                assert(job_views(keep@) =~= job_views(keep0).push(kept@));
            }
            i += 1;
        }
        self.running = keep;
        ids
    }

    /// The tree must be settled: gives all applies to wait for, the batches
    /// first, and leaves nothing in flight.
    pub fn drain(&mut self) -> (ids: Vec<u64>)
        ensures
            numbers(ids@) == old(self)@.joined(ApplyEvent::Drain),
            final(self)@ == old(self)@.after(ApplyEvent::Drain),
    {
        let mut ids = self.collect(true);
        let mut files = self.collect(false);
        let ghost batches = ids@;
        let ghost singles = files@;
        ids.append(&mut files);
        assert(numbers(ids@) =~= numbers(batches) + numbers(singles));
        self.running = Vec::new();
        assert(job_views(self.running@) =~= Seq::<JobV>::empty());
        ids
    }

    /// The numbers of the batches, or of the single files.
    fn collect(&self, batches: bool) -> (ids: Vec<u64>)
        ensures
            numbers(ids@) == self@.waited(
                if batches {
                    Wait::Batches
                } else {
                    Wait::Files
                },
            ),
    {
        let ghost w = if batches {
            Wait::Batches
        } else {
            Wait::Files
        };
        let ghost all = self@.running;
        let mut ids: Vec<u64> = Vec::new();
        let mut i: usize = 0;
        assert(numbers(ids@) =~= Seq::<int>::empty());
        while i < self.running.len()
            invariant
                i <= self.running.len(),
                w == if batches {
                    Wait::Batches
                } else {
                    Wait::Files
                },
                all == job_views(self.running@),
                numbers(ids@) == taken(all, w, i as int),
            decreases self.running.len() - i,
        {
            let job = &self.running[i];
            assert(all[i as int] == job@);
            if job.path.is_none() == batches {
                let ghost ids0 = ids@;
                ids.push(job.id);
                assert(numbers(ids@) =~= numbers(ids0).push(job.id as int));
            }
            i += 1;
        }
        ids
    }
}

/// Numbers as integers.
pub open spec fn numbers(v: Seq<u64>) -> Seq<int> {
    v.map_values(|n: u64| n as int)
}

/// The sum of what `f` gives for some numbers.
pub open spec fn total(f: spec_fn(int) -> int, v: Seq<int>) -> int
    decreases v.len(),
{
    if v.len() == 0 {
        0
    } else {
        total(f, v.drop_last()) + f(v.last())
    }
}

/// The sum of what `f` gives for the numbers below `n`.
pub open spec fn total_below(f: spec_fn(int) -> int, n: int) -> int
    decreases n,
{
    if n <= 0 {
        0
    } else {
        total_below(f, n - 1) + f(n - 1)
    }
}

/// The numbers of some jobs.
pub open spec fn ids_of(jobs: Seq<JobV>) -> Seq<int> {
    jobs.map_values(|j: JobV| j.id)
}

/// 1 for one number, 0 for all others.
pub open spec fn is_number(k: int) -> spec_fn(int) -> int {
    |i: int|
        if i == k {
            1int
        } else {
            0int
        }
}

/// Every apply is waited for exactly once: once a run has settled, each number
/// that was given to an apply occurs once among those waited for, and no other
/// number does.
pub proof fn law_every_apply_is_joined_once(events: Seq<ApplyEvent>, k: int)
    requires
        events.len() > 0,
        events.last() is Drain,
    ensures
        state_after(events, events.len() as int).running.len() == 0,
        joined_by(events, events.len() as int).len() == state_after(
            events,
            events.len() as int,
        ).next,
        total(is_number(k), joined_by(events, events.len() as int)) == if 0 <= k < state_after(
            events,
            events.len() as int,
        ).next {
            1int
        } else {
            0int
        },
{
    let n = events.len() as int;
    let one = |i: int| 1int;
    let s = state_after(events, n);
    lemma_balance(events, n, is_number(k));
    lemma_balance(events, n, one);
    lemma_total_len(joined_by(events, n));
    lemma_below(s.next, k);
    lemma_below_len(s.next);
    lemma_next(events, n);
}

/// A basis is settled before it is read: once it was waited for, nothing in
/// flight applies its path.
pub proof fn law_a_basis_is_settled(s: AppliesV, p: Seq<char>, k: int)
    requires
        0 <= k < s.after(ApplyEvent::Basis(p)).running.len(),
    ensures
        s.after(ApplyEvent::Basis(p)).running[k].path != Some(p),
{
    lemma_left(s.running, Wait::Path(p), s.running.len() as int, k);
}

proof fn lemma_left(jobs: Seq<JobV>, w: Wait, n: int, k: int)
    requires
        0 <= n <= jobs.len(),
        0 <= k < left(jobs, w, n).len(),
    ensures
        !w.takes(left(jobs, w, n)[k]),
    decreases n,
{
    if k < left(jobs, w, n - 1).len() {
        lemma_left(jobs, w, n - 1, k);
    }
}

/// The state of a run after some outcomes were folded, one after another.
pub open spec fn fold_all(s: ApplyV, outcomes: Seq<ApplyOutcome>) -> ApplyV
    decreases outcomes.len(),
{
    if outcomes.len() == 0 {
        s
    } else {
        fold_all(s, outcomes.drop_last()).fold(outcomes.last())
    }
}

/// The state of a run when the applies with these numbers were folded, each with
/// the outcomes that `result` gives for it.
pub open spec fn folded(
    s: ApplyV,
    ids: Seq<int>,
    result: spec_fn(int) -> Seq<ApplyOutcome>,
) -> ApplyV
    decreases ids.len(),
{
    if ids.len() == 0 {
        s
    } else {
        fold_all(folded(s, ids.drop_last(), result), result(ids.last()))
    }
}

/// How many of some outcomes are applied files.
pub open spec fn applied_in(outcomes: Seq<ApplyOutcome>) -> int
    decreases outcomes.len(),
{
    if outcomes.len() == 0 {
        0
    } else {
        applied_in(outcomes.drop_last()) + if outcomes.last() is Applied {
            1int
        } else {
            0int
        }
    }
}

/// Every file that was handed over counts once: when a run has settled, as many
/// files are received as were applied, one record stands for each file that was
/// not, and every digest that an apply gave is reported.
pub proof fn law_every_recipe_is_folded_once(
    s: ApplyV,
    events: Seq<ApplyEvent>,
    result: spec_fn(int) -> Seq<ApplyOutcome>,
)
    requires
        events.len() > 0,
        events.last() is Drain,
    ensures
        ({
            let n = events.len() as int;
            let ids = joined_by(events, n);
            let next = state_after(events, n).next;
            let done = folded(s, ids, result);
            &&& done.files == s.files + total_below(|i: int| applied_in(result(i)), next)
            &&& done.skipped.len() == s.skipped.len() + total_below(
                |i: int| result(i).len() - applied_in(result(i)),
                next,
            )
            &&& forall|k: int, j: int|
                #![trigger result(k)[j]]
                0 <= k < next && 0 <= j < result(k).len() ==> match result(k)[j] {
                    ApplyOutcome::Applied(_, _, Some((rel, h))) => done.hashes.contains(
                        (rel@, h@),
                    ),
                    ApplyOutcome::Applied(_, _, None) => true,
                    ApplyOutcome::Skipped(rel, why) => done.skipped.contains((rel@, why@)),
                }
        }),
{
    let n = events.len() as int;
    let ids = joined_by(events, n);
    let next = state_after(events, n).next;
    let applied = |i: int| applied_in(result(i));
    let others = |i: int| result(i).len() - applied_in(result(i));
    lemma_balance(events, n, applied);
    lemma_balance(events, n, others);
    lemma_folded_counts(s, ids, result);
    let done = folded(s, ids, result);
    assert forall|k: int, j: int|
        #![trigger result(k)[j]]
        0 <= k < next && 0 <= j < result(k).len() implies match result(k)[j] {
        ApplyOutcome::Applied(_, _, Some((rel, h))) => done.hashes.contains((rel@, h@)),
        ApplyOutcome::Applied(_, _, None) => true,
        ApplyOutcome::Skipped(rel, why) => done.skipped.contains((rel@, why@)),
    } by {
        law_every_apply_is_joined_once(events, k);
        let m = lemma_occurs(ids, k);
        lemma_folded_records(s, ids, result, m, j);
    }
}

/// What was waited for and what is in flight add up to all that started.
proof fn lemma_balance(events: Seq<ApplyEvent>, n: int, f: spec_fn(int) -> int)
    requires
        0 <= n <= events.len(),
    ensures
        total(f, joined_by(events, n)) + total(f, ids_of(state_after(events, n).running))
            == total_below(f, state_after(events, n).next),
        state_after(events, n).next >= 0,
    decreases n,
{
    if n == 0 {
        assert(ids_of(Seq::<JobV>::empty()) =~= Seq::<int>::empty());
    } else {
        lemma_balance(events, n - 1, f);
        let s = state_after(events, n - 1);
        let m = s.running.len() as int;
        let e = events[n - 1];
        lemma_total_concat(f, joined_by(events, n - 1), s.joined(e));
        assert(s.running.take(m) =~= s.running);
        match e {
            ApplyEvent::Start(path) => {
                let job = JobV { id: s.next, path };
                assert(ids_of(s.running.push(job)) =~= ids_of(s.running).push(s.next));
                assert(ids_of(s.running).push(s.next).drop_last() =~= ids_of(s.running));
            },
            ApplyEvent::Basis(p) => {
                lemma_total_split(f, s.running, Wait::Path(p), m);
            },
            ApplyEvent::Drain => {
                lemma_total_split(f, s.running, Wait::Batches, m);
                lemma_left_is_files(s.running, m);
                lemma_total_concat(f, s.waited(Wait::Batches), s.waited(Wait::Files));
                assert(ids_of(Seq::<JobV>::empty()) =~= Seq::<int>::empty());
            },
        }
    }
}

proof fn lemma_next(events: Seq<ApplyEvent>, n: int)
    requires
        0 <= n <= events.len(),
    ensures
        state_after(events, n).next >= 0,
    decreases n,
{
    if n > 0 {
        lemma_next(events, n - 1);
    }
}

proof fn lemma_total_concat(f: spec_fn(int) -> int, a: Seq<int>, b: Seq<int>)
    ensures
        total(f, a + b) == total(f, a) + total(f, b),
    decreases b.len(),
{
    if b.len() == 0 {
        assert(a + b =~= a);
    } else {
        lemma_total_concat(f, a, b.drop_last());
        assert((a + b).drop_last() =~= a + b.drop_last());
    }
}

/// Waiting for some divides the jobs in two.
proof fn lemma_total_split(f: spec_fn(int) -> int, jobs: Seq<JobV>, w: Wait, n: int)
    requires
        0 <= n <= jobs.len(),
    ensures
        total(f, ids_of(jobs.take(n))) == total(f, taken(jobs, w, n)) + total(
            f,
            ids_of(left(jobs, w, n)),
        ),
    decreases n,
{
    if n == 0 {
        assert(ids_of(jobs.take(0)) =~= Seq::<int>::empty());
        assert(ids_of(Seq::<JobV>::empty()) =~= Seq::<int>::empty());
    } else {
        lemma_total_split(f, jobs, w, n - 1);
        let job = jobs[n - 1];
        let front = ids_of(jobs.take(n - 1));
        assert(ids_of(jobs.take(n)) =~= front.push(job.id));
        assert(front.push(job.id).drop_last() =~= front);
        if w.takes(job) {
            let t = taken(jobs, w, n - 1);
            assert(t.push(job.id).drop_last() =~= t);
        } else {
            let l = left(jobs, w, n - 1);
            assert(ids_of(l.push(job)) =~= ids_of(l).push(job.id));
            assert(ids_of(l).push(job.id).drop_last() =~= ids_of(l));
        }
    }
}

/// What is no batch is a single file.
proof fn lemma_left_is_files(jobs: Seq<JobV>, n: int)
    requires
        0 <= n <= jobs.len(),
    ensures
        ids_of(left(jobs, Wait::Batches, n)) == taken(jobs, Wait::Files, n),
    decreases n,
{
    if n == 0 {
        assert(ids_of(Seq::<JobV>::empty()) =~= Seq::<int>::empty());
    } else {
        lemma_left_is_files(jobs, n - 1);
        let l = left(jobs, Wait::Batches, n - 1);
        if jobs[n - 1].path is Some {
            assert(ids_of(l.push(jobs[n - 1])) =~= ids_of(l).push(jobs[n - 1].id));
        }
    }
}

proof fn lemma_total_len(v: Seq<int>)
    ensures
        total(|i: int| 1int, v) == v.len(),
    decreases v.len(),
{
    if v.len() > 0 {
        lemma_total_len(v.drop_last());
    }
}

proof fn lemma_below_len(n: int)
    requires
        n >= 0,
    ensures
        total_below(|i: int| 1int, n) == n,
    decreases n,
{
    if n > 0 {
        lemma_below_len(n - 1);
    }
}

proof fn lemma_below(n: int, k: int)
    ensures
        total_below(is_number(k), n) == if 0 <= k < n {
            1int
        } else {
            0int
        },
    decreases n,
{
    if n > 0 {
        lemma_below(n - 1, k);
    }
}

/// A number that is counted occurs.
proof fn lemma_occurs(v: Seq<int>, k: int) -> (m: int)
    requires
        total(is_number(k), v) > 0,
    ensures
        0 <= m < v.len(),
        v[m] == k,
    decreases v.len(),
{
    if v.last() == k {
        v.len() - 1
    } else {
        lemma_occurs(v.drop_last(), k)
    }
}

proof fn lemma_fold_all_counts(s: ApplyV, outcomes: Seq<ApplyOutcome>)
    ensures
        fold_all(s, outcomes).files == s.files + applied_in(outcomes),
        fold_all(s, outcomes).skipped.len() == s.skipped.len() + outcomes.len() - applied_in(
            outcomes,
        ),
        forall|x: (Seq<char>, Seq<char>)| #[trigger]
            s.skipped.contains(x) ==> fold_all(s, outcomes).skipped.contains(x),
        forall|x: (Seq<char>, Seq<u8>)| #[trigger]
            s.hashes.contains(x) ==> fold_all(s, outcomes).hashes.contains(x),
    decreases outcomes.len(),
{
    if outcomes.len() > 0 {
        lemma_fold_all_counts(s, outcomes.drop_last());
        let mid = fold_all(s, outcomes.drop_last());
        lemma_fold_keeps(mid, outcomes.last());
    }
}

/// Folding an outcome keeps what was recorded, and records the outcome.
proof fn lemma_fold_keeps(s: ApplyV, outcome: ApplyOutcome)
    ensures
        forall|x: (Seq<char>, Seq<char>)| #[trigger]
            s.skipped.contains(x) ==> s.fold(outcome).skipped.contains(x),
        forall|x: (Seq<char>, Seq<u8>)| #[trigger]
            s.hashes.contains(x) ==> s.fold(outcome).hashes.contains(x),
        match outcome {
            ApplyOutcome::Applied(_, _, Some((rel, h))) => s.fold(outcome).hashes.contains(
                (rel@, h@),
            ),
            ApplyOutcome::Applied(_, _, None) => true,
            ApplyOutcome::Skipped(rel, why) => s.fold(outcome).skipped.contains((rel@, why@)),
        },
{
    let t = s.fold(outcome);
    assert forall|x: (Seq<char>, Seq<char>)| #[trigger] s.skipped.contains(x) implies
        t.skipped.contains(x) by {
        let i = choose|i: int| 0 <= i < s.skipped.len() && s.skipped[i] == x;
        assert(t.skipped[i] == x);
    }
    assert forall|x: (Seq<char>, Seq<u8>)| #[trigger] s.hashes.contains(x) implies
        t.hashes.contains(x) by {
        let i = choose|i: int| 0 <= i < s.hashes.len() && s.hashes[i] == x;
        assert(t.hashes[i] == x);
    }
    match outcome {
        ApplyOutcome::Applied(_, _, Some((rel, h))) => {
            assert(t.hashes.last() == (rel@, h@));
        },
        ApplyOutcome::Applied(_, _, None) => {},
        ApplyOutcome::Skipped(rel, why) => {
            assert(t.skipped.last() == (rel@, why@));
        },
    }
}

proof fn lemma_folded_counts(s: ApplyV, ids: Seq<int>, result: spec_fn(int) -> Seq<ApplyOutcome>)
    ensures
        folded(s, ids, result).files == s.files + total(|i: int| applied_in(result(i)), ids),
        folded(s, ids, result).skipped.len() == s.skipped.len() + total(
            |i: int| result(i).len() - applied_in(result(i)),
            ids,
        ),
    decreases ids.len(),
{
    if ids.len() > 0 {
        lemma_folded_counts(s, ids.drop_last(), result);
        lemma_fold_all_counts(folded(s, ids.drop_last(), result), result(ids.last()));
    }
}

/// An outcome that was folded is on record.
proof fn lemma_fold_all_records(s: ApplyV, outcomes: Seq<ApplyOutcome>, j: int)
    requires
        0 <= j < outcomes.len(),
    ensures
        match outcomes[j] {
            ApplyOutcome::Applied(_, _, Some((rel, h))) => fold_all(s, outcomes).hashes.contains(
                (rel@, h@),
            ),
            ApplyOutcome::Applied(_, _, None) => true,
            ApplyOutcome::Skipped(rel, why) => fold_all(s, outcomes).skipped.contains(
                (rel@, why@),
            ),
        },
    decreases outcomes.len(),
{
    let front = outcomes.drop_last();
    lemma_fold_keeps(fold_all(s, front), outcomes.last());
    if j < outcomes.len() - 1 {
        lemma_fold_all_records(s, front, j);
        assert(front[j] == outcomes[j]);
    }
}

/// The outcomes of an apply that was folded are on record.
proof fn lemma_folded_records(
    s: ApplyV,
    ids: Seq<int>,
    result: spec_fn(int) -> Seq<ApplyOutcome>,
    m: int,
    j: int,
)
    requires
        0 <= m < ids.len(),
        0 <= j < result(ids[m]).len(),
    ensures
        match result(ids[m])[j] {
            ApplyOutcome::Applied(_, _, Some((rel, h))) => folded(
                s,
                ids,
                result,
            ).hashes.contains((rel@, h@)),
            ApplyOutcome::Applied(_, _, None) => true,
            ApplyOutcome::Skipped(rel, why) => folded(s, ids, result).skipped.contains(
                (rel@, why@),
            ),
        },
    decreases ids.len(),
{
    let front = ids.drop_last();
    let before = folded(s, front, result);
    lemma_fold_all_counts(before, result(ids.last()));
    if m < ids.len() - 1 {
        assert(front[m] == ids[m]);
        lemma_folded_records(s, front, result, m, j);
    } else {
        lemma_fold_all_records(before, result(ids.last()), j);
    }
}

} // verus!
