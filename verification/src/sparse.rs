//! Writing runs of zeros as holes.
//!
//! A written file reads as zeros wherever nothing was written, so a run of
//! zeros may be skipped instead of written.
use vstd::prelude::*;

verus! {

/// Runs of at least this many zeros become holes.
pub const SPARSE_RUN_MIN: usize = 4096;

/// One operation on the file being written.
#[derive(Debug, Clone, Copy, PartialEq, Eq, Structural)]
pub enum WriteOp {
    /// Write the bytes of the buffer from `from` up to `to`.
    Data {
        /// The first byte.
        from: usize,
        /// Behind the last byte.
        to: usize,
    },
    /// Write this many zeros.
    Zeros(usize),
    /// Move forward over this many bytes without writing.
    Skip(usize),
}

/// So many zeros.
pub open spec fn zeros(n: int) -> Seq<u8> {
    Seq::new(n as nat, |i: int| 0u8)
}

/// What a file reads as after an operation, when it read as `file` before.
pub open spec fn after_op(file: Seq<u8>, buf: Seq<u8>, op: WriteOp) -> Seq<u8> {
    match op {
        WriteOp::Data { from, to } => file + buf.subrange(from as int, to as int),
        WriteOp::Zeros(n) => file + zeros(n as int),
        WriteOp::Skip(n) => file + zeros(n as int),
    }
}

/// What a file reads as after a sequence of operations.
pub open spec fn after_ops(file: Seq<u8>, buf: Seq<u8>, ops: Seq<WriteOp>) -> Seq<u8>
    decreases ops.len(),
{
    if ops.len() == 0 {
        file
    } else {
        after_op(after_ops(file, buf, ops.drop_last()), buf, ops.last())
    }
}

/// Whether an operation lies within the buffer and wastes no space: only
/// non-zero bytes are written from the buffer, only short runs of zeros are
/// written, and only long ones are skipped.
pub open spec fn frugal(buf: Seq<u8>, op: WriteOp) -> bool {
    match op {
        WriteOp::Data { from, to } => from < to <= buf.len() && forall|i: int|
            from <= i < to ==> #[trigger] buf[i] != 0,
        WriteOp::Zeros(n) => 0 < n < SPARSE_RUN_MIN,
        WriteOp::Skip(n) => n >= SPARSE_RUN_MIN,
    }
}

/// Whether the operations take in one more piece of a stream: a file that lacks
/// `held` zeros of the stream before lacks `left` zeros of it behind the piece.
pub open spec fn takes_in(held: int, buf: Seq<u8>, ops: Seq<WriteOp>, left: int) -> bool {
    forall|file: Seq<u8>|
        #![trigger after_ops(file, buf, ops)]
        after_ops(file, buf, ops) + zeros(left) == file + zeros(held) + buf
}

/// Whether the operations complete a stream: they write the `held` zeros that a
/// file lacks.
pub open spec fn completes(held: int, ops: Seq<WriteOp>) -> bool {
    forall|file: Seq<u8>, buf: Seq<u8>|
        #![trigger after_ops(file, buf, ops)]
        after_ops(file, buf, ops) == file + zeros(held)
}

proof fn lemma_zeros(a: int, b: int)
    requires
        a >= 0,
        b >= 0,
    ensures
        zeros(a) + zeros(b) == zeros(a + b),
{
    assert(zeros(a) + zeros(b) =~= zeros(a + b));
}

proof fn lemma_push_op(file: Seq<u8>, buf: Seq<u8>, ops: Seq<WriteOp>, op: WriteOp)
    ensures
        after_ops(file, buf, ops.push(op)) == after_op(after_ops(file, buf, ops), buf, op),
{
    assert(ops.push(op).drop_last() =~= ops);
}

/// A filter that turns a stream of writes into operations on a file.
#[derive(Debug)]
pub struct SparseFilter {
    enabled: bool,
    total: u64,
    pending: usize,
}

impl SparseFilter {
    /// Whether holes are made.
    pub closed spec fn sparse(&self) -> bool {
        self.enabled
    }

    /// The final size of the file.
    pub closed spec fn size(&self) -> u64 {
        self.total
    }

    /// The zeros that arrived and were neither written nor skipped yet.
    pub closed spec fn held(&self) -> int {
        self.pending as int
    }

    /// Fewer zeros are held back than make a hole, and none without holes.
    pub open spec fn valid(&self) -> bool {
        &&& 0 <= self.held() < SPARSE_RUN_MIN
        &&& !self.sparse() ==> self.held() == 0
    }

    /// What the stream amounts to when the file reads as `file`.
    pub open spec fn stream(&self, file: Seq<u8>) -> Seq<u8> {
        file + zeros(self.held())
    }

    /// A filter for a file of `total` bytes; `enabled` turns holes on.
    pub fn new(total: u64, enabled: bool) -> (r: SparseFilter)
        ensures
            r.valid(),
            r.held() == 0,
            r.sparse() == enabled,
            r.size() == total,
    {
        SparseFilter { enabled, total, pending: 0 }
    }

    /// Take note of `n` more zeros.
    fn buffer_zeros(&mut self, n: usize, ops: &mut Vec<WriteOp>)
        requires
            old(self).valid(),
            old(self).sparse(),
            old(self).held() + n <= usize::MAX,
        ensures
            final(self).valid(),
            final(self).sparse(),
            final(self).size() == old(self).size(),
            forall|file: Seq<u8>, buf: Seq<u8>|
                #![trigger after_ops(file, buf, final(ops)@)]
                final(self).stream(after_ops(file, buf, final(ops)@)) == old(self).stream(
                    after_ops(file, buf, old(ops)@),
                ) + zeros(n as int),
            final(ops)@ == old(ops)@ || exists|k: usize|
                k >= SPARSE_RUN_MIN && final(ops)@ == old(ops)@.push(WriteOp::Skip(k)),
    {
        let ghost held = self.pending as int;
        let ghost was = ops@;
        self.pending += n;
        if self.pending >= SPARSE_RUN_MIN {
            let k: usize = self.pending;
            ops.push(WriteOp::Skip(k));
            self.pending = 0;
            proof {
                assert forall|file: Seq<u8>, buf: Seq<u8>|
                    #![trigger after_ops(file, buf, ops@)]
                    self.stream(after_ops(file, buf, ops@)) == after_ops(file, buf, was) + zeros(
                        held,
                    ) + zeros(n as int) by {
                    lemma_push_op(file, buf, was, WriteOp::Skip(k));
                    let base = after_ops(file, buf, was);
                    lemma_zeros(held, n as int);
                    assert(base + zeros(held) + zeros(n as int) =~= base + zeros(k as int));
                    assert(base + zeros(k as int) + zeros(0) =~= base + zeros(k as int));
                }
            }
        } else {
            proof {
                assert forall|file: Seq<u8>, buf: Seq<u8>|
                    #![trigger after_ops(file, buf, ops@)]
                    self.stream(after_ops(file, buf, ops@)) == after_ops(file, buf, was) + zeros(
                        held,
                    ) + zeros(n as int) by {
                    let base = after_ops(file, buf, was);
                    lemma_zeros(held, n as int);
                    assert(base + zeros(held) + zeros(n as int) =~= base + zeros(held + n));
                }
            }
        }
    }

    /// Write the zeros that were held back.
    fn flush_zeros(&mut self, ops: &mut Vec<WriteOp>)
        requires
            old(self).valid(),
        ensures
            final(self).valid(),
            final(self).held() == 0,
            final(self).sparse() == old(self).sparse(),
            final(self).size() == old(self).size(),
            final(ops)@ == if old(self).held() > 0 {
                old(ops)@.push(WriteOp::Zeros(old(self).held() as usize))
            } else {
                old(ops)@
            },
            forall|file: Seq<u8>, buf: Seq<u8>|
                #![trigger after_ops(file, buf, final(ops)@)]
                after_ops(file, buf, final(ops)@) == old(self).stream(
                    after_ops(file, buf, old(ops)@),
                ),
    {
        let ghost was = ops@;
        let ghost held = self.pending as int;
        if self.pending > 0 {
            let k: usize = self.pending;
            ops.push(WriteOp::Zeros(k));
            self.pending = 0;
            proof {
                assert forall|file: Seq<u8>, buf: Seq<u8>|
                    #![trigger after_ops(file, buf, ops@)]
                    after_ops(file, buf, ops@) == after_ops(file, buf, was) + zeros(held) by {
                    lemma_push_op(file, buf, was, WriteOp::Zeros(k));
                }
            }
        } else {
            proof {
                assert forall|file: Seq<u8>, buf: Seq<u8>|
                    #![trigger after_ops(file, buf, ops@)]
                    after_ops(file, buf, ops@) == after_ops(file, buf, was) + zeros(held) by {
                    assert(after_ops(file, buf, was) + zeros(0) =~= after_ops(file, buf, was));
                }
            }
        }
    }

    /// The operations for one more piece of the stream. The stream gains
    /// exactly the bytes of `buf`.
    pub fn write(&mut self, buf: &[u8]) -> (ops: Vec<WriteOp>)
        requires
            old(self).valid(),
            buf@.len() + SPARSE_RUN_MIN <= usize::MAX,
        ensures
            final(self).valid(),
            final(self).sparse() == old(self).sparse(),
            final(self).size() == old(self).size(),
            takes_in(old(self).held(), buf@, ops@, final(self).held()),
            old(self).sparse() ==> forall|k: int|
                0 <= k < ops@.len() ==> frugal(buf@, #[trigger] ops@[k]),
            !old(self).sparse() ==> ops@ == seq![WriteOp::Data { from: 0, to: buf.len() }],
    {
        let mut ops: Vec<WriteOp> = Vec::new();
        let len: usize = buf.len();
        if !self.enabled {
            ops.push(WriteOp::Data { from: 0, to: len });
            proof {
                assert forall|file: Seq<u8>|
                    #![trigger after_ops(file, buf@, ops@)]
                    self.stream(after_ops(file, buf@, ops@)) == old(self).stream(file) + buf@ by {
                    lemma_push_op(file, buf@, Seq::empty(), WriteOp::Data { from: 0, to: len });
                    assert(ops@ =~= Seq::<WriteOp>::empty().push(
                        WriteOp::Data { from: 0, to: len },
                    ));
                    assert(buf@.subrange(0, len as int) =~= buf@);
                    assert(file + buf@ + zeros(0) =~= file + zeros(0) + buf@);
                }
            }
            return ops;
        }
        let ghost start = *self;
        let mut i: usize = 0;
        proof {
            assert forall|file: Seq<u8>|
                #![trigger after_ops(file, buf@, ops@)]
                self.stream(after_ops(file, buf@, ops@)) == start.stream(file) + buf@.take(0) by {
                assert(start.stream(file) + buf@.take(0) =~= start.stream(file));
            }
        }
        while i < len
            invariant
                i <= len,
                len == buf@.len(),
                len + SPARSE_RUN_MIN <= usize::MAX,
                self.valid(),
                self.sparse(),
                self.size() == start.size(),
                forall|file: Seq<u8>|
                    #![trigger after_ops(file, buf@, ops@)]
                    self.stream(after_ops(file, buf@, ops@)) == start.stream(file) + buf@.take(
                        i as int,
                    ),
                forall|k: int| 0 <= k < ops@.len() ==> frugal(buf@, #[trigger] ops@[k]),
            decreases len - i,
        {
            let from: usize = i;
            let ghost before = *self;
            let ghost was = ops@;
            if buf[i] == 0 {
                while i < len && buf[i] == 0
                    invariant
                        from <= i <= len,
                        len == buf@.len(),
                        forall|k: int| from <= k < i ==> #[trigger] buf@[k] == 0,
                    decreases len - i,
                {
                    i += 1;
                }
                self.buffer_zeros(i - from, &mut ops);
                proof {
                    assert forall|file: Seq<u8>|
                        #![trigger after_ops(file, buf@, ops@)]
                        self.stream(after_ops(file, buf@, ops@)) == start.stream(file) + buf@.take(
                            i as int,
                        ) by {
                        let old_file = after_ops(file, buf@, was);
                        assert(before.stream(old_file) == start.stream(file) + buf@.take(
                            from as int,
                        ));
                        assert(buf@.take(i as int) =~= buf@.take(from as int) + zeros(i - from));
                        assert(start.stream(file) + buf@.take(i as int) =~= start.stream(file)
                            + buf@.take(from as int) + zeros(i - from));
                    }
                }
            } else {
                while i < len && buf[i] != 0
                    invariant
                        from <= i <= len,
                        len == buf@.len(),
                        forall|k: int| from <= k < i ==> #[trigger] buf@[k] != 0,
                    decreases len - i,
                {
                    i += 1;
                }
                self.flush_zeros(&mut ops);
                let ghost mid = ops@;
                ops.push(WriteOp::Data { from, to: i });
                proof {
                    assert forall|file: Seq<u8>|
                        #![trigger after_ops(file, buf@, ops@)]
                        self.stream(after_ops(file, buf@, ops@)) == start.stream(file) + buf@.take(
                            i as int,
                        ) by {
                        let old_file = after_ops(file, buf@, was);
                        assert(before.stream(old_file) == start.stream(file) + buf@.take(
                            from as int,
                        ));
                        assert(after_ops(file, buf@, mid) == before.stream(old_file));
                        lemma_push_op(file, buf@, mid, WriteOp::Data { from, to: i });
                        let piece = buf@.subrange(from as int, i as int);
                        assert(buf@.take(i as int) =~= buf@.take(from as int) + piece);
                        assert(start.stream(file) + buf@.take(from as int) + piece + zeros(0)
                            =~= start.stream(file) + buf@.take(i as int));
                    }
                }
            }
        }
        assert(buf@.take(i as int) =~= buf@);
        ops
    }

    /// The operations that complete the stream; afterwards the file is cut, or
    /// extended by a hole, to the size that is returned with them.
    pub fn finish(&mut self) -> (r: (Vec<WriteOp>, u64))
        requires
            old(self).valid(),
        ensures
            final(self).valid(),
            final(self).held() == 0,
            final(self).sparse() == old(self).sparse(),
            final(self).size() == old(self).size(),
            r.1 == old(self).size(),
            completes(old(self).held(), r.0@),
            r.0@ == if old(self).held() > 0 {
                seq![WriteOp::Zeros(old(self).held() as usize)]
            } else {
                Seq::empty()
            },
    {
        let mut ops: Vec<WriteOp> = Vec::new();
        self.flush_zeros(&mut ops);
        proof {
            assert(Seq::<WriteOp>::empty().push(WriteOp::Zeros(old(self).held() as usize)) =~= seq![
                WriteOp::Zeros(old(self).held() as usize),
            ]);
        }
        (ops, self.total)
    }

    /// Drop the zeros held back, and give the size that an interrupted file is
    /// cut to.
    pub fn set_len(&mut self, size: u64) -> (r: u64)
        requires
            old(self).valid(),
        ensures
            final(self).valid(),
            final(self).held() == 0,
            final(self).sparse() == old(self).sparse(),
            final(self).size() == old(self).size(),
            r == size,
    {
        self.pending = 0;
        size
    }
}

/// What a file reads as once it is cut, or extended by a hole, to a size.
pub open spec fn resized(file: Seq<u8>, size: int) -> Seq<u8> {
    if size <= file.len() {
        file.take(size)
    } else {
        file + zeros(size - file.len())
    }
}

/// One write of a run: the piece, the operations for it, and the zeros held back
/// behind it.
pub struct WriteStep {
    pub buf: Seq<u8>,
    pub ops: Seq<WriteOp>,
    pub held: int,
}

/// The zeros held back behind the first `n` writes of a run.
pub open spec fn held_behind(run: Seq<WriteStep>, n: int) -> int {
    if n <= 0 {
        0
    } else {
        run[n - 1].held
    }
}

/// Whether a run is what a filter made of its pieces, one write after another.
pub open spec fn filtered(run: Seq<WriteStep>) -> bool {
    forall|k: int|
        0 <= k < run.len() ==> (#[trigger] run[k]).held >= 0 && takes_in(
            held_behind(run, k),
            run[k].buf,
            run[k].ops,
            run[k].held,
        )
}

/// The content that the first `n` writes of a run carry.
pub open spec fn content(run: Seq<WriteStep>, n: int) -> Seq<u8>
    decreases n,
{
    if n <= 0 {
        Seq::empty()
    } else {
        content(run, n - 1) + run[n - 1].buf
    }
}

/// What a new file reads as after the first `n` writes of a run.
pub open spec fn written(run: Seq<WriteStep>, n: int) -> Seq<u8>
    decreases n,
{
    if n <= 0 {
        Seq::empty()
    } else {
        after_ops(written(run, n - 1), run[n - 1].buf, run[n - 1].ops)
    }
}

/// What a new file reads as after a whole run, the operations that complete it
/// and the change to its final size.
pub open spec fn finished(run: Seq<WriteStep>, last: Seq<WriteOp>, total: int) -> Seq<u8> {
    resized(after_ops(written(run, run.len() as int), Seq::empty(), last), total)
}

/// The content survives: whatever the pieces, and with holes or without, a
/// finished file has exactly its final size, and reads as the content followed
/// by zeros, or as the part of it that fits.
pub proof fn law_holes_keep_the_content(run: Seq<WriteStep>, last: Seq<WriteOp>, total: u64)
    requires
        filtered(run),
        completes(held_behind(run, run.len() as int), last),
    ensures
        finished(run, last, total as int).len() == total,
        finished(run, last, total as int) == resized(
            content(run, run.len() as int),
            total as int,
        ),
        content(run, run.len() as int).len() <= total ==> finished(run, last, total as int)
            == content(run, run.len() as int) + zeros(
            total - content(run, run.len() as int).len(),
        ),
{
    let n = run.len() as int;
    lemma_run(run, n);
    let file = written(run, n);
    assert(after_ops(file, Seq::empty(), last) == file + zeros(held_behind(run, n)));
    let all = content(run, n);
    if all.len() == total {
        assert(all.take(total as int) =~= all + zeros(0));
    }
}

/// Holes change nothing: two files filled with the same content, in whatever
/// pieces, one with holes and one without, read the same.
pub proof fn law_holes_are_invisible(
    a: Seq<WriteStep>,
    last_a: Seq<WriteOp>,
    b: Seq<WriteStep>,
    last_b: Seq<WriteOp>,
    total: u64,
)
    requires
        filtered(a),
        completes(held_behind(a, a.len() as int), last_a),
        filtered(b),
        completes(held_behind(b, b.len() as int), last_b),
        content(a, a.len() as int) == content(b, b.len() as int),
    ensures
        finished(a, last_a, total as int) == finished(b, last_b, total as int),
{
    law_holes_keep_the_content(a, last_a, total);
    law_holes_keep_the_content(b, last_b, total);
}

/// Throughout a run the file lacks nothing of the content but the zeros held
/// back.
proof fn lemma_run(run: Seq<WriteStep>, n: int)
    requires
        filtered(run),
        0 <= n <= run.len(),
    ensures
        written(run, n) + zeros(held_behind(run, n)) == content(run, n),
    decreases n,
{
    if n > 0 {
        lemma_run(run, n - 1);
        let step = run[n - 1];
        let file = written(run, n - 1);
        assert(after_ops(file, step.buf, step.ops) + zeros(step.held) == file + zeros(
            held_behind(run, n - 1),
        ) + step.buf);
    } else {
        assert(Seq::<u8>::empty() + zeros(0) =~= Seq::<u8>::empty());
    }
}

/// Space is saved where it pays: nothing is skipped but runs of at least 4096
/// zeros, shorter ones are written as zeros, and no zero is written from the
/// buffer.
pub proof fn law_only_long_runs_are_skipped(buf: Seq<u8>, op: WriteOp)
    requires
        frugal(buf, op),
    ensures
        op matches WriteOp::Skip(n) ==> n >= 4096,
        op matches WriteOp::Zeros(n) ==> 0 < n < 4096,
        op matches WriteOp::Data { from, to } ==> from < to <= buf.len() && forall|i: int|
            from <= i < to ==> #[trigger] buf[i] != 0,
{
}

/// A skipped stretch reads as zeros, as many as were skipped, written zeros read
/// as such, and bytes from the buffer as what stands there; what was in the file
/// before stays.
pub proof fn law_holes_read_as_zeros(file: Seq<u8>, buf: Seq<u8>, op: WriteOp, i: int)
    requires
        frugal(buf, op),
    ensures
        ({
            let now = after_op(file, buf, op);
            &&& 0 <= i < file.len() ==> now[i] == file[i]
            &&& op matches WriteOp::Skip(n) ==> now.len() == file.len() + n && (file.len() <= i
                < now.len() ==> now[i] == 0)
            &&& op matches WriteOp::Zeros(n) ==> now.len() == file.len() + n && (file.len() <= i
                < now.len() ==> now[i] == 0)
            &&& op matches WriteOp::Data { from, to } ==> now.len() == file.len() + (to - from) && (
            file.len() <= i < now.len() ==> now[i] == buf[from + i - file.len()])
        }),
{
}

} // verus!
