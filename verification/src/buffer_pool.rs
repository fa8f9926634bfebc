//! An event-driven buffer pool.
//!
//! A buffer becomes reusable when the device has finished with it, not when the host lets go of
//! it. A released buffer is parked with the epoch that was open at the time, and enters a free
//! list once that epoch has completed.
//!
//! The free lists are buckets in ascending order of size. A bucket that holds nothing is not
//! kept, so a lookup sees only sizes that have something to give.

use std::collections::VecDeque;
use vstd::prelude::*;

use crate::buffer::Buffer;
use crate::sums;
use crate::text;

verus! {

/// How far the device has got through the work submitted to it.
///
/// Command buffers on one queue complete in order, so two counters are enough: the epoch that
/// work is being encoded into, and how many epochs have finished.
#[derive(Debug, Clone, Copy, PartialEq, Eq, Structural)]
pub struct GpuClock {
    /// The epoch that is open.
    pub submitted: u64,
    /// How many epochs have finished.
    pub completed: u64,
}

impl GpuClock {
    /// Only epochs that were closed have finished.
    pub open spec fn sane(self) -> bool {
        self.completed <= self.submitted
    }

    /// Work encoded in `epoch` is known to have finished.
    pub open spec fn has_finished(self, epoch: u64) -> bool {
        epoch < self.completed
    }

    pub fn new() -> (c: Self)
        ensures
            c == (GpuClock { submitted: 0, completed: 0 }),
    {
        GpuClock { submitted: 0, completed: 0 }
    }

    /// The epoch that a buffer released right now must outlive.
    pub fn current_epoch(&self) -> (e: u64)
        ensures
            e == self.submitted,
    {
        self.submitted
    }

    /// Opens a new epoch, and returns the one just closed.
    pub fn commit_epoch(&mut self) -> (e: u64)
        ensures
            e == old(self).submitted,
            final(self).submitted == (if old(self).submitted == u64::MAX {
                0
            } else {
                old(self).submitted + 1
            }),
            final(self).completed == old(self).completed,
    {
        let closed: u64 = self.submitted;
        self.submitted = closed.wrapping_add(1);
        closed
    }

    /// Records that the device has finished `epoch`. Reports may arrive out of order, so the
    /// count never goes back.
    pub fn mark_completed(&mut self, epoch: u64)
        requires
            epoch < u64::MAX,
        ensures
            final(self).submitted == old(self).submitted,
            final(self).completed == (if old(self).completed > epoch {
                old(self).completed as int
            } else {
                epoch + 1
            }),
    {
        if self.completed < epoch + 1 {
            self.completed = epoch + 1;
        }
    }

    /// How many epochs have finished.
    pub fn completed_count(&self) -> (n: u64)
        ensures
            n == self.completed,
    {
        self.completed
    }

    /// Whether work encoded in `epoch` is known to have finished.
    pub fn is_complete(&self, epoch: u64) -> (b: bool)
        ensures
            b == self.has_finished(epoch),
    {
        self.completed_count() > epoch
    }
}

impl Default for GpuClock {
    fn default() -> (c: Self)
        ensures
            c == (GpuClock { submitted: 0, completed: 0 }),
    {
        GpuClock::new()
    }
}

/// A fresh clock has completed nothing, not even the first epoch.
pub proof fn law_a_fresh_clock_has_completed_nothing(epoch: u64)
    ensures
        !(GpuClock { submitted: 0, completed: 0 }).has_finished(epoch),
{
}

/// The open epoch has not finished: whatever is released now has to wait.
pub proof fn law_the_open_epoch_has_not_finished(clock: GpuClock)
    requires
        clock.sane(),
    ensures
        !clock.has_finished(clock.submitted),
{
}

/// If an epoch has finished, every epoch before it has.
pub proof fn law_epochs_finish_in_order(clock: GpuClock, earlier: u64, later: u64)
    requires
        earlier <= later,
        clock.has_finished(later),
    ensures
        clock.has_finished(earlier),
{
}

/// A buffer on loan. What was taken from a pool goes back to it with `BufferPool::release`.
#[derive(Debug)]
pub struct PooledBuffer {
    buffer: Buffer,
    size: usize,
    pooled: bool,
}

impl PooledBuffer {
    pub closed spec fn spec_buffer(self) -> Buffer {
        self.buffer
    }

    /// The bucket this belongs to: the allocated size, not the requested one.
    pub closed spec fn spec_size(self) -> usize {
        self.size
    }

    /// There is a pool behind the handle.
    pub closed spec fn is_pooled(self) -> bool {
        self.pooled
    }

    /// A handle with no pool behind it: releasing it frees the buffer instead of offering it for
    /// reuse.
    pub fn unpooled(buffer: Buffer, size: usize) -> (h: Self)
        ensures
            h.spec_buffer() == buffer,
            h.spec_size() == size,
            !h.is_pooled(),
    {
        PooledBuffer { buffer, size, pooled: false }
    }

    pub fn size(&self) -> (n: usize)
        ensures
            n == self.spec_size(),
    {
        self.size
    }

    pub fn buffer(&self) -> (b: &Buffer)
        ensures
            *b == self.spec_buffer(),
    {
        &self.buffer
    }
}

/// What a pool has done.
#[derive(Debug, Clone, Copy, PartialEq, Eq, Structural)]
pub struct PoolCounters {
    /// Calls of `acquire`.
    pub lookups: u64,
    /// Calls that were served from a free list.
    pub hits: u64,
    /// Buckets probed, summed over all lookups: at most two each.
    pub buckets_probed: u64,
    /// Buffers handed back.
    pub releases: u64,
    /// Fresh allocations.
    pub allocations: u64,
    /// Bytes of fresh allocations.
    pub allocated_bytes: u64,
    /// Buffers destroyed by `trim`.
    pub trimmed: u64,
    /// Calls of `trim`.
    pub trims: u64,
    /// Releases that had to wait for the device before becoming reusable.
    pub deferred: u64,
    /// Buffers moved from the pending list into a free list.
    pub drained: u64,
    /// Buffers waiting for the device.
    pub pending: u64,
    /// Free buffers destroyed to keep the free lists inside their byte budget.
    pub evicted: u64,
}

pub open spec fn no_counts() -> PoolCounters {
    PoolCounters {
        lookups: 0,
        hits: 0,
        buckets_probed: 0,
        releases: 0,
        allocations: 0,
        allocated_bytes: 0,
        trimmed: 0,
        trims: 0,
        deferred: 0,
        drained: 0,
        pending: 0,
        evicted: 0,
    }
}

impl Default for PoolCounters {
    fn default() -> (c: Self)
        ensures
            c == no_counts(),
    {
        PoolCounters {
            lookups: 0,
            hits: 0,
            buckets_probed: 0,
            releases: 0,
            allocations: 0,
            allocated_bytes: 0,
            trimmed: 0,
            trims: 0,
            deferred: 0,
            drained: 0,
            pending: 0,
            evicted: 0,
        }
    }
}

/// The cap on bytes that no planner owns, and the planned figure that it is measured against.
#[derive(Clone, Copy, Debug, PartialEq, Eq, Structural)]
pub struct ResidualCap {
    pub limit: usize,
    /// Bytes of the classes that this pool serves by plan. They are part of what it holds and
    /// are subtracted before the comparison.
    pub planned: usize,
}

/// A fresh allocation would take the pool past its residual cap.
#[derive(Clone, Copy, Debug, PartialEq, Eq, Structural)]
pub struct ResidualExceeded {
    /// Bytes already held that no planner owns.
    pub unplanned: usize,
    /// The allocation that would have crossed the limit.
    pub requested: usize,
    pub limit: usize,
    pub planned: usize,
}

/// A buffer waiting for the device to finish with it.
#[derive(Clone, Copy, Debug, PartialEq, Eq, Structural)]
pub struct PendingBuffer {
    pub buffer: Buffer,
    /// Bucket to return to.
    pub size: usize,
    /// The epoch this must outlive before it can be handed out again.
    pub epoch: u64,
}

/// A buffer that can be handed out.
#[derive(Debug, Clone, Copy, PartialEq, Eq, Structural)]
pub struct FreeBuffer {
    pub buffer: Buffer,
    /// When it became free: how many buffers of the pool had become free before it.
    pub since: u64,
}

/// What the queue of free buffers holds of one of them.
#[derive(Debug, Clone, Copy, PartialEq, Eq, Structural)]
struct QueueEntry {
    size: usize,
    since: u64,
}

/// The free buffers of one size, in the order in which they became free.
#[verifier::ext_equal]
pub struct BucketView {
    pub size: usize,
    pub buffers: Seq<FreeBuffer>,
}

impl BucketView {
    pub open spec fn bytes(self) -> int {
        self.size * self.buffers.len()
    }
}

#[derive(Debug)]
struct Bucket {
    size: usize,
    buffers: Vec<FreeBuffer>,
}

impl View for Bucket {
    type V = BucketView;

    closed spec fn view(&self) -> BucketView {
        BucketView { size: self.size, buffers: self.buffers@ }
    }
}

/// Buckets in ascending order of size, none of them empty.
pub open spec fn ordered(free: Seq<BucketView>) -> bool {
    &&& forall|i: int, j: int|
        0 <= i < j < free.len() ==> (#[trigger] free[i]).size < (#[trigger] free[j]).size
    &&& forall|i: int| 0 <= i < free.len() ==> (#[trigger] free[i]).buffers.len() > 0
}

/// The buckets below `i` are smaller than `size`, the others are not.
pub open spec fn splits(free: Seq<BucketView>, size: usize, i: int) -> bool {
    &&& 0 <= i <= free.len()
    &&& forall|j: int| 0 <= j < i ==> (#[trigger] free[j]).size < size
    &&& forall|j: int| i <= j < free.len() ==> (#[trigger] free[j]).size >= size
}

/// The position of the smallest bucket that holds buffers of at least `size` bytes, or the number
/// of buckets where there is none.
pub open spec fn best_fit(free: Seq<BucketView>, size: usize) -> int {
    choose|i: int| splits(free, size, i)
}

pub open spec fn has_bucket(free: Seq<BucketView>, size: usize) -> bool {
    best_fit(free, size) < free.len() && free[best_fit(free, size)].size == size
}

/// How many free buffers are of exactly `size` bytes.
pub open spec fn free_of(free: Seq<BucketView>, size: usize) -> nat {
    if has_bucket(free, size) {
        free[best_fit(free, size)].buffers.len()
    } else {
        0
    }
}

/// Bucket `i` without its buffer `k`; without the bucket, if that was its only one.
pub open spec fn taken(free: Seq<BucketView>, i: int, k: int) -> Seq<BucketView> {
    if free[i].buffers.len() == 1 {
        free.remove(i)
    } else {
        free.update(
            i,
            BucketView { size: free[i].size, buffers: free[i].buffers.remove(k) },
        )
    }
}

/// One more buffer at the end of the bucket of `size`, which is opened where it does not exist.
pub open spec fn given(free: Seq<BucketView>, size: usize, buffer: FreeBuffer) -> Seq<BucketView> {
    let i = best_fit(free, size);
    if has_bucket(free, size) {
        free.update(i, BucketView { size, buffers: free[i].buffers.push(buffer) })
    } else {
        free.insert(i, BucketView { size, buffers: seq![buffer] })
    }
}

/// Position `k` of bucket `i` holds a buffer.
pub open spec fn holds(free: Seq<BucketView>, i: int, k: int) -> bool {
    0 <= i < free.len() && 0 <= k < free[i].buffers.len()
}

/// The buffer is one of those that can be handed out.
pub open spec fn is_free(free: Seq<BucketView>, b: FreeBuffer) -> bool {
    exists|i: int, k: int| holds(free, i, k) && #[trigger] free[i].buffers[k] == b
}

/// When the buffer at position `k` of bucket `i` became free.
pub open spec fn since(free: Seq<BucketView>, i: int, k: int) -> u64 {
    free[i].buffers[k].since
}

/// Every buffer became free before `now` and no two at once, and each bucket holds its buffers in
/// the order in which they did.
pub open spec fn aged(free: Seq<BucketView>, now: u64) -> bool {
    &&& forall|i: int, k: int| holds(free, i, k) ==> #[trigger] since(free, i, k) < now
    &&& forall|i: int, k: int, j: int, l: int|
        holds(free, i, k) && holds(free, j, l) && i != j ==> #[trigger] since(free, i, k)
            != #[trigger] since(free, j, l)
    &&& forall|i: int, k: int, l: int|
        holds(free, i, k) && holds(free, i, l) && k < l ==> #[trigger] since(free, i, k)
            < #[trigger] since(free, i, l)
}

/// No buffer has been free for longer than the one at position `k` of bucket `i`.
pub open spec fn free_longest(free: Seq<BucketView>, i: int, k: int) -> bool {
    &&& holds(free, i, k)
    &&& forall|j: int, l: int|
        holds(free, j, l) ==> since(free, i, k) <= #[trigger] since(free, j, l)
}

/// Where the buffer stands that has been free for longest.
pub open spec fn longest(free: Seq<BucketView>) -> (int, int) {
    choose|i: int, k: int| free_longest(free, i, k)
}

pub open spec fn free_bytes_of(free: Seq<BucketView>) -> int {
    sums::total(free, |b: BucketView| b.bytes())
}

pub open spec fn free_count_of(free: Seq<BucketView>) -> int {
    sums::total(free, |b: BucketView| b.buffers.len() as int)
}

pub open spec fn pending_bytes_of(pending: Seq<PendingBuffer>) -> int {
    sums::total(pending, |p: PendingBuffer| p.buffer.spec_length() as int)
}

/// Every buffer is as long as the bucket it stands in.
pub open spec fn sized(free: Seq<BucketView>) -> bool {
    forall|i: int, k: int|
        0 <= i < free.len() && 0 <= k < free[i].buffers.len() ==> (
        #[trigger] free[i].buffers[k]).buffer.spec_length() == free[i].size
}

pub open spec fn buffers_of(s: Seq<FreeBuffer>) -> Seq<Buffer> {
    Seq::new(s.len(), |i: int| s[i].buffer)
}

/// All the buffers of the buckets, in order of size.
pub open spec fn flattened(free: Seq<BucketView>) -> Seq<Buffer>
    decreases free.len(),
{
    if free.len() == 0 {
        Seq::empty()
    } else {
        flattened(free.drop_last()) + buffers_of(free.last().buffers)
    }
}

/// There is one best fit.
pub proof fn lemma_splits_once(free: Seq<BucketView>, size: usize, i: int)
    requires
        splits(free, size, i),
    ensures
        best_fit(free, size) == i,
{
    let j = best_fit(free, size);
    assert(splits(free, size, j));
    if i < j {
        assert(free[i].size < size);
    } else if j < i {
        assert(free[j].size < size);
    }
}

proof fn lemma_best_fit(free: Seq<BucketView>, size: usize)
    requires
        ordered(free),
    ensures
        splits(free, size, best_fit(free, size)),
    decreases free.len(),
{
    if free.len() == 0 {
        assert(splits(free, size, 0));
    } else if free.last().size < size {
        assert(splits(free, size, free.len() as int));
    } else {
        let rest = free.drop_last();
        assert(ordered(rest)) by {
            assert forall|i: int, j: int| 0 <= i < j < rest.len() implies (
            #[trigger] rest[i]).size < (#[trigger] rest[j]).size by {
                assert(free[i].size < free[j].size);
            }
            assert forall|i: int| 0 <= i < rest.len() implies (#[trigger] rest[i]).buffers.len()
                > 0 by {
                assert(free[i].buffers.len() > 0);
            }
        }
        lemma_best_fit(rest, size);
        let i = best_fit(rest, size);
        assert(splits(free, size, i)) by {
            assert forall|j: int| 0 <= j < i implies (#[trigger] free[j]).size < size by {
                assert(rest[j].size < size);
            }
            assert forall|j: int| i <= j < free.len() implies (#[trigger] free[j]).size >= size by {
                if j < rest.len() {
                    assert(rest[j].size >= size);
                }
            }
        }
    }
}

proof fn lemma_bucket_at(free: Seq<BucketView>, i: int)
    requires
        ordered(free),
        0 <= i < free.len(),
    ensures
        best_fit(free, free[i].size) == i,
        has_bucket(free, free[i].size),
        free_of(free, free[i].size) == free[i].buffers.len(),
{
    assert(splits(free, free[i].size, i)) by {
        assert forall|j: int| 0 <= j < i implies (#[trigger] free[j]).size < free[i].size by {}
        assert forall|j: int| i <= j < free.len() implies (#[trigger] free[j]).size
            >= free[i].size by {
            if i < j {
                assert(free[i].size < free[j].size);
            }
        }
    }
    lemma_splits_once(free, free[i].size, i);
}

proof fn lemma_no_bucket(free: Seq<BucketView>, size: usize)
    requires
        ordered(free),
        forall|i: int| 0 <= i < free.len() ==> (#[trigger] free[i]).size != size,
    ensures
        !has_bucket(free, size),
        free_of(free, size) == 0,
{
    lemma_best_fit(free, size);
}

/// Where the buffer stood that stands at position `l` of bucket `j` once buffer `k` of bucket `i`
/// is gone.
spec fn untaken(free: Seq<BucketView>, i: int, k: int, j: int, l: int) -> (int, int) {
    if free[i].buffers.len() == 1 {
        (if j < i { j } else { j + 1 }, l)
    } else if j == i && l >= k {
        (j, l + 1)
    } else {
        (j, l)
    }
}

proof fn lemma_taken(free: Seq<BucketView>, i: int, k: int)
    requires
        ordered(free),
        holds(free, i, k),
    ensures
        ordered(taken(free, i, k)),
        forall|s: usize| #[trigger]
            free_of(taken(free, i, k), s) == free_of(free, s) - (if s == free[i].size {
                1int
            } else {
                0
            }),
        free_bytes_of(taken(free, i, k)) == free_bytes_of(free) - free[i].size,
        free_count_of(taken(free, i, k)) == free_count_of(free) - 1,
        sized(free) ==> sized(taken(free, i, k)),
        forall|now: u64| aged(free, now) ==> #[trigger] aged(taken(free, i, k), now),
        forall|j: int, l: int| #[trigger]
            holds(taken(free, i, k), j, l) ==> {
                let (j0, l0) = untaken(free, i, k, j, l);
                &&& holds(free, j0, l0)
                &&& (j0, l0) != (i, k)
                &&& taken(free, i, k)[j].size == free[j0].size
                &&& taken(free, i, k)[j].buffers[l] == free[j0].buffers[l0]
            },
{
    let new = taken(free, i, k);
    let b = free[i];
    let less = BucketView { size: b.size, buffers: b.buffers.remove(k) };
    let by_bytes = |b: BucketView| b.bytes();
    let by_count = |b: BucketView| b.buffers.len() as int;
    assert(b.bytes() - b.size == b.size * (b.buffers.len() - 1)) by (nonlinear_arith)
        requires
            b.bytes() == b.size * b.buffers.len(),
    ;
    if b.buffers.len() == 1 {
        sums::lemma_total_remove(free, by_bytes, i);
        sums::lemma_total_remove(free, by_count, i);
        assert forall|j: int, m: int| 0 <= j < m < new.len() implies (#[trigger] new[j]).size < (
        #[trigger] new[m]).size by {
            let j0 = if j < i { j } else { j + 1 };
            let m0 = if m < i { m } else { m + 1 };
            assert(free[j0].size < free[m0].size);
        }
        assert forall|j: int| 0 <= j < new.len() implies (#[trigger] new[j]).buffers.len() > 0 by {
            let j0 = if j < i { j } else { j + 1 };
            assert(free[j0].buffers.len() > 0);
        }
    } else {
        sums::lemma_total_update(free, by_bytes, i, less);
        sums::lemma_total_update(free, by_count, i, less);
    }
    assert(ordered(new));
    assert forall|s: usize| #[trigger]
        free_of(new, s) == free_of(free, s) - (if s == b.size {
            1int
        } else {
            0
        }) by {
        lemma_bucket_at(free, i);
        if exists|j: int| 0 <= j < free.len() && (#[trigger] free[j]).size == s {
            let j = choose|j: int| 0 <= j < free.len() && (#[trigger] free[j]).size == s;
            lemma_bucket_at(free, j);
            if j == i && b.buffers.len() == 1 {
                assert forall|m: int| 0 <= m < new.len() implies (#[trigger] new[m]).size != s by {
                    let m0 = if m < i { m } else { m + 1 };
                    if m0 < i {
                        assert(free[m0].size < free[i].size);
                    } else {
                        assert(free[i].size < free[m0].size);
                    }
                }
                lemma_no_bucket(new, s);
            } else {
                let j1 = if b.buffers.len() == 1 && j > i { j - 1 } else { j };
                assert(new[j1].size == s);
                lemma_bucket_at(new, j1);
                if j != i {
                    if j < i {
                        assert(free[j].size < free[i].size);
                    } else {
                        assert(free[i].size < free[j].size);
                    }
                }
            }
        } else {
            assert forall|m: int| 0 <= m < new.len() implies (#[trigger] new[m]).size != s by {
                let m0 = if b.buffers.len() == 1 && m >= i { m + 1 } else { m };
                assert(free[m0].size != s);
            }
            lemma_no_bucket(free, s);
            lemma_no_bucket(new, s);
        }
    }
    assert forall|j: int, l: int| #[trigger] holds(new, j, l) implies {
        let (j0, l0) = untaken(free, i, k, j, l);
        &&& holds(free, j0, l0)
        &&& (j0, l0) != (i, k)
        &&& new[j].size == free[j0].size
        &&& new[j].buffers[l] == free[j0].buffers[l0]
    } by {
        let (j0, l0) = untaken(free, i, k, j, l);
        assert(free[j0].buffers.len() > 0);
    }
    if sized(free) {
        assert forall|j: int, l: int|
            0 <= j < new.len() && 0 <= l < new[j].buffers.len() implies (
        #[trigger] new[j].buffers[l]).buffer.spec_length() == new[j].size by {
            assert(holds(new, j, l));
            let (j0, l0) = untaken(free, i, k, j, l);
            assert(free[j0].buffers[l0].buffer.spec_length() == free[j0].size);
        }
    }
    assert forall|now: u64| aged(free, now) implies #[trigger] aged(new, now) by {
        lemma_keeps_age(free, new, i, k, now);
    }
}

proof fn lemma_keeps_age(
    free: Seq<BucketView>,
    new: Seq<BucketView>,
    i: int,
    k: int,
    now: u64,
)
    requires
        aged(free, now),
        holds(free, i, k),
        forall|j: int, l: int| #[trigger]
            holds(new, j, l) ==> {
                let (j0, l0) = untaken(free, i, k, j, l);
                &&& holds(free, j0, l0)
                &&& new[j].buffers[l] == free[j0].buffers[l0]
            },
    ensures
        aged(new, now),
{
    assert forall|j: int, l: int| holds(new, j, l) implies #[trigger] since(new, j, l) < now by {
        let (j0, l0) = untaken(free, i, k, j, l);
        assert(since(free, j0, l0) < now);
    }
    assert forall|j: int, l: int, p: int, q: int|
        holds(new, j, l) && holds(new, p, q) && j != p implies #[trigger] since(new, j, l)
        != #[trigger] since(new, p, q) by {
        let (j0, l0) = untaken(free, i, k, j, l);
        let (p0, q0) = untaken(free, i, k, p, q);
        assert(since(free, j0, l0) != since(free, p0, q0));
    }
    assert forall|j: int, l: int, q: int|
        holds(new, j, l) && holds(new, j, q) && l < q implies #[trigger] since(new, j, l)
        < #[trigger] since(new, j, q) by {
        let (j0, l0) = untaken(free, i, k, j, l);
        let (p0, q0) = untaken(free, i, k, j, q);
        assert(since(free, j0, l0) < since(free, p0, q0));
    }
}

/// The bucket that was bucket `j` before one more buffer of `size` came.
spec fn ungiven(free: Seq<BucketView>, size: usize, j: int) -> int {
    if !has_bucket(free, size) && j > best_fit(free, size) {
        j - 1
    } else {
        j
    }
}

/// Position `l` of bucket `j` is where one more buffer of `size` comes to stand.
spec fn is_given(free: Seq<BucketView>, size: usize, j: int, l: int) -> bool {
    &&& j == best_fit(free, size)
    &&& l == if has_bucket(free, size) {
        free[j].buffers.len() as int
    } else {
        0
    }
}

proof fn lemma_given(free: Seq<BucketView>, size: usize, buffer: FreeBuffer)
    requires
        ordered(free),
    ensures
        ordered(given(free, size, buffer)),
        forall|s: usize| #[trigger]
            free_of(given(free, size, buffer), s) == free_of(free, s) + (if s == size {
                1int
            } else {
                0
            }),
        free_bytes_of(given(free, size, buffer)) == free_bytes_of(free) + size,
        free_count_of(given(free, size, buffer)) == free_count_of(free) + 1,
        sized(free) && buffer.buffer.spec_length() == size ==> sized(given(free, size, buffer)),
        aged(free, buffer.since) && buffer.since < u64::MAX ==> aged(
            given(free, size, buffer),
            (buffer.since + 1) as u64,
        ),
        forall|j: int, l: int| #[trigger]
            holds(given(free, size, buffer), j, l) ==> (given(free, size, buffer)[j].size == size
                && given(free, size, buffer)[j].buffers[l] == buffer) || {
                let j0 = ungiven(free, size, j);
                &&& holds(free, j0, l)
                &&& given(free, size, buffer)[j].size == free[j0].size
                &&& given(free, size, buffer)[j].buffers[l] == free[j0].buffers[l]
            },
{
    let new = given(free, size, buffer);
    let i = best_fit(free, size);
    lemma_best_fit(free, size);
    let by_bytes = |b: BucketView| b.bytes();
    let by_count = |b: BucketView| b.buffers.len() as int;
    let had = has_bucket(free, size);
    if had {
        let b = free[i];
        let more = BucketView { size, buffers: b.buffers.push(buffer) };
        assert(b.bytes() + size == size * (b.buffers.len() + 1)) by (nonlinear_arith)
            requires
                b.bytes() == size * b.buffers.len(),
        ;
        sums::lemma_total_update(free, by_bytes, i, more);
        sums::lemma_total_update(free, by_count, i, more);
    } else {
        let one = BucketView { size, buffers: seq![buffer] };
        assert(one.bytes() == size) by (nonlinear_arith)
            requires
                one.bytes() == size * one.buffers.len(),
                one.buffers.len() == 1,
        ;
        sums::lemma_total_insert(free, by_bytes, i, one);
        sums::lemma_total_insert(free, by_count, i, one);
        assert forall|j: int, k: int| 0 <= j < k < new.len() implies (#[trigger] new[j]).size < (
        #[trigger] new[k]).size by {
            let j0 = if j < i { j } else { j - 1 };
            let k0 = if k < i { k } else { k - 1 };
            if j != i && k != i {
                assert(free[j0].size < free[k0].size);
            } else if j == i {
                assert(free[k0].size >= size);
                assert(free[i].size != size);
                if k0 > i {
                    assert(free[i].size < free[k0].size);
                }
            } else {
                assert(free[j0].size < size);
            }
        }
        assert forall|j: int| 0 <= j < new.len() implies (#[trigger] new[j]).buffers.len() > 0 by {
            let j0 = if j < i { j } else { j - 1 };
            if j != i {
                assert(free[j0].buffers.len() > 0);
            }
        }
    }
    assert(ordered(new));
    assert forall|s: usize| #[trigger]
        free_of(new, s) == free_of(free, s) + (if s == size {
            1int
        } else {
            0
        }) by {
        if s == size {
            assert(new[i].size == size);
            lemma_bucket_at(new, i);
        } else if exists|j: int| 0 <= j < free.len() && (#[trigger] free[j]).size == s {
            let j = choose|j: int| 0 <= j < free.len() && (#[trigger] free[j]).size == s;
            lemma_bucket_at(free, j);
            let j1 = if !had && j >= i { j + 1 } else { j };
            assert(new[j1].size == s);
            lemma_bucket_at(new, j1);
        } else {
            assert forall|k: int| 0 <= k < new.len() implies (#[trigger] new[k]).size != s by {
                let k0 = if !had && k > i { k - 1 } else { k };
                if k != i || had {
                    assert(free[k0].size != s);
                }
            }
            lemma_no_bucket(free, s);
            lemma_no_bucket(new, s);
        }
    }
    assert forall|j: int, l: int| #[trigger] holds(new, j, l) implies is_given(
        free,
        size,
        j,
        l,
    ) && new[j].size == size && new[j].buffers[l] == buffer || {
        let j0 = ungiven(free, size, j);
        &&& !is_given(free, size, j, l)
        &&& had || j != i
        &&& holds(free, j0, l)
        &&& new[j].size == free[j0].size
        &&& new[j].buffers[l] == free[j0].buffers[l]
    } by {
        if j == i && had && l == free[i].buffers.len() {
        } else if j == i && !had {
        } else {
            let j0 = ungiven(free, size, j);
            assert(holds(free, j0, l));
        }
    }
    if sized(free) && buffer.buffer.spec_length() == size {
        assert forall|j: int, l: int|
            0 <= j < new.len() && 0 <= l < new[j].buffers.len() implies (
        #[trigger] new[j].buffers[l]).buffer.spec_length() == new[j].size by {
            assert(holds(new, j, l));
            let j0 = ungiven(free, size, j);
            if !is_given(free, size, j, l) {
                assert(free[j0].buffers[l].buffer.spec_length() == free[j0].size);
            }
        }
    }
    if aged(free, buffer.since) && buffer.since < u64::MAX {
        lemma_newest_last(free, new, size, buffer);
    }
}

proof fn lemma_newest_last(
    free: Seq<BucketView>,
    new: Seq<BucketView>,
    size: usize,
    buffer: FreeBuffer,
)
    requires
        aged(free, buffer.since),
        buffer.since < u64::MAX,
        forall|j: int, l: int| #[trigger]
            holds(new, j, l) ==> is_given(free, size, j, l) && new[j].buffers[l] == buffer || {
                let j0 = ungiven(free, size, j);
                &&& !is_given(free, size, j, l)
                &&& has_bucket(free, size) || j != best_fit(free, size)
                &&& holds(free, j0, l)
                &&& new[j].buffers[l] == free[j0].buffers[l]
            },
    ensures
        aged(new, (buffer.since + 1) as u64),
{
    let now = (buffer.since + 1) as u64;
    assert forall|j: int, l: int| holds(new, j, l) implies #[trigger] since(new, j, l) < now by {
        if !is_given(free, size, j, l) {
            assert(since(free, ungiven(free, size, j), l) < buffer.since);
        }
    }
    assert forall|j: int, l: int, p: int, q: int|
        holds(new, j, l) && holds(new, p, q) && j != p implies #[trigger] since(new, j, l)
        != #[trigger] since(new, p, q) by {
        let j0 = ungiven(free, size, j);
        let p0 = ungiven(free, size, p);
        if is_given(free, size, j, l) {
            assert(since(free, p0, q) < buffer.since);
        } else if is_given(free, size, p, q) {
            assert(since(free, j0, l) < buffer.since);
        } else {
            assert(since(free, j0, l) != since(free, p0, q));
        }
    }
    assert forall|j: int, l: int, q: int|
        holds(new, j, l) && holds(new, j, q) && l < q implies #[trigger] since(new, j, l)
        < #[trigger] since(new, j, q) by {
        let j0 = ungiven(free, size, j);
        if is_given(free, size, j, q) {
            assert(since(free, j0, l) < buffer.since);
        } else if is_given(free, size, j, l) {
            assert(holds(free, j0, q));
        } else {
            assert(since(free, j0, l) < since(free, j0, q));
        }
    }
}

proof fn lemma_oldest_bucket(free: Seq<BucketView>, n: int) -> (i: int)
    requires
        0 < n <= free.len(),
        forall|j: int| 0 <= j < free.len() ==> (#[trigger] free[j]).buffers.len() > 0,
    ensures
        0 <= i < n,
        forall|j: int| 0 <= j < n ==> since(free, i, 0) <= #[trigger] since(free, j, 0),
    decreases n,
{
    if n == 1 {
        0
    } else {
        let i = lemma_oldest_bucket(free, n - 1);
        if since(free, n - 1, 0) < since(free, i, 0) {
            n - 1
        } else {
            i
        }
    }
}

/// One buffer has been free for longest.
pub proof fn lemma_longest_once(free: Seq<BucketView>, now: u64, i: int, k: int)
    requires
        aged(free, now),
        free_longest(free, i, k),
    ensures
        longest(free) == (i, k),
{
    let (j, l) = longest(free);
    assert(free_longest(free, j, l));
    assert(since(free, i, k) <= since(free, j, l) <= since(free, i, k));
}

/// Where anything is free, something has been free for longest.
proof fn lemma_longest(free: Seq<BucketView>, now: u64)
    requires
        ordered(free),
        aged(free, now),
        free.len() > 0,
    ensures
        free_longest(free, longest(free).0, longest(free).1),
{
    let i = lemma_oldest_bucket(free, free.len() as int);
    assert(free[i].buffers.len() > 0);
    assert forall|j: int, l: int| holds(free, j, l) implies since(free, i, 0) <= #[trigger] since(
        free,
        j,
        l,
    ) by {
        assert(since(free, i, 0) <= since(free, j, 0));
        if l > 0 {
            assert(holds(free, j, 0));
            assert(since(free, j, 0) < since(free, j, l));
        }
    }
    assert(free_longest(free, i, 0));
}

/// A pool as mathematical values.
#[verifier::ext_equal]
pub struct PoolView {
    /// Buffers that can be handed out, by size, smallest first.
    pub free: Seq<BucketView>,
    /// Buffers that callers hold, and their bytes.
    pub live_buffers: usize,
    pub live_bytes: usize,
    /// Buffers that were released and that the device may still be using, oldest first.
    pub pending: Seq<PendingBuffer>,
    /// Bytes of the free buffers.
    pub free_bytes: usize,
    /// How many buffers have become free so far, some of them more than once.
    pub frees: u64,
    /// Cap on `free_bytes`.
    pub free_budget: usize,
    /// Cap on the bytes that no planner owns.
    pub residual: Option<ResidualCap>,
    pub counters: PoolCounters,
}

impl PoolView {
    /// A pool that holds nothing.
    pub open spec fn fresh() -> Self {
        PoolView {
            free: Seq::empty(),
            live_buffers: 0,
            live_bytes: 0,
            pending: Seq::empty(),
            free_bytes: 0,
            frees: 0,
            free_budget: DEFAULT_FREE_BUDGET_BYTES,
            residual: None,
            counters: no_counts(),
        }
    }

    pub open spec fn pending_bytes(self) -> int {
        pending_bytes_of(self.pending)
    }

    /// Bytes that the process holds through this pool.
    pub open spec fn held_bytes(self) -> int {
        self.live_bytes + self.free_bytes + self.pending_bytes()
    }

    pub open spec fn held_buffers(self) -> int {
        self.live_buffers + free_count_of(self.free) + self.pending.len()
    }

    /// What holds of a pool at every step of every operation.
    pub open spec fn consistent(self) -> bool {
        &&& ordered(self.free)
        &&& sized(self.free)
        &&& aged(self.free, self.frees)
        &&& self.free_bytes == free_bytes_of(self.free)
        &&& forall|p: int|
            0 <= p < self.pending.len() ==> (#[trigger] self.pending[p]).buffer.spec_length()
                == self.pending[p].size
        &&& self.frees + self.pending.len() <= u64::MAX
        &&& self.held_bytes() <= usize::MAX
        &&& self.held_buffers() <= usize::MAX
    }

    /// What holds of a pool between operations: the free lists are inside their budget as well.
    pub open spec fn well_formed(self) -> bool {
        &&& self.consistent()
        &&& self.free_bytes <= self.free_budget
    }

    /// The buffer at the end of bucket `i` goes to a caller.
    pub open spec fn lent(self, i: int) -> Self {
        PoolView {
            free: taken(self.free, i, self.free[i].buffers.len() - 1),
            free_bytes: (self.free_bytes - self.free[i].size) as usize,
            live_buffers: (self.live_buffers + 1) as usize,
            live_bytes: (self.live_bytes + self.free[i].size) as usize,
            ..self
        }
    }

    /// What a lookup counts: one probe where a bucket has the very size, two otherwise.
    pub open spec fn looked_up(self, exact: bool, hit: bool) -> Self {
        PoolView {
            counters: PoolCounters {
                lookups: (self.counters.lookups + 1) as u64,
                buckets_probed: (self.counters.buckets_probed + if exact {
                    1int
                } else {
                    2int
                }) as u64,
                hits: (self.counters.hits + if hit {
                    1int
                } else {
                    0int
                }) as u64,
                ..self.counters
            },
            ..self
        }
    }

    /// A buffer comes back from a caller and is parked until `epoch` has finished.
    pub open spec fn parked(self, buffer: Buffer, size: usize, epoch: u64) -> Self {
        PoolView {
            live_buffers: if self.live_buffers >= 1 {
                (self.live_buffers - 1) as usize
            } else {
                0
            },
            live_bytes: if self.live_bytes >= size {
                (self.live_bytes - size) as usize
            } else {
                0
            },
            pending: self.pending.push(PendingBuffer { buffer, size, epoch }),
            counters: PoolCounters {
                releases: (self.counters.releases + 1) as u64,
                deferred: (self.counters.deferred + 1) as u64,
                pending: (self.pending.len() + 1) as u64,
                ..self.counters
            },
            ..self
        }
    }

    /// The buffer that has been parked for longest becomes free.
    pub open spec fn unparked(self) -> Self {
        let p = self.pending[0];
        PoolView {
            pending: self.pending.drop_first(),
            free: given(self.free, p.size, FreeBuffer { buffer: p.buffer, since: self.frees }),
            free_bytes: (self.free_bytes + p.size) as usize,
            frees: (self.frees + 1) as u64,
            ..self
        }
    }

    /// How many of the oldest parked buffers the device has finished with, up to the first that
    /// it has not.
    pub open spec fn ready(self, clock: GpuClock) -> nat
        decreases self.pending.len(),
    {
        if self.pending.len() > 0 && clock.has_finished(self.pending[0].epoch) {
            1 + self.unparked().ready(clock)
        } else {
            0
        }
    }

    /// The `n` oldest parked buffers become free, one after another.
    pub open spec fn unparked_by(self, n: nat) -> Self
        decreases n,
    {
        if n == 0 {
            self
        } else {
            self.unparked().unparked_by((n - 1) as nat)
        }
    }

    pub open spec fn count_drained(self, n: nat) -> Self {
        PoolView {
            counters: PoolCounters {
                drained: (self.counters.drained + n) as u64,
                pending: self.pending.len() as u64,
                ..self.counters
            },
            ..self
        }
    }

    /// The buffer that has been free for longest.
    pub open spec fn oldest(self) -> FreeBuffer {
        self.free[longest(self.free).0].buffers[longest(self.free).1]
    }

    /// That buffer is destroyed.
    pub open spec fn evicted_one(self) -> Self {
        let (i, k) = longest(self.free);
        PoolView {
            free: taken(self.free, i, k),
            free_bytes: (self.free_bytes - self.free[i].size) as usize,
            counters: PoolCounters {
                evicted: (self.counters.evicted + 1) as u64,
                ..self.counters
            },
            ..self
        }
    }

    /// The `n` buffers that have been free for longest are destroyed.
    pub open spec fn evicted_by(self, n: nat) -> Self
        decreases n,
    {
        if n == 0 {
            self
        } else {
            self.evicted_one().evicted_by((n - 1) as nat)
        }
    }

    /// The `n` buffers that have been free for longest, the first of them first.
    pub open spec fn oldest_by(self, n: nat) -> Seq<FreeBuffer>
        decreases n,
    {
        if n == 0 {
            Seq::empty()
        } else {
            seq![self.oldest()] + self.evicted_one().oldest_by((n - 1) as nat)
        }
    }

    /// Without the `n` buffers that have been free for longest the free lists are inside their
    /// budget.
    pub open spec fn suffices(self, n: nat) -> bool {
        self.evicted_by(n).free_bytes <= self.free_budget
    }

    /// The least number of buffers that must go for the free lists to be inside their budget,
    /// those going first that have been free for longest.
    pub open spec fn is_surplus(self, n: nat) -> bool {
        self.suffices(n) && forall|m: nat| m < n ==> !#[trigger] self.suffices(m)
    }

    pub open spec fn surplus(self) -> nat {
        choose|n: nat| self.is_surplus(n)
    }

    /// The pool once it is back inside its budget.
    pub open spec fn evicted(self) -> Self {
        self.evicted_by(self.surplus())
    }

    /// The buffers that are destroyed for it.
    pub open spec fn victims(self) -> Seq<Buffer> {
        buffers_of(self.oldest_by(self.surplus()))
    }

    /// The pool once everything the device has finished with is free and counted, before any
    /// eviction.
    pub open spec fn swept(self, clock: GpuClock) -> Self {
        self.unparked_by(self.ready(clock)).count_drained(self.ready(clock))
    }

    /// The pool after a drain.
    pub open spec fn drained(self, clock: GpuClock) -> Self {
        if self.ready(clock) > 0 {
            self.swept(clock).evicted()
        } else {
            self
        }
    }

    /// What a drain destroys.
    pub open spec fn drain_victims(self, clock: GpuClock) -> Seq<Buffer> {
        if self.ready(clock) > 0 {
            self.swept(clock).victims()
        } else {
            Seq::empty()
        }
    }

    /// The pool with nothing free.
    pub open spec fn emptied(self) -> Self {
        PoolView {
            free: Seq::empty(),
            free_bytes: 0,
            counters: PoolCounters {
                trims: (self.counters.trims + 1) as u64,
                trimmed: (self.counters.trimmed + free_count_of(self.free)) as u64,
                ..self.counters
            },
            ..self
        }
    }

    /// Bytes that no planner owns.
    pub open spec fn unplanned(self, cap: ResidualCap) -> int {
        if self.held_bytes() >= cap.planned {
            self.held_bytes() - cap.planned
        } else {
            0
        }
    }

    /// The counters can still count what a drain counts.
    pub open spec fn can_drain(self) -> bool {
        &&& self.counters.drained + self.pending.len() <= u64::MAX
        &&& self.counters.evicted + free_count_of(self.free) + self.pending.len() <= u64::MAX
    }
}

proof fn lemma_pending_bounds(pending: Seq<PendingBuffer>)
    ensures
        pending_bytes_of(pending) >= 0,
        forall|p: int|
            0 <= p < pending.len() ==> (#[trigger] pending[p]).buffer.spec_length()
                <= pending_bytes_of(pending),
{
    let f = |p: PendingBuffer| p.buffer.spec_length() as int;
    sums::lemma_total_bounds(pending, f);
    assert forall|p: int| 0 <= p < pending.len() implies (#[trigger] pending[p]).buffer.spec_length()
        <= pending_bytes_of(pending) by {
        assert(f(pending[p]) <= sums::total(pending, f));
    }
}

proof fn lemma_free_bounds(free: Seq<BucketView>)
    ensures
        free_bytes_of(free) >= 0,
        free_count_of(free) >= 0,
        forall|i: int|
            0 <= i < free.len() ==> (#[trigger] free[i]).bytes() <= free_bytes_of(free)
                && free[i].buffers.len() <= free_count_of(free),
{
    let f = |b: BucketView| b.bytes();
    let g = |b: BucketView| b.buffers.len() as int;
    assert forall|i: int| 0 <= i < free.len() implies f(#[trigger] free[i]) >= 0 by {
        let b = free[i];
        assert(b.size * b.buffers.len() >= 0) by (nonlinear_arith);
    }
    sums::lemma_total_bounds(free, f);
    sums::lemma_total_bounds(free, g);
    assert forall|i: int| 0 <= i < free.len() implies (#[trigger] free[i]).bytes()
        <= free_bytes_of(free) && free[i].buffers.len() <= free_count_of(free) by {
        assert(f(free[i]) <= sums::total(free, f));
        assert(g(free[i]) <= sums::total(free, g));
    }
}

/// A pool holds at least what its callers hold.
pub proof fn lemma_held_covers_live(v: PoolView)
    ensures
        v.live_bytes <= v.held_bytes(),
        v.live_buffers <= v.held_buffers(),
{
    lemma_free_bounds(v.free);
    lemma_pending_bounds(v.pending);
}

/// A buffer of bucket `i` is no larger than all that is free.
proof fn lemma_bucket_bytes(free: Seq<BucketView>, i: int)
    requires
        ordered(free),
        0 <= i < free.len(),
    ensures
        free[i].size <= free_bytes_of(free),
        free_count_of(free) >= 1,
{
    lemma_free_bounds(free);
    let b = free[i];
    assert(b.buffers.len() > 0);
    assert(b.size <= b.bytes()) by (nonlinear_arith)
        requires
            b.bytes() == b.size * b.buffers.len(),
            b.buffers.len() >= 1,
    ;
}

proof fn lemma_unparked(v: PoolView)
    requires
        v.consistent(),
        v.pending.len() > 0,
    ensures
        v.unparked().consistent(),
        v.unparked().free_bytes == v.free_bytes + v.pending[0].size,
        v.unparked().held_bytes() == v.held_bytes(),
        v.unparked().held_buffers() == v.held_buffers(),
{
    let p = v.pending[0];
    let w = v.unparked();
    lemma_given(v.free, p.size, FreeBuffer { buffer: p.buffer, since: v.frees });
    lemma_pending_bounds(v.pending);
    let f = |p: PendingBuffer| p.buffer.spec_length() as int;
    sums::lemma_total_remove(v.pending, f, 0);
    assert(v.pending.remove(0) =~= v.pending.drop_first());
    assert(w.pending_bytes() == v.pending_bytes() - p.size);
    lemma_pending_bounds(w.pending);
    assert forall|q: int| 0 <= q < w.pending.len() implies (
    #[trigger] w.pending[q]).buffer.spec_length() == w.pending[q].size by {
        assert(w.pending[q] == v.pending[q + 1]);
    }
}

proof fn lemma_evicted_one(v: PoolView)
    requires
        v.consistent(),
        v.free.len() > 0,
    ensures
        free_longest(v.free, longest(v.free).0, longest(v.free).1),
        v.evicted_one().consistent(),
        v.evicted_one().held_bytes() == v.held_bytes() - v.oldest().buffer.spec_length(),
        v.evicted_one().held_buffers() == v.held_buffers() - 1,
        free_count_of(v.evicted_one().free) == free_count_of(v.free) - 1,
        v.evicted_one().free_bytes <= v.free_bytes,
{
    let (i, k) = longest(v.free);
    lemma_longest(v.free, v.frees);
    lemma_taken(v.free, i, k);
    lemma_bucket_bytes(v.free, i);
    assert(v.free[i].buffers[k].buffer.spec_length() == v.free[i].size);
    assert(aged(v.evicted_one().free, v.frees));
}

/// A pool with bytes over its budget has something free.
proof fn lemma_over_budget(v: PoolView)
    requires
        v.consistent(),
        v.free_bytes > v.free_budget,
    ensures
        v.free.len() > 0,
        free_count_of(v.free) > 0,
{
    if v.free.len() == 0 {
        assert(free_bytes_of(v.free) == 0);
    }
    lemma_bucket_bytes(v.free, 0);
}

/// There is one surplus.
pub proof fn lemma_surplus_once(v: PoolView, n: nat)
    requires
        v.is_surplus(n),
    ensures
        v.surplus() == n,
{
    let m = v.surplus();
    assert(v.is_surplus(m));
    if m < n {
        assert(!v.suffices(m));
    } else if n < m {
        assert(!v.suffices(n));
    }
}

proof fn lemma_has_surplus(v: PoolView)
    requires
        v.consistent(),
    ensures
        v.is_surplus(v.surplus()),
        v.free_bytes <= v.free_budget <==> v.surplus() == 0,
        v.surplus() > 0 ==> v.free.len() > 0 && v.evicted_one().surplus() == v.surplus() - 1,
        v.surplus() <= free_count_of(v.free),
    decreases free_count_of(v.free),
{
    lemma_free_bounds(v.free);
    if v.free_bytes <= v.free_budget {
        assert(v.suffices(0));
        assert(v.is_surplus(0));
        lemma_surplus_once(v, 0);
    } else {
        let w = v.evicted_one();
        lemma_over_budget(v);
        lemma_evicted_one(v);
        lemma_has_surplus(w);
        let n = (w.surplus() + 1) as nat;
        assert(v.suffices(n));
        assert forall|m: nat| m < n implies !#[trigger] v.suffices(m) by {
            if m > 0 {
                assert(!w.suffices((m - 1) as nat));
            }
        }
        assert(v.is_surplus(n));
        lemma_surplus_once(v, n);
    }
}

proof fn lemma_evicted(v: PoolView)
    requires
        v.consistent(),
    ensures
        v.evicted().well_formed(),
        v.evicted().pending == v.pending,
        v.evicted().live_buffers == v.live_buffers,
        v.evicted().live_bytes == v.live_bytes,
        v.evicted().counters.trims == v.counters.trims,
        v.evicted().counters.trimmed == v.counters.trimmed,
        v.evicted().held_bytes() + bytes_of(v.victims()) == v.held_bytes(),
        v.evicted().held_buffers() + v.victims().len() == v.held_buffers(),
        v.victims().len() == v.surplus(),
    decreases free_count_of(v.free),
{
    lemma_has_surplus(v);
    lemma_free_bounds(v.free);
    let f = |b: Buffer| b.spec_length() as int;
    if v.surplus() > 0 {
        let w = v.evicted_one();
        lemma_evicted_one(v);
        lemma_evicted(w);
        lemma_victims(v);
        sums::lemma_total_add(seq![v.oldest().buffer], w.victims(), f);
        sums::lemma_total_push(Seq::<Buffer>::empty(), f, v.oldest().buffer);
        assert(Seq::<Buffer>::empty().push(v.oldest().buffer) =~= seq![v.oldest().buffer]);
    }
}

/// The victims are the buffer that has been free for longest and those of the pool without it.
proof fn lemma_victims(v: PoolView)
    requires
        v.consistent(),
        v.surplus() > 0,
    ensures
        v.evicted() == v.evicted_one().evicted(),
        v.victims() == seq![v.oldest().buffer] + v.evicted_one().victims(),
{
    lemma_has_surplus(v);
    let w = v.evicted_one();
    let rest = w.oldest_by(w.surplus());
    assert(v.oldest_by(v.surplus()) == seq![v.oldest()] + rest);
    assert(buffers_of(seq![v.oldest()] + rest) =~= seq![v.oldest().buffer] + buffers_of(rest));
}

proof fn lemma_unparked_by(v: PoolView, clock: GpuClock)
    requires
        v.consistent(),
    ensures
        v.ready(clock) <= v.pending.len(),
        v.unparked_by(v.ready(clock)).consistent(),
        v.unparked_by(v.ready(clock)).pending == v.pending.skip(v.ready(clock) as int),
        v.unparked_by(v.ready(clock)).held_bytes() == v.held_bytes(),
        v.unparked_by(v.ready(clock)).held_buffers() == v.held_buffers(),
        v.unparked_by(v.ready(clock)).live_bytes == v.live_bytes,
        v.unparked_by(v.ready(clock)).live_buffers == v.live_buffers,
        v.unparked_by(v.ready(clock)).counters == v.counters,
        v.unparked_by(v.ready(clock)).free_budget == v.free_budget,
        forall|p: int|
            0 <= p < v.ready(clock) ==> clock.has_finished((#[trigger] v.pending[p]).epoch),
        v.ready(clock) < v.pending.len() ==> !clock.has_finished(
            v.pending[v.ready(clock) as int].epoch,
        ),
    decreases v.pending.len(),
{
    if v.pending.len() > 0 && clock.has_finished(v.pending[0].epoch) {
        let w = v.unparked();
        lemma_unparked(v);
        lemma_unparked_by(w, clock);
        assert(w.pending.skip(w.ready(clock) as int) =~= v.pending.skip(v.ready(clock) as int));
        assert forall|p: int| 0 <= p < v.ready(clock) implies clock.has_finished(
            (#[trigger] v.pending[p]).epoch,
        ) by {
            if p > 0 {
                assert(w.pending[p - 1] == v.pending[p]);
            }
        }
        if v.ready(clock) < v.pending.len() {
            assert(w.pending[w.ready(clock) as int] == v.pending[v.ready(clock) as int]);
        }
    } else {
        assert(v.pending.skip(0) =~= v.pending);
    }
}

spec fn bucket_views(free: Seq<Bucket>) -> Seq<BucketView> {
    Seq::new(free.len(), |i: int| free[i]@)
}

/// Default cap on bytes held in the free lists.
pub const DEFAULT_FREE_BUDGET_BYTES: usize = 268_435_456;

/// The device-side buffer pool.
#[derive(Debug)]
pub struct BufferPool {
    free: Vec<Bucket>,
    live_buffers: usize,
    live_bytes: usize,
    pending: VecDeque<PendingBuffer>,
    free_bytes: usize,
    frees: u64,
    free_order: VecDeque<QueueEntry>,
    free_budget: usize,
    residual: Option<ResidualCap>,
    counters: PoolCounters,
}

impl View for BufferPool {
    type V = PoolView;

    /// All but the queue, which only finds what the free buffers' own ages already say: see
    /// `keeps_order`.
    closed spec fn view(&self) -> PoolView {
        PoolView {
            free: bucket_views(self.free@),
            live_buffers: self.live_buffers,
            live_bytes: self.live_bytes,
            pending: self.pending@,
            free_bytes: self.free_bytes,
            frees: self.frees,
            free_budget: self.free_budget,
            residual: self.residual,
            counters: self.counters,
        }
    }
}

/// The queue holds an entry for every free buffer, in the order in which they became free. An
/// entry whose buffer has been handed out since then is stale.
spec fn lists(order: Seq<QueueEntry>, free: Seq<BucketView>, now: u64) -> bool {
    &&& forall|p: int, q: int|
        0 <= p < q < order.len() ==> (#[trigger] order[p]).since < (#[trigger] order[q]).since
    &&& forall|p: int| 0 <= p < order.len() ==> (#[trigger] order[p]).since < now
    &&& forall|i: int, k: int| #[trigger]
        holds(free, i, k) ==> order.contains(
            QueueEntry { size: free[i].size, since: since(free, i, k) },
        )
}

proof fn lemma_lists_fewer(
    order: Seq<QueueEntry>,
    free: Seq<BucketView>,
    now: u64,
    i: int,
    k: int,
)
    requires
        lists(order, free, now),
        ordered(free),
        holds(free, i, k),
    ensures
        lists(order, taken(free, i, k), now),
{
    let new = taken(free, i, k);
    lemma_taken(free, i, k);
    assert forall|j: int, l: int| #[trigger] holds(new, j, l) implies order.contains(
        QueueEntry { size: new[j].size, since: since(new, j, l) },
    ) by {
        let (j0, l0) = untaken(free, i, k, j, l);
        assert(holds(free, j0, l0));
    }
}

proof fn lemma_lists_more(
    order: Seq<QueueEntry>,
    free: Seq<BucketView>,
    size: usize,
    buffer: FreeBuffer,
)
    requires
        lists(order, free, buffer.since),
        ordered(free),
        buffer.since < u64::MAX,
    ensures
        lists(
            order.push(QueueEntry { size, since: buffer.since }),
            given(free, size, buffer),
            (buffer.since + 1) as u64,
        ),
{
    let new = given(free, size, buffer);
    let entry = QueueEntry { size, since: buffer.since };
    let more = order.push(entry);
    lemma_given(free, size, buffer);
    assert(more[order.len() as int] == entry);
    assert forall|j: int, l: int| #[trigger] holds(new, j, l) implies more.contains(
        QueueEntry { size: new[j].size, since: since(new, j, l) },
    ) by {
        let j0 = ungiven(free, size, j);
        if !(new[j].size == size && new[j].buffers[l] == buffer) {
            let e = QueueEntry { size: free[j0].size, since: since(free, j0, l) };
            assert(holds(free, j0, l));
            assert(order.contains(e));
            let p = choose|p: int| 0 <= p < order.len() && order[p] == e;
            assert(more[p] == e);
        }
    }
}

/// The first entry of the queue names the buffer that has been free for longest, where that buffer
/// has not been handed out, and is needed for no other.
proof fn lemma_first_listed(order: Seq<QueueEntry>, free: Seq<BucketView>, now: u64)
    requires
        lists(order, free, now),
        ordered(free),
        aged(free, now),
        order.len() > 0,
    ensures
        forall|i: int|
            0 <= i < free.len() && (#[trigger] free[i]).size == order[0].size && since(free, i, 0)
                == order[0].since ==> free_longest(free, i, 0),
        (forall|i: int|
            0 <= i < free.len() && (#[trigger] free[i]).size == order[0].size ==> since(free, i, 0)
                != order[0].since) ==> lists(order.drop_first(), free, now),
{
    let first = order[0];
    let rest = order.drop_first();
    assert forall|j: int, l: int| holds(free, j, l) implies first.since <= #[trigger] since(
        free,
        j,
        l,
    ) by {
        let e = QueueEntry { size: free[j].size, since: since(free, j, l) };
        assert(order.contains(e));
        let p = choose|p: int| 0 <= p < order.len() && order[p] == e;
        if p > 0 {
            assert(order[0].since < order[p].since);
        }
    }
    assert forall|i: int|
        0 <= i < free.len() && (#[trigger] free[i]).size == first.size && since(free, i, 0)
            == first.since implies free_longest(free, i, 0) by {
        assert(free[i].buffers.len() > 0);
    }
    if forall|i: int|
        0 <= i < free.len() && (#[trigger] free[i]).size == first.size ==> since(free, i, 0)
            != first.since {
        assert forall|j: int, l: int| #[trigger] holds(free, j, l) implies rest.contains(
            QueueEntry { size: free[j].size, since: since(free, j, l) },
        ) by {
            let e = QueueEntry { size: free[j].size, since: since(free, j, l) };
            assert(order.contains(e));
            let p = choose|p: int| 0 <= p < order.len() && order[p] == e;
            if p == 0 {
                assert(free[j].size == first.size);
                assert(holds(free, j, 0));
                assert(first.since <= since(free, j, 0));
                if l > 0 {
                    assert(since(free, j, 0) < since(free, j, l));
                }
            } else {
                assert(rest[p - 1] == e);
            }
        }
    }
}

/// The queue without its first entry still lists what is free without the buffer that it names.
proof fn lemma_lists_rest(
    order: Seq<QueueEntry>,
    free: Seq<BucketView>,
    now: u64,
    i: int,
)
    requires
        lists(order, free, now),
        ordered(free),
        aged(free, now),
        order.len() > 0,
        0 <= i < free.len(),
        free[i].size == order[0].size,
        since(free, i, 0) == order[0].since,
    ensures
        lists(order.drop_first(), taken(free, i, 0), now),
{
    let new = taken(free, i, 0);
    let rest = order.drop_first();
    assert(free[i].buffers.len() > 0);
    lemma_taken(free, i, 0);
    assert forall|j: int, l: int| #[trigger] holds(new, j, l) implies rest.contains(
        QueueEntry { size: new[j].size, since: since(new, j, l) },
    ) by {
        let (j0, l0) = untaken(free, i, 0, j, l);
        let e = QueueEntry { size: free[j0].size, since: since(free, j0, l0) };
        assert(holds(free, j0, l0));
        assert(order.contains(e));
        let p = choose|p: int| 0 <= p < order.len() && order[p] == e;
        if p == 0 {
            if j0 == i {
                assert(since(free, i, 0) < since(free, i, l0));
            } else {
                assert(since(free, i, 0) != since(free, j0, l0));
            }
        } else {
            assert(rest[p - 1] == e);
        }
    }
}

/// An entry that does not name the first buffer of the bucket of its size names no first buffer.
proof fn lemma_stale(free: Seq<BucketView>, entry: QueueEntry, i: int)
    requires
        ordered(free),
        splits(free, entry.size, i),
        i < free.len() && free[i].size == entry.size ==> since(free, i, 0) != entry.since,
    ensures
        forall|j: int|
            0 <= j < free.len() && (#[trigger] free[j]).size == entry.size ==> since(free, j, 0)
                != entry.since,
{
    assert forall|j: int|
        0 <= j < free.len() && (#[trigger] free[j]).size == entry.size implies since(free, j, 0)
        != entry.since by {
        if i < j {
            assert(free[i].size < free[j].size);
        }
    }
}

/// Takes buffer `k` of bucket `i`, and the bucket with it if that was its only one.
fn take(free: &mut Vec<Bucket>, i: usize, k: usize) -> (b: Buffer)
    requires
        holds(bucket_views(old(free)@), i as int, k as int),
    ensures
        b == bucket_views(old(free)@)[i as int].buffers[k as int].buffer,
        bucket_views(final(free)@) == taken(bucket_views(old(free)@), i as int, k as int),
{
    let ghost v = bucket_views(free@);
    assert(v[i as int] == free@[i as int]@);
    let b: FreeBuffer = free[i].buffers.remove(k);
    if free[i].buffers.is_empty() {
        free.remove(i);
        proof {
            assert(bucket_views(free@) =~= v.remove(i as int));
        }
    } else {
        proof {
            assert(bucket_views(free@) =~= taken(v, i as int, k as int));
        }
    }
    b.buffer
}

/// The position of the smallest bucket of at least `size` bytes.
fn find(free: &Vec<Bucket>, size: usize) -> (i: usize)
    requires
        ordered(bucket_views(free@)),
    ensures
        splits(bucket_views(free@), size, i as int),
        i == best_fit(bucket_views(free@), size),
{
    let ghost v = bucket_views(free@);
    let mut lo: usize = 0;
    let mut hi: usize = free.len();
    while lo < hi
        invariant
            v == bucket_views(free@),
            ordered(v),
            lo <= hi <= free@.len(),
            forall|j: int| 0 <= j < lo ==> (#[trigger] v[j]).size < size,
            forall|j: int| hi <= j < v.len() ==> (#[trigger] v[j]).size >= size,
        decreases hi - lo,
    {
        let mid: usize = lo + (hi - lo) / 2;
        assert(v[mid as int] == free@[mid as int]@);
        if free[mid].size < size {
            lo = mid + 1;
        } else {
            hi = mid;
        }
    }
    proof {
        lemma_splits_once(v, size, lo as int);
    }
    lo
}

/// Puts a buffer at the end of the bucket of `size`.
fn put(free: &mut Vec<Bucket>, size: usize, buffer: FreeBuffer)
    requires
        ordered(bucket_views(old(free)@)),
    ensures
        bucket_views(final(free)@) == given(bucket_views(old(free)@), size, buffer),
{
    let i: usize = find(free, size);
    if i < free.len() && free[i].size == size {
        free[i].buffers.push(buffer);
        proof {
            assert(bucket_views(free@) =~= given(bucket_views(old(free)@), size, buffer));
        }
    } else {
        let mut buffers: Vec<FreeBuffer> = Vec::new();
        buffers.push(buffer);
        free.insert(i, Bucket { size, buffers });
        proof {
            assert(bucket_views(free@)[i as int].buffers =~= seq![buffer]);
            assert(bucket_views(free@) =~= given(bucket_views(old(free)@), size, buffer));
        }
    }
}

impl BufferPool {
    /// What the pool keeps of the order in which its buffers became free covers all of them.
    pub closed spec fn keeps_order(self) -> bool {
        lists(self.free_order@, self@.free, self.frees)
    }

    /// What holds of a pool between operations.
    pub open spec fn well_formed(self) -> bool {
        &&& self@.well_formed()
        &&& self.keeps_order()
    }

    /// An empty pool.
    pub fn new() -> (p: Self)
        ensures
            p@ == PoolView::fresh(),
            p.well_formed(),
    {
        let p = BufferPool {
            free: Vec::new(),
            live_buffers: 0,
            live_bytes: 0,
            pending: VecDeque::new(),
            free_bytes: 0,
            frees: 0,
            free_order: VecDeque::new(),
            free_budget: DEFAULT_FREE_BUDGET_BYTES,
            residual: None,
            counters: PoolCounters::default(),
        };
        proof {
            assert(bucket_views(p.free@) =~= Seq::empty());
        }
        p
    }

    /// Takes a free buffer of at least `size` bytes, if there is one: one of exactly that size if
    /// possible, else one of the smallest sufficient size.
    ///
    /// `None` means that the caller should allocate.
    pub fn acquire(&mut self, size: usize) -> (res: Option<PooledBuffer>)
        requires
            old(self).well_formed(),
            old(self)@.counters.lookups < u64::MAX,
            old(self)@.counters.buckets_probed <= u64::MAX - 2,
            old(self)@.counters.hits < u64::MAX,
        ensures
            final(self).well_formed(),
            res is Some <==> best_fit(old(self)@.free, size) < old(self)@.free.len(),
            res matches Some(h) ==> {
                let i = best_fit(old(self)@.free, size);
                &&& splits(old(self)@.free, size, i)
                &&& h.is_pooled()
                &&& h.spec_size() == old(self)@.free[i].size
                &&& h.spec_size() >= size
                &&& h.spec_buffer() == old(self)@.free[i].buffers.last().buffer
                &&& h.spec_buffer().spec_length() == h.spec_size()
                &&& final(self)@ == old(self)@.lent(i).looked_up(
                    has_bucket(old(self)@.free, size),
                    true,
                )
            },
            res is None ==> {
                &&& forall|i: int|
                    0 <= i < old(self)@.free.len() ==> (#[trigger] old(self)@.free[i]).size < size
                &&& final(self)@ == old(self)@.looked_up(false, false)
            },
    {
        let i: usize = find(&self.free, size);
        let exact: bool = i < self.free.len() && self.free[i].size == size;
        self.counters.lookups = self.counters.lookups + 1;
        self.counters.buckets_probed = self.counters.buckets_probed + if exact {
            1u64
        } else {
            2u64
        };
        if i == self.free.len() {
            return None;
        }
        proof {
            let v = old(self)@;
            assert(v.free[i as int] == self.free@[i as int]@);
            assert(v.free[i as int].buffers.len() > 0);
            let last = v.free[i as int].buffers.len() - 1;
            lemma_taken(v.free, i as int, last);
            lemma_lists_fewer(self.free_order@, v.free, self.frees, i as int, last);
            lemma_bucket_bytes(v.free, i as int);
            lemma_free_bounds(v.free);
            lemma_pending_bounds(v.pending);
            assert(v.free[i as int].buffers[last].buffer.spec_length() == v.free[i as int].size);
            assert(aged(v.lent(i as int).free, v.frees));
        }
        let bucket_size: usize = self.free[i].size;
        let newest: usize = self.free[i].buffers.len() - 1;
        let buffer: Buffer = take(&mut self.free, i, newest);
        self.free_bytes = self.free_bytes - bucket_size;
        self.counters.hits = self.counters.hits + 1;
        self.live_buffers = self.live_buffers + 1;
        self.live_bytes = self.live_bytes + bucket_size;
        Some(PooledBuffer { buffer, size: bucket_size, pooled: true })
    }

    /// Wraps a freshly created buffer in a pool handle. `size` is the buffer's length, since that
    /// is the bucket it returns to.
    pub fn adopt(&mut self, buffer: Buffer, size: usize) -> (h: PooledBuffer)
        requires
            old(self).well_formed(),
            buffer.spec_length() == size,
            old(self)@.held_bytes() + size <= usize::MAX,
            old(self)@.held_buffers() < usize::MAX,
            old(self)@.counters.allocations < u64::MAX,
            old(self)@.counters.allocated_bytes + size <= u64::MAX,
        ensures
            final(self).well_formed(),
            h.is_pooled(),
            h.spec_buffer() == buffer,
            h.spec_size() == size,
            final(self)@ == (PoolView {
                live_buffers: (old(self)@.live_buffers + 1) as usize,
                live_bytes: (old(self)@.live_bytes + size) as usize,
                counters: PoolCounters {
                    allocations: (old(self)@.counters.allocations + 1) as u64,
                    allocated_bytes: (old(self)@.counters.allocated_bytes + size) as u64,
                    ..old(self)@.counters
                },
                ..old(self)@
            }),
    {
        proof {
            lemma_free_bounds(self@.free);
            lemma_pending_bounds(self@.pending);
        }
        self.counters.allocations = self.counters.allocations + 1;
        self.counters.allocated_bytes = self.counters.allocated_bytes + size as u64;
        self.live_buffers = self.live_buffers + 1;
        self.live_bytes = self.live_bytes + size;
        PooledBuffer { buffer, size, pooled: true }
    }

    /// Hands a buffer back. It is parked until the epoch that is open now has finished: the host
    /// letting go says nothing about the device. A handle with no pool behind it changes nothing.
    pub fn release(&mut self, handle: PooledBuffer, clock: &GpuClock)
        requires
            old(self).well_formed(),
            handle.is_pooled() ==> {
                &&& handle.spec_buffer().spec_length() == handle.spec_size()
                &&& old(self)@.parked(
                    handle.spec_buffer(),
                    handle.spec_size(),
                    clock.submitted,
                ).held_bytes() <= usize::MAX
                &&& old(self)@.parked(
                    handle.spec_buffer(),
                    handle.spec_size(),
                    clock.submitted,
                ).held_buffers() <= usize::MAX
                &&& old(self)@.frees + old(self)@.pending.len() < u64::MAX
                &&& old(self)@.counters.releases < u64::MAX
                &&& old(self)@.counters.deferred < u64::MAX
            },
        ensures
            final(self).well_formed(),
            final(self)@ == (if handle.is_pooled() {
                old(self)@.parked(handle.spec_buffer(), handle.spec_size(), clock.submitted)
            } else {
                old(self)@
            }),
    {
        if !handle.pooled {
            return;
        }
        let size: usize = handle.size;
        self.counters.releases = self.counters.releases + 1;
        self.live_buffers = self.live_buffers.saturating_sub(1);
        self.live_bytes = self.live_bytes.saturating_sub(size);
        self.counters.deferred = self.counters.deferred + 1;
        self.pending.push_back(
            PendingBuffer { buffer: handle.buffer, size, epoch: clock.current_epoch() },
        );
        self.counters.pending = self.pending.len() as u64;
        proof {
            lemma_free_bounds(self@.free);
            assert(self@ =~= old(self)@.parked(handle.buffer, size, clock.submitted));
        }
    }

    /// Destroys the buffers that have been free for longest until the free lists are back inside
    /// their budget, and hands them out so that whoever else lists them can be told first.
    fn evict_over_budget(&mut self) -> (out: Vec<Buffer>)
        requires
            old(self)@.consistent(),
            old(self).keeps_order(),
            old(self)@.counters.evicted + free_count_of(old(self)@.free) <= u64::MAX,
        ensures
            final(self)@ == old(self)@.evicted(),
            final(self).well_formed(),
            out@ == old(self)@.victims(),
    {
        let mut out: Vec<Buffer> = Vec::new();
        assert(out@ + self@.victims() =~= self@.victims());
        while self.free_bytes > self.free_budget && self.free_order.len() > 0
            invariant
                self@.consistent(),
                self.keeps_order(),
                self@.counters.evicted + free_count_of(self@.free) <= u64::MAX,
                self@.evicted() == old(self)@.evicted(),
                out@ + self@.victims() == old(self)@.victims(),
            decreases self.free_order@.len(),
        {
            let ghost v = self@;
            let ghost order = self.free_order@;
            proof {
                lemma_first_listed(order, v.free, v.frees);
            }
            let entry: QueueEntry = self.free_order.pop_front().unwrap();
            assert(self.free_order@ =~= order.drop_first());
            let i: usize = find(&self.free, entry.size);
            proof {
                if i < v.free.len() {
                    assert(v.free[i as int] == self.free@[i as int]@);
                    assert(v.free[i as int].buffers.len() > 0);
                }
            }
            if i < self.free.len() && self.free[i].size == entry.size
                && self.free[i].buffers[0].since == entry.since {
                proof {
                    lemma_longest_once(v.free, v.frees, i as int, 0);
                    lemma_evicted_one(v);
                    lemma_has_surplus(v);
                    lemma_victims(v);
                    lemma_lists_rest(order, v.free, v.frees, i as int);
                    lemma_bucket_bytes(v.free, i as int);
                }
                let buffer: Buffer = take(&mut self.free, i, 0);
                self.free_bytes = self.free_bytes.saturating_sub(entry.size);
                self.counters.evicted = self.counters.evicted + 1;
                let ghost before = out@;
                out.push(buffer);
                proof {
                    assert(self@ =~= v.evicted_one());
                    assert(out@ + self@.victims() =~= before + v.victims());
                }
            } else {
                proof {
                    lemma_stale(v.free, entry, i as int);
                    assert(self@ =~= v);
                }
            }
        }
        proof {
            if self@.free_bytes > self@.free_budget {
                lemma_over_budget(self@);
                assert(self@.free[0].buffers.len() > 0);
                assert(holds(self@.free, 0, 0));
            }
            lemma_has_surplus(self@);
            assert(out@ + self@.victims() =~= out@);
        }
        out
    }

    /// Frees every parked buffer whose epoch has finished, up to the first whose epoch has not.
    /// Call once per command buffer that completes. What it returns is destroyed to stay inside
    /// the budget.
    pub fn drain_completed(&mut self, clock: &GpuClock) -> (out: Vec<Buffer>)
        requires
            old(self).well_formed(),
            old(self)@.can_drain(),
        ensures
            final(self).well_formed(),
            final(self)@ == old(self)@.drained(*clock),
            out@ == old(self)@.drain_victims(*clock),
    {
        let mut n: u64 = 0;
        proof {
            lemma_unparked_by(self@, *clock);
        }
        while self.pending.len() > 0 && clock.is_complete(self.pending[0].epoch)
            invariant
                self@.consistent(),
                self.keeps_order(),
                old(self)@.well_formed(),
                old(self)@.can_drain(),
                n + self@.ready(*clock) == old(self)@.ready(*clock),
                old(self)@.ready(*clock) <= old(self)@.pending.len(),
                self@.unparked_by(self@.ready(*clock)) == old(self)@.unparked_by(
                    old(self)@.ready(*clock),
                ),
                free_count_of(self@.free) == free_count_of(old(self)@.free) + n,
                self@.counters == old(self)@.counters,
            decreases self@.pending.len(),
        {
            let ghost v = self@;
            proof {
                lemma_unparked(v);
                lemma_pending_bounds(v.unparked().pending);
                let b = FreeBuffer { buffer: v.pending[0].buffer, since: v.frees };
                lemma_lists_more(self.free_order@, v.free, v.pending[0].size, b);
            }
            let entry = self.pending.pop_front().unwrap();
            self.free_bytes = self.free_bytes + entry.size;
            self.free_order.push_back(QueueEntry { size: entry.size, since: self.frees });
            put(&mut self.free, entry.size, FreeBuffer { buffer: entry.buffer, since: self.frees });
            self.frees = self.frees + 1;
            n = n + 1;
            proof {
                assert(self@ =~= v.unparked());
            }
        }
        if n > 0 {
            let ghost v = self@;
            self.counters.drained = self.counters.drained + n;
            self.counters.pending = self.pending.len() as u64;
            proof {
                assert(v == v.unparked_by(0));
                assert(self@ =~= old(self)@.swept(*clock));
            }
            return self.evict_over_budget();
        }
        proof {
            assert(self@ == self@.unparked_by(0));
        }
        Vec::new()
    }

    /// Sets the cap on bytes retained in the free lists. What it returns is destroyed at once to
    /// meet the new cap.
    pub fn set_free_budget(&mut self, bytes: usize) -> (out: Vec<Buffer>)
        requires
            old(self).well_formed(),
            old(self)@.counters.evicted + free_count_of(old(self)@.free) <= u64::MAX,
        ensures
            final(self).well_formed(),
            final(self)@ == (PoolView { free_budget: bytes, ..old(self)@ }).evicted(),
            out@ == (PoolView { free_budget: bytes, ..old(self)@ }).victims(),
    {
        self.free_budget = bytes;
        assert(self@ =~= PoolView { free_budget: bytes, ..old(self)@ });
        self.evict_over_budget()
    }

    /// Installs the cap on the bytes that no planner owns. `planned` is the part of what this
    /// pool holds that a planner does own.
    pub fn set_residual_cap(&mut self, limit: usize, planned: usize)
        ensures
            final(self)@ == (PoolView {
                residual: Some(ResidualCap { limit, planned }),
                ..old(self)@
            }),
            old(self).well_formed() ==> final(self).well_formed(),
    {
        self.residual = Some(ResidualCap { limit, planned });
    }

    /// Removes the residual cap.
    pub fn clear_residual_cap(&mut self)
        ensures
            final(self)@ == (PoolView { residual: None, ..old(self)@ }),
            old(self).well_formed() ==> final(self).well_formed(),
    {
        self.residual = None;
    }

    /// Bytes of the buffers that wait for the device.
    fn pending_bytes(&self) -> (n: usize)
        requires
            self@.consistent(),
        ensures
            n == self@.pending_bytes(),
    {
        let ghost f = |p: PendingBuffer| p.buffer.spec_length() as int;
        let mut n: usize = 0;
        for i in 0..self.pending.len()
            invariant
                self@.consistent(),
                n == sums::total(self@.pending.take(i as int), f),
                f == |p: PendingBuffer| p.buffer.spec_length() as int,
        {
            proof {
                let part = self@.pending.take(i + 1);
                assert(part.drop_last() =~= self@.pending.take(i as int));
                assert(self@.pending =~= part + self@.pending.skip(i + 1));
                sums::lemma_total_add(part, self@.pending.skip(i + 1), f);
                lemma_pending_bounds(self@.pending.skip(i + 1));
                lemma_free_bounds(self@.free);
            }
            n = n + self.pending[i].buffer.length();
        }
        assert(self@.pending.take(self@.pending.len() as int) =~= self@.pending);
        n
    }

    fn unplanned_under(&self, cap: ResidualCap) -> (n: usize)
        requires
            self@.consistent(),
        ensures
            n == self@.unplanned(cap),
    {
        let pending: usize = self.pending_bytes();
        (self.live_bytes + self.free_bytes + pending).saturating_sub(cap.planned)
    }

    /// Bytes this pool holds that no planner owns; `None` with no cap installed.
    pub fn unplanned_bytes(&self) -> (n: Option<usize>)
        requires
            self@.well_formed(),
        ensures
            n is Some <==> self@.residual is Some,
            n matches Some(b) ==> b == self@.unplanned(self@.residual->0),
    {
        match self.residual {
            Some(cap) => Some(self.unplanned_under(cap)),
            None => None,
        }
    }

    /// Whether allocating `size` fresh bytes would take this pool past its residual cap. Asked
    /// before the buffer is created.
    pub fn check_residual(&self, size: usize) -> (res: Result<(), ResidualExceeded>)
        requires
            self@.well_formed(),
        ensures
            res is Err <==> (self@.residual matches Some(cap) && self@.unplanned(cap) + size
                > cap.limit && cap.limit < usize::MAX),
            res matches Err(e) ==> e == (ResidualExceeded {
                unplanned: self@.unplanned(self@.residual->0) as usize,
                requested: size,
                limit: self@.residual->0.limit,
                planned: self@.residual->0.planned,
            }),
    {
        match self.residual {
            None => Ok(()),
            Some(cap) => {
                let unplanned: usize = self.unplanned_under(cap);
                let would_be: usize = unplanned.saturating_add(size);
                if would_be > cap.limit {
                    return Err(
                        ResidualExceeded {
                            unplanned,
                            requested: size,
                            limit: cap.limit,
                            planned: cap.planned,
                        },
                    );
                }
                Ok(())
            },
        }
    }

    /// Takes every free buffer out of the pool, to be destroyed, after freeing what the device has
    /// finished with. Live and parked buffers are left alone.
    pub fn trim(&mut self, clock: &GpuClock) -> (res: Trimmed)
        requires
            old(self).well_formed(),
            old(self)@.can_drain(),
            old(self)@.counters.trims < u64::MAX,
            old(self)@.counters.trimmed + old(self)@.held_buffers() <= u64::MAX,
        ensures
            final(self).well_formed(),
            final(self)@ == old(self)@.drained(*clock).emptied(),
            res.evicted@ == old(self)@.drain_victims(*clock),
            res.freed@ == flattened(old(self)@.drained(*clock).free),
    {
        let evicted = self.drain_completed(clock);
        let ghost v = self@;
        let mut freed: Vec<Buffer> = Vec::new();
        let mut buckets: Vec<Bucket> = Vec::new();
        std::mem::swap(&mut buckets, &mut self.free);
        let ghost b = bucket_views(buckets@);
        for i in 0..buckets.len()
            invariant
                b == bucket_views(buckets@),
                freed@ == flattened(b.take(i as int)),
                freed@.len() == free_count_of(b.take(i as int)),
        {
            proof {
                assert(b.take(i + 1).drop_last() =~= b.take(i as int));
                assert(b[i as int] == buckets@[i as int]@);
            }
            let m: usize = buckets[i].buffers.len();
            for k in 0..m
                invariant
                    i < buckets@.len(),
                    b == bucket_views(buckets@),
                    b[i as int] == buckets@[i as int]@,
                    m == b[i as int].buffers.len(),
                    freed@ == flattened(b.take(i as int)) + buffers_of(
                        b[i as int].buffers.take(k as int),
                    ),
            {
                freed.push(buckets[i].buffers[k].buffer);
                assert(freed@ =~= flattened(b.take(i as int)) + buffers_of(
                    b[i as int].buffers.take(k + 1),
                ));
            }
            assert(b[i as int].buffers.take(b[i as int].buffers.len() as int)
                =~= b[i as int].buffers);
        }
        proof {
            assert(b.take(b.len() as int) =~= b);
            lemma_drained(old(self)@, *clock);
            lemma_pending_bounds(v.pending);
        }
        self.free_bytes = 0;
        self.free_order.clear();
        self.counters.trims = self.counters.trims + 1;
        self.counters.trimmed = self.counters.trimmed + freed.len() as u64;
        proof {
            assert(bucket_views(self.free@) =~= Seq::empty());
            assert(self@ =~= v.emptied());
            lemma_emptied(v);
        }
        Trimmed { evicted, freed }
    }

    pub fn counters(&self) -> (c: PoolCounters)
        ensures
            c == self@.counters,
    {
        self.counters
    }

    /// How many buffers have become free so far. Resetting the counters leaves it as it is.
    pub fn frees(&self) -> (n: u64)
        ensures
            n == self@.frees,
    {
        self.frees
    }

    pub fn reset_counters(&mut self)
        ensures
            final(self)@ == (PoolView { counters: no_counts(), ..old(self)@ }),
            old(self).well_formed() ==> final(self).well_formed(),
    {
        self.counters = PoolCounters::default();
    }

    fn free_buffers(&self) -> (n: usize)
        requires
            self@.consistent(),
        ensures
            n == free_count_of(self@.free),
    {
        let ghost f = |b: BucketView| b.buffers.len() as int;
        let mut n: usize = 0;
        for i in 0..self.free.len()
            invariant
                self@.consistent(),
                n == sums::total(self@.free.take(i as int), f),
                f == |b: BucketView| b.buffers.len() as int,
        {
            proof {
                let part = self@.free.take(i + 1);
                assert(part.drop_last() =~= self@.free.take(i as int));
                assert(self@.free =~= part + self@.free.skip(i + 1));
                sums::lemma_total_add(part, self@.free.skip(i + 1), f);
                lemma_free_bounds(self@.free.skip(i + 1));
                assert(self@.free[i as int] == self.free@[i as int]@);
            }
            n = n + self.free[i].buffers.len();
        }
        assert(self@.free.take(self@.free.len() as int) =~= self@.free);
        n
    }

    /// What the pool holds, by state.
    pub fn occupancy(&self) -> (o: PoolOccupancySnapshot)
        requires
            self@.well_formed(),
        ensures
            o.live_buffers == self@.live_buffers,
            o.live_bytes == self@.live_bytes,
            o.free_buffers == free_count_of(self@.free),
            o.free_bytes == self@.free_bytes,
            o.free_buckets == self@.free.len(),
            o.pending_buffers == self@.pending.len(),
            o.pending_bytes == self@.pending_bytes(),
    {
        PoolOccupancySnapshot {
            live_buffers: self.live_buffers,
            live_bytes: self.live_bytes,
            free_buffers: self.free_buffers(),
            free_bytes: self.free_bytes,
            free_buckets: self.free.len(),
            pending_buffers: self.pending.len(),
            pending_bytes: self.pending_bytes(),
        }
    }
}

impl Default for BufferPool {
    fn default() -> (p: Self)
        ensures
            p@ == PoolView::fresh(),
            p.well_formed(),
    {
        BufferPool::new()
    }
}

/// What a trim takes out of a pool.
pub struct Trimmed {
    /// Buffers destroyed to stay inside the budget, before the rest was taken.
    pub evicted: Vec<Buffer>,
    /// Every buffer that was free after that.
    pub freed: Vec<Buffer>,
}

/// How many buffers a pool holds in each state, and how many bytes.
#[derive(Debug, Clone, Copy, PartialEq, Eq, Structural)]
pub struct PoolOccupancySnapshot {
    pub live_buffers: usize,
    pub live_bytes: usize,
    pub free_buffers: usize,
    pub free_bytes: usize,
    /// Buckets that hold at least one buffer: there are no others.
    pub free_buckets: usize,
    /// Released, and still waiting for the device.
    pub pending_buffers: usize,
    pub pending_bytes: usize,
}

impl Default for PoolOccupancySnapshot {
    fn default() -> (o: Self)
        ensures
            o == (PoolOccupancySnapshot {
                live_buffers: 0,
                live_bytes: 0,
                free_buffers: 0,
                free_bytes: 0,
                free_buckets: 0,
                pending_buffers: 0,
                pending_bytes: 0,
            }),
    {
        PoolOccupancySnapshot {
            live_buffers: 0,
            live_bytes: 0,
            free_buffers: 0,
            free_bytes: 0,
            free_buckets: 0,
            pending_buffers: 0,
            pending_bytes: 0,
        }
    }
}

impl PoolOccupancySnapshot {
    pub fn total_buffers(&self) -> (n: usize)
        requires
            self.live_buffers + self.free_buffers + self.pending_buffers <= usize::MAX,
        ensures
            n == self.live_buffers + self.free_buffers + self.pending_buffers,
    {
        self.live_buffers + self.free_buffers + self.pending_buffers
    }

    pub fn total_bytes(&self) -> (n: usize)
        requires
            self.live_bytes + self.free_bytes + self.pending_bytes <= usize::MAX,
        ensures
            n == self.live_bytes + self.free_bytes + self.pending_bytes,
    {
        self.live_bytes + self.free_bytes + self.pending_bytes
    }
}

proof fn lemma_drained(v: PoolView, clock: GpuClock)
    requires
        v.well_formed(),
    ensures
        v.drained(clock).well_formed(),
        v.drained(clock).held_buffers() <= v.held_buffers(),
        v.drained(clock).counters.trims == v.counters.trims,
        v.drained(clock).counters.trimmed == v.counters.trimmed,
{
    lemma_unparked_by(v, clock);
    lemma_evicted(v.swept(clock));
}

proof fn lemma_emptied(v: PoolView)
    requires
        v.well_formed(),
    ensures
        v.emptied().well_formed(),
{
    let w = v.emptied();
    lemma_free_bounds(v.free);
    assert(free_bytes_of(w.free) == 0);
}

impl ResidualExceeded {
    /// What is said of the refusal.
    pub open spec fn spec_message(self) -> Seq<char> {
        "memory residual exhausted: "@ + text::gb_text(self.unplanned as int, 2)
            + " GB unplanned + "@ + text::gb_text(self.requested as int, 2)
            + " GB requested > "@ + text::gb_text(self.limit as int, 2)
            + " GB residual (DESIGN.md §9.5k). "@ + text::gb_text(self.planned as int, 2)
            + " GB of predicted classes are excluded from the figure. Either an allocation path is growing without bound (§9.5f candidate 2 -- §6.3b's stranding is the measured instance) or admission was given a configuration the run then left behind."@
    }

    /// The refusal in words, with the quantity that overran and the figure it overran.
    pub fn message(&self) -> (s: String)
        ensures
            s@ == self.spec_message(),
    {
        let mut s = String::new();
        s.push_str("memory residual exhausted: ");
        text::push_gb(&mut s, self.unplanned as u128, 2);
        s.push_str(" GB unplanned + ");
        text::push_gb(&mut s, self.requested as u128, 2);
        s.push_str(" GB requested > ");
        text::push_gb(&mut s, self.limit as u128, 2);
        s.push_str(" GB residual (DESIGN.md §9.5k). ");
        text::push_gb(&mut s, self.planned as u128, 2);
        s.push_str(
            " GB of predicted classes are excluded from the figure. Either an allocation path is growing without bound (§9.5f candidate 2 -- §6.3b's stranding is the measured instance) or admission was given a configuration the run then left behind.",
        );
        proof {
            assert(s@ =~= self.spec_message());
        }
        s
    }
}

/// The epochs of the parked buffers do not go back, which is what releasing against one clock
/// gives.
pub open spec fn in_epoch_order(pending: Seq<PendingBuffer>) -> bool {
    forall|p: int, q: int|
        0 <= p <= q < pending.len() ==> (#[trigger] pending[p]).epoch <= (
        #[trigger] pending[q]).epoch
}

/// A buffer that was just released is not freed by a drain, however often one is asked for,
/// before the epoch it was released in is closed and reported finished.
pub proof fn law_released_buffer_waits_for_the_device(
    v: PoolView,
    buffer: Buffer,
    size: usize,
    clock: GpuClock,
)
    requires
        v.parked(buffer, size, clock.submitted).well_formed(),
        clock.sane(),
    ensures
        v.parked(buffer, size, clock.submitted).drained(clock).pending.len() > 0,
        v.parked(buffer, size, clock.submitted).drained(clock).pending.last() == (PendingBuffer {
            buffer,
            size,
            epoch: clock.submitted,
        }),
{
    let w = v.parked(buffer, size, clock.submitted);
    let last = w.pending.len() - 1;
    lemma_unparked_by(w, clock);
    if w.ready(clock) > last {
        assert(clock.has_finished(w.pending[last].epoch));
    }
    lemma_evicted(w.swept(clock));
}

/// A drain frees only buffers whose epoch has finished, and leaves the others parked in order.
/// Where epochs stand in order, none that has finished is left. What is evicted then is evicted
/// from a consistent pool.
pub proof fn law_drain_frees_exactly_what_has_finished(v: PoolView, clock: GpuClock)
    requires
        v.well_formed(),
    ensures
        v.ready(clock) <= v.pending.len(),
        v.swept(clock).consistent(),
        v.drained(clock).pending == v.pending.skip(v.ready(clock) as int),
        forall|p: int|
            0 <= p < v.ready(clock) ==> clock.has_finished((#[trigger] v.pending[p]).epoch),
        in_epoch_order(v.pending) ==> forall|p: int|
            0 <= p < v.drained(clock).pending.len() ==> !clock.has_finished(
                (#[trigger] v.drained(clock).pending[p]).epoch,
            ),
{
    let n = v.ready(clock) as int;
    lemma_unparked_by(v, clock);
    lemma_evicted(v.swept(clock));
    let left = v.drained(clock).pending;
    assert(left =~= v.pending.skip(n));
    if in_epoch_order(v.pending) {
        assert forall|p: int| 0 <= p < left.len() implies !clock.has_finished(
            (#[trigger] left[p]).epoch,
        ) by {
            assert(left[p] == v.pending[n + p]);
            assert(v.pending[n].epoch <= v.pending[n + p].epoch);
        }
    }
}

proof fn lemma_unparked_are_free(v: PoolView, n: nat, s: usize)
    requires
        v.consistent(),
        n <= v.pending.len(),
    ensures
        v.unparked_by(n).consistent(),
        free_of(v.unparked_by(n).free, s) >= free_of(v.free, s),
        forall|p: int|
            0 <= p < n && (#[trigger] v.pending[p]).size == s ==> free_of(
                v.unparked_by(n).free,
                s,
            ) >= 1,
    decreases n,
{
    if n > 0 {
        let w = v.unparked();
        let first = v.pending[0];
        lemma_unparked(v);
        lemma_given(v.free, first.size, FreeBuffer { buffer: first.buffer, since: v.frees });
        lemma_unparked_are_free(w, (n - 1) as nat, s);
        assert forall|p: int| 0 <= p < n && (#[trigger] v.pending[p]).size == s implies free_of(
            v.unparked_by(n).free,
            s,
        ) >= 1 by {
            if p > 0 {
                assert(w.pending[p - 1] == v.pending[p]);
            } else {
                assert(free_of(w.free, s) == free_of(v.free, s) + 1);
            }
        }
    }
}

/// A buffer is reused once the device is done with it: where a drain finds the parked buffer `p`
/// finished and leaves room for what it frees, a request for as much as `p` holds, or for less,
/// is served from the free lists afterwards.
pub proof fn law_a_finished_buffer_is_reused(v: PoolView, clock: GpuClock, p: int, size: usize)
    requires
        v.well_formed(),
        0 <= p < v.ready(clock),
        v.swept(clock).free_bytes <= v.free_budget,
        size <= v.pending[p].size,
    ensures
        best_fit(v.drained(clock).free, size) < v.drained(clock).free.len(),
{
    lemma_unparked_by(v, clock);
    let held = v.pending[p].size;
    lemma_unparked_are_free(v, v.ready(clock), held);
    let w = v.drained(clock);
    lemma_has_surplus(v.swept(clock));
    assert(w.free == v.unparked_by(v.ready(clock)).free);
    assert(free_of(w.free, held) >= 1);
    lemma_best_fit(w.free, held);
    lemma_best_fit(w.free, size);
    if best_fit(w.free, size) >= w.free.len() {
        lemma_no_bucket(w.free, held);
    }
}

/// Bytes of a sequence of buffers.
pub open spec fn bytes_of(buffers: Seq<Buffer>) -> int {
    sums::total(buffers, |b: Buffer| b.spec_length() as int)
}

/// A drain loses no byte: what the pool holds afterwards and what it destroys make up what it
/// held before, in buffers and in bytes. What callers hold is untouched.
pub proof fn law_drain_conserves(v: PoolView, clock: GpuClock)
    requires
        v.well_formed(),
    ensures
        v.drained(clock).held_bytes() + bytes_of(v.drain_victims(clock)) == v.held_bytes(),
        v.drained(clock).held_buffers() + v.drain_victims(clock).len() == v.held_buffers(),
        v.drained(clock).live_bytes == v.live_bytes,
        v.drained(clock).live_buffers == v.live_buffers,
{
    lemma_unparked_by(v, clock);
    lemma_evicted(v.swept(clock));
}

/// Eviction destroys the buffers that have been free for longest, in the order in which they
/// became free, and no more of them than the budget asks for: each became free before every buffer
/// that stays, the free lists end up inside their budget, and they were over it for as long as one
/// fewer had gone.
pub proof fn law_eviction_takes_what_was_free_longest(v: PoolView)
    requires
        v.consistent(),
    ensures
        v.evicted().free_bytes <= v.free_budget,
        forall|m: nat| m < v.surplus() ==> (#[trigger] v.evicted_by(m)).free_bytes > v.free_budget,
        v.victims() == buffers_of(v.oldest_by(v.surplus())),
        v.oldest_by(v.surplus()).len() == v.surplus(),
        forall|n: int|
            0 <= n < v.surplus() ==> is_free(v.free, #[trigger] v.oldest_by(v.surplus())[n]),
        forall|n: int, m: int|
            0 <= n < m < v.surplus() ==> (#[trigger] v.oldest_by(v.surplus())[n]).since < (
            #[trigger] v.oldest_by(v.surplus())[m]).since,
        forall|n: int, i: int, k: int|
            0 <= n < v.surplus() && holds(v.evicted().free, i, k) ==> (#[trigger] v.oldest_by(
                v.surplus(),
            )[n]).since < #[trigger] since(v.evicted().free, i, k),
        forall|i: int, k: int| #[trigger]
            holds(v.evicted().free, i, k) ==> is_free(
                v.free,
                v.evicted().free[i].buffers[k],
            ),
    decreases free_count_of(v.free),
{
    lemma_has_surplus(v);
    lemma_free_bounds(v.free);
    lemma_evicted(v);
    assert forall|m: nat| m < v.surplus() implies (#[trigger] v.evicted_by(m)).free_bytes
        > v.free_budget by {
        assert(!v.suffices(m));
    }
    if v.surplus() == 0 {
        assert forall|i: int, k: int| #[trigger] holds(v.evicted().free, i, k) implies is_free(
            v.free,
            v.evicted().free[i].buffers[k],
        ) by {
            assert(v.free[i].buffers[k] == v.evicted().free[i].buffers[k]);
        }
    } else {
        let w = v.evicted_one();
        let (i0, k0) = longest(v.free);
        lemma_evicted_one(v);
        lemma_taken(v.free, i0, k0);
        lemma_victims(v);
        law_eviction_takes_what_was_free_longest(w);
        let all = v.oldest_by(v.surplus());
        let rest = w.oldest_by(w.surplus());
        assert(all == seq![v.oldest()] + rest);
        assert forall|b: FreeBuffer| #[trigger] is_free(w.free, b) implies is_free(v.free, b)
            && v.oldest().since < b.since by {
            let (j, l) = choose|j: int, l: int|
                holds(w.free, j, l) && #[trigger] w.free[j].buffers[l] == b;
            lemma_later(v, j, l);
        }
        assert forall|n: int| 0 <= n < v.surplus() implies is_free(v.free, #[trigger] all[n]) by {
            if n == 0 {
                assert(holds(v.free, i0, k0) && v.free[i0].buffers[k0] == all[0]);
            } else {
                assert(is_free(w.free, rest[n - 1]));
            }
        }
        assert forall|n: int, m: int| 0 <= n < m < v.surplus() implies (#[trigger] all[n]).since < (
        #[trigger] all[m]).since by {
            assert(all[m] == rest[m - 1]);
            assert(is_free(w.free, rest[m - 1]));
            if n > 0 {
                assert(all[n] == rest[n - 1]);
            }
        }
        assert forall|n: int, i: int, k: int|
            0 <= n < v.surplus() && holds(v.evicted().free, i, k) implies (
        #[trigger] all[n]).since < #[trigger] since(v.evicted().free, i, k) by {
            assert(holds(w.evicted().free, i, k));
            assert(is_free(w.free, w.evicted().free[i].buffers[k]));
            if n > 0 {
                assert(all[n] == rest[n - 1]);
            }
        }
        assert forall|i: int, k: int| #[trigger] holds(v.evicted().free, i, k) implies is_free(
            v.free,
            v.evicted().free[i].buffers[k],
        ) by {
            assert(holds(w.evicted().free, i, k));
            assert(is_free(w.free, w.evicted().free[i].buffers[k]));
        }
    }
}

/// What is still free once the buffer that was free for longest is gone was free before, and became
/// free after that one.
proof fn lemma_later(v: PoolView, j: int, l: int)
    requires
        v.consistent(),
        v.free.len() > 0,
        holds(v.evicted_one().free, j, l),
    ensures
        is_free(v.free, v.evicted_one().free[j].buffers[l]),
        v.oldest().since < since(v.evicted_one().free, j, l),
{
    let (i, k) = longest(v.free);
    lemma_evicted_one(v);
    lemma_taken(v.free, i, k);
    let (j0, l0) = untaken(v.free, i, k, j, l);
    assert(v.free[j0].buffers[l0] == v.evicted_one().free[j].buffers[l]);
    assert(since(v.free, i, k) <= since(v.free, j0, l0));
    if j0 != i {
        assert(since(v.free, i, k) != since(v.free, j0, l0));
    } else if l0 < k {
        assert(since(v.free, i, l0) < since(v.free, i, k));
    } else {
        assert(since(v.free, i, k) < since(v.free, i, l0));
    }
}

/// A buffer that becomes free is younger than all that are free then, however often it has been
/// free before: handing it out and taking it back starts its age anew.
pub proof fn law_age_starts_with_each_return(v: PoolView, i: int, k: int)
    requires
        v.consistent(),
        v.pending.len() > 0,
        holds(v.free, i, k),
    ensures
        is_free(v.unparked().free, FreeBuffer { buffer: v.pending[0].buffer, since: v.frees }),
        since(v.free, i, k) < v.frees,
        v.unparked().frees == v.frees + 1,
{
    let b = FreeBuffer { buffer: v.pending[0].buffer, since: v.frees };
    let new = v.unparked().free;
    let at = best_fit(v.free, v.pending[0].size);
    lemma_best_fit(v.free, v.pending[0].size);
    if has_bucket(v.free, v.pending[0].size) {
        assert(holds(new, at, v.free[at].buffers.len() as int));
        assert(new[at].buffers[v.free[at].buffers.len() as int] == b);
    } else {
        assert(holds(new, at, 0));
        assert(new[at].buffers[0] == b);
    }
}

/// Lending a free buffer and taking it back move bytes between states and change no total.
pub proof fn law_lending_and_returning_conserve(v: PoolView, i: int, epoch: u64)
    requires
        v.well_formed(),
        0 <= i < v.free.len(),
    ensures
        v.lent(i).held_bytes() == v.held_bytes(),
        v.lent(i).held_buffers() == v.held_buffers(),
        v.lent(i).parked(v.free[i].buffers.last().buffer, v.free[i].size, epoch).held_bytes()
            == v.held_bytes(),
        v.lent(i).parked(v.free[i].buffers.last().buffer, v.free[i].size, epoch).held_buffers()
            == v.held_buffers(),
{
    let b = v.free[i].buffers.last().buffer;
    let size = v.free[i].size;
    let w = v.lent(i);
    assert(v.free[i].buffers.len() > 0);
    lemma_taken(v.free, i, v.free[i].buffers.len() - 1);
    lemma_bucket_bytes(v.free, i);
    lemma_free_bounds(v.free);
    lemma_pending_bounds(v.pending);
    assert(v.free[i].buffers[v.free[i].buffers.len() - 1].buffer.spec_length() == size);
    let f = |p: PendingBuffer| p.buffer.spec_length() as int;
    sums::lemma_total_push(w.pending, f, PendingBuffer { buffer: b, size, epoch });
}

/// A pool can always take back what it lent: a release stays within what it holds.
pub proof fn law_what_was_lent_can_be_returned(
    v: PoolView,
    buffer: Buffer,
    size: usize,
    epoch: u64,
)
    requires
        v.consistent(),
        v.live_buffers >= 1,
        v.live_bytes >= size,
        buffer.spec_length() == size,
    ensures
        v.parked(buffer, size, epoch).held_bytes() == v.held_bytes(),
        v.parked(buffer, size, epoch).held_buffers() == v.held_buffers(),
{
    let p = PendingBuffer { buffer, size, epoch };
    sums::lemma_total_push(v.pending, |p: PendingBuffer| p.buffer.spec_length() as int, p);
}

/// Reuse is not bounded by the residual cap: lending a free buffer leaves the bytes that no
/// planner owns as they are.
pub proof fn law_reuse_leaves_the_residual(v: PoolView, i: int, cap: ResidualCap)
    requires
        v.well_formed(),
        0 <= i < v.free.len(),
    ensures
        v.lent(i).unplanned(cap) == v.unplanned(cap),
{
    law_lending_and_returning_conserve(v, i, 0);
}

/// A fresh allocation that the residual cap admits keeps the pool inside the cap, and one that it
/// refuses would have taken the pool past it.
pub proof fn law_residual_admits_what_fits(v: PoolView, w: PoolView, size: usize, cap: ResidualCap)
    requires
        v.held_bytes() >= 0,
        w.held_bytes() == v.held_bytes() + size,
    ensures
        v.unplanned(cap) + size <= cap.limit ==> w.unplanned(cap) <= cap.limit,
        v.held_bytes() >= cap.planned ==> (v.unplanned(cap) + size <= cap.limit
            <==> w.unplanned(cap) <= cap.limit),
{
}

/// A trim leaves what callers hold and what the device may be using, and leaves nothing free.
pub proof fn law_trim_takes_only_what_is_free(v: PoolView, clock: GpuClock)
    requires
        v.well_formed(),
    ensures
        v.drained(clock).emptied().free.len() == 0,
        v.drained(clock).emptied().free_bytes == 0,
        v.drained(clock).emptied().pending == v.pending.skip(v.ready(clock) as int),
        v.drained(clock).emptied().live_bytes == v.live_bytes,
        v.drained(clock).emptied().live_buffers == v.live_buffers,
{
    law_drain_frees_exactly_what_has_finished(v, clock);
    law_drain_conserves(v, clock);
}

/// The epochs that have finished are the first ones, and as many as were counted.
pub proof fn law_as_many_epochs_have_finished_as_were_counted(clock: GpuClock, epoch: u64)
    ensures
        clock.has_finished(epoch) <==> epoch + 1 <= clock.completed,
{
}

/// A request is served where some free buffer is large enough, and then from the smallest bucket
/// that is.
pub proof fn law_a_request_gets_the_smallest_that_fits(v: PoolView, size: usize)
    requires
        v.consistent(),
    ensures
        ({
            let i = best_fit(v.free, size);
            &&& 0 <= i
            &&& i < v.free.len() <==> exists|j: int|
                0 <= j < v.free.len() && (#[trigger] v.free[j]).size >= size
            &&& i < v.free.len() ==> v.free[i].size >= size
            &&& i < v.free.len() ==> forall|j: int|
                0 <= j < v.free.len() && (#[trigger] v.free[j]).size >= size ==> v.free[i].size
                    <= v.free[j].size
        }),
{
    lemma_best_fit(v.free, size);
    let i = best_fit(v.free, size);
    if i < v.free.len() {
        assert(v.free[i].size >= size);
        assert forall|j: int|
            0 <= j < v.free.len() && (#[trigger] v.free[j]).size >= size implies v.free[i].size
            <= v.free[j].size by {
            if i < j {
                assert(v.free[i].size < v.free[j].size);
            }
        }
    }
}

/// What stands at two places of the free lists became free at two times.
proof fn lemma_free_once(free: Seq<BucketView>, now: u64, i: int, k: int, j: int, l: int)
    requires
        aged(free, now),
        holds(free, i, k),
        holds(free, j, l),
        free[i].buffers[k] == free[j].buffers[l],
    ensures
        i == j && k == l,
{
    assert(since(free, i, k) == since(free, j, l));
    if i == j {
        if k < l {
            assert(since(free, i, k) < since(free, i, l));
        } else if l < k {
            assert(since(free, i, l) < since(free, i, k));
        }
    }
}

/// Taking the buffer at one place leaves every other, and not that one.
proof fn lemma_taken_leaves_the_rest(
    free: Seq<BucketView>,
    now: u64,
    i: int,
    k: int,
    c: FreeBuffer,
)
    requires
        ordered(free),
        aged(free, now),
        holds(free, i, k),
    ensures
        is_free(taken(free, i, k), c) <==> is_free(free, c) && c != free[i].buffers[k],
{
    let new = taken(free, i, k);
    lemma_taken(free, i, k);
    if is_free(new, c) {
        let (j, l) = choose|j: int, l: int| holds(new, j, l) && #[trigger] new[j].buffers[l] == c;
        let (j0, l0) = untaken(free, i, k, j, l);
        assert(free[j0].buffers[l0] == c);
        if c == free[i].buffers[k] {
            lemma_free_once(free, now, i, k, j0, l0);
        }
    }
    if is_free(free, c) && c != free[i].buffers[k] {
        let (j, l) = choose|j: int, l: int| holds(free, j, l) && #[trigger] free[j].buffers[l] == c;
        if free[i].buffers.len() == 1 {
            let j1 = if j < i {
                j
            } else {
                j - 1
            };
            assert(j != i);
            assert(new[j1] == free[j]);
            assert(holds(new, j1, l) && new[j1].buffers[l] == c);
        } else if j == i && l > k {
            assert(new[i].buffers[l - 1] == free[i].buffers[l]);
            assert(holds(new, i, l - 1) && new[i].buffers[l - 1] == c);
        } else {
            assert(new[j].buffers[l] == free[j].buffers[l]);
            assert(holds(new, j, l) && new[j].buffers[l] == c);
        }
    }
}

/// Giving one more buffer adds it, and moves no other out.
proof fn lemma_given_adds_one(free: Seq<BucketView>, size: usize, b: FreeBuffer, c: FreeBuffer)
    requires
        ordered(free),
    ensures
        is_free(given(free, size, b), c) <==> is_free(free, c) || c == b,
{
    let new = given(free, size, b);
    let at = best_fit(free, size);
    lemma_best_fit(free, size);
    lemma_given(free, size, b);
    if is_free(new, c) {
        let (j, l) = choose|j: int, l: int| holds(new, j, l) && #[trigger] new[j].buffers[l] == c;
        if c != b {
            let j0 = ungiven(free, size, j);
            assert(free[j0].buffers[l] == c);
        }
    }
    if c == b {
        if has_bucket(free, size) {
            let l = free[at].buffers.len() as int;
            assert(holds(new, at, l) && new[at].buffers[l] == c);
        } else {
            assert(holds(new, at, 0) && new[at].buffers[0] == c);
        }
    } else if is_free(free, c) {
        let (j, l) = choose|j: int, l: int| holds(free, j, l) && #[trigger] free[j].buffers[l] == c;
        if has_bucket(free, size) || j < at {
            assert(new[j].buffers[l] == free[j].buffers[l]);
            assert(holds(new, j, l) && new[j].buffers[l] == c);
        } else {
            assert(new[j + 1] == free[j]);
            assert(holds(new, j + 1, l) && new[j + 1].buffers[l] == c);
        }
    }
}

/// A loan moves one buffer from the free lists to the caller, the one of its size that became free
/// last, and its bytes with it. Everything else stays as it is.
pub proof fn law_a_loan_moves_the_latest_of_its_size(v: PoolView, i: int, c: FreeBuffer)
    requires
        v.consistent(),
        0 <= i < v.free.len(),
    ensures
        ({
            let w = v.lent(i);
            let b = v.free[i].buffers.last();
            &&& is_free(v.free, b)
            &&& forall|k: int| holds(v.free, i, k) ==> #[trigger] since(v.free, i, k) <= b.since
            &&& is_free(w.free, c) <==> is_free(v.free, c) && c != b
            &&& b.buffer.spec_length() == v.free[i].size
            &&& w.live_buffers == v.live_buffers + 1
            &&& w.live_bytes == v.live_bytes + v.free[i].size
            &&& w.free_bytes == v.free_bytes - v.free[i].size
            &&& w.pending == v.pending
            &&& w.frees == v.frees
            &&& w.free_budget == v.free_budget
            &&& w.residual == v.residual
            &&& w.counters == v.counters
        }),
{
    let k = v.free[i].buffers.len() - 1;
    let b = v.free[i].buffers.last();
    assert(v.free[i].buffers.len() > 0);
    assert(holds(v.free, i, k) && v.free[i].buffers[k] == b);
    assert(is_free(v.free, b));
    assert(v.free[i].buffers[k].buffer.spec_length() == v.free[i].size);
    lemma_taken_leaves_the_rest(v.free, v.frees, i, k, c);
    assert forall|l: int| holds(v.free, i, l) implies #[trigger] since(v.free, i, l) <= b.since by {
        if l < k {
            assert(since(v.free, i, l) < since(v.free, i, k));
        }
    }
    lemma_bucket_bytes(v.free, i);
    lemma_free_bounds(v.free);
    lemma_pending_bounds(v.pending);
    lemma_taken(v.free, i, k);
    lemma_free_bounds(taken(v.free, i, k));
}

/// A lookup counts itself, one probe where a bucket has the very size and two otherwise, and a hit
/// where it was served; it changes nothing else.
pub proof fn law_what_a_lookup_counts(v: PoolView, exact: bool, hit: bool)
    requires
        v.counters.lookups < u64::MAX,
        v.counters.buckets_probed <= u64::MAX - 2,
        v.counters.hits < u64::MAX,
    ensures
        ({
            let w = v.looked_up(exact, hit);
            &&& w.counters.lookups == v.counters.lookups + 1
            &&& exact ==> w.counters.buckets_probed == v.counters.buckets_probed + 1
            &&& !exact ==> w.counters.buckets_probed == v.counters.buckets_probed + 2
            &&& hit ==> w.counters.hits == v.counters.hits + 1
            &&& !hit ==> w.counters.hits == v.counters.hits
            &&& w.counters.releases == v.counters.releases
            &&& w.counters.allocations == v.counters.allocations
            &&& w.counters.evicted == v.counters.evicted
            &&& w.free == v.free && w.pending == v.pending
            &&& w.live_buffers == v.live_buffers && w.live_bytes == v.live_bytes
            &&& w.free_bytes == v.free_bytes
        }),
{
}

/// A release parks the buffer behind those that were parked before, under the epoch it has to
/// outlive; it frees nothing, and what the caller held is given back.
pub proof fn law_a_release_parks_at_the_end(v: PoolView, buffer: Buffer, size: usize, epoch: u64)
    requires
        v.counters.releases < u64::MAX,
        v.counters.deferred < u64::MAX,
        v.pending.len() < u64::MAX,
        v.live_buffers >= 1,
        v.live_bytes >= size,
    ensures
        ({
            let w = v.parked(buffer, size, epoch);
            &&& w.pending.len() == v.pending.len() + 1
            &&& w.pending.drop_last() == v.pending
            &&& w.pending.last().buffer == buffer
            &&& w.pending.last().size == size
            &&& w.pending.last().epoch == epoch
            &&& w.live_buffers == v.live_buffers - 1
            &&& w.live_bytes == v.live_bytes - size
            &&& w.free == v.free
            &&& w.free_bytes == v.free_bytes
            &&& w.frees == v.frees
            &&& w.counters.releases == v.counters.releases + 1
            &&& w.counters.deferred == v.counters.deferred + 1
            &&& w.counters.pending == w.pending.len()
            &&& w.counters.drained == v.counters.drained
            &&& w.counters.evicted == v.counters.evicted
        }),
{
    assert(v.parked(buffer, size, epoch).pending.drop_last() =~= v.pending);
}

/// The buffer that was parked first becomes free first, and nothing else does: it leaves the parked
/// ones, joins the free ones as the youngest of them, and nothing that was free is lost.
pub proof fn law_the_first_parked_is_the_first_free(v: PoolView, c: FreeBuffer)
    requires
        v.consistent(),
        v.pending.len() > 0,
    ensures
        ({
            let w = v.unparked();
            let first = v.pending[0];
            &&& w.pending == v.pending.skip(1)
            &&& is_free(w.free, c) <==> is_free(v.free, c) || (c.buffer == first.buffer && c.since
                == v.frees)
            &&& w.free_bytes == v.free_bytes + first.size
            &&& w.frees == v.frees + 1
            &&& w.live_buffers == v.live_buffers
            &&& w.live_bytes == v.live_bytes
            &&& w.counters == v.counters
            &&& w.free_budget == v.free_budget
        }),
{
    let first = v.pending[0];
    assert(v.unparked().pending =~= v.pending.skip(1));
    lemma_unparked(v);
    lemma_given_adds_one(
        v.free,
        first.size,
        FreeBuffer { buffer: first.buffer, since: v.frees },
        c,
    );
    lemma_given(v.free, first.size, FreeBuffer { buffer: first.buffer, since: v.frees });
}

/// A drain stops at the first parked buffer that the device may still be using.
pub proof fn law_a_drain_stops_at_what_is_in_use(v: PoolView, clock: GpuClock)
    requires
        v.well_formed(),
    ensures
        v.ready(clock) < v.pending.len() ==> v.pending[v.ready(clock) as int].epoch
            >= clock.completed,
        forall|p: int|
            0 <= p < v.ready(clock) ==> (#[trigger] v.pending[p]).epoch < clock.completed,
        v.ready(clock) == 0 ==> v.drained(clock) == v && v.drain_victims(clock).len() == 0,
{
    lemma_unparked_by(v, clock);
}

/// What eviction destroys is free and has been for longest; its bytes leave the free lists, it is
/// counted, and nothing else goes.
pub proof fn law_eviction_destroys_one_buffer(v: PoolView, c: FreeBuffer)
    requires
        v.consistent(),
        v.free.len() > 0,
        v.counters.evicted < u64::MAX,
    ensures
        ({
            let w = v.evicted_one();
            let gone = v.oldest();
            &&& is_free(v.free, gone)
            &&& is_free(v.free, c) ==> gone.since <= c.since
            &&& is_free(w.free, c) <==> is_free(v.free, c) && c != gone
            &&& w.free_bytes == v.free_bytes - gone.buffer.spec_length()
            &&& w.counters.evicted == v.counters.evicted + 1
            &&& w.counters.trimmed == v.counters.trimmed
            &&& w.pending == v.pending
            &&& w.live_bytes == v.live_bytes
            &&& w.live_buffers == v.live_buffers
        }),
{
    lemma_evicted_one(v);
    let (i, k) = longest(v.free);
    assert(holds(v.free, i, k) && v.free[i].buffers[k] == v.oldest());
    lemma_taken_leaves_the_rest(v.free, v.frees, i, k, c);
    if is_free(v.free, c) {
        let (j, l) = choose|j: int, l: int|
            holds(v.free, j, l) && #[trigger] v.free[j].buffers[l] == c;
        assert(since(v.free, i, k) <= since(v.free, j, l));
    }
    lemma_bucket_bytes(v.free, i);
    lemma_free_bounds(v.free);
}

proof fn lemma_evictions_count(v: PoolView, n: nat)
    requires
        v.consistent(),
        n <= free_count_of(v.free),
        v.counters.evicted + n <= u64::MAX,
    ensures
        v.evicted_by(n).counters == (PoolCounters {
            evicted: (v.counters.evicted + n) as u64,
            ..v.counters
        }),
    decreases n,
{
    if n > 0 {
        lemma_free_bounds(v.free);
        if v.free.len() == 0 {
            assert(free_count_of(v.free) == 0);
        }
        lemma_evicted_one(v);
        lemma_evictions_count(v.evicted_one(), (n - 1) as nat);
    }
}

/// A drain counts what it frees and what it destroys, each once, and leaves the count of what is
/// parked at what is parked.
pub proof fn law_what_a_drain_counts(v: PoolView, clock: GpuClock)
    requires
        v.well_formed(),
        v.can_drain(),
    ensures
        ({
            let w = v.drained(clock);
            &&& w.counters.drained == v.counters.drained + v.ready(clock)
            &&& w.counters.evicted == v.counters.evicted + v.drain_victims(clock).len()
            &&& v.ready(clock) > 0 ==> w.counters.pending == w.pending.len()
            &&& w.counters.lookups == v.counters.lookups
            &&& w.counters.hits == v.counters.hits
            &&& w.counters.buckets_probed == v.counters.buckets_probed
            &&& w.counters.releases == v.counters.releases
            &&& w.counters.deferred == v.counters.deferred
            &&& w.counters.allocations == v.counters.allocations
            &&& w.counters.allocated_bytes == v.counters.allocated_bytes
            &&& w.counters.trims == v.counters.trims
            &&& w.counters.trimmed == v.counters.trimmed
        }),
{
    if v.ready(clock) > 0 {
        let s = v.swept(clock);
        lemma_unparked_by(v, clock);
        lemma_evicted(s);
        lemma_has_surplus(s);
        lemma_free_bounds(s.free);
        lemma_evictions_count(s, s.surplus());
        lemma_pending_bounds(v.pending);
    }
}

/// A trim destroys every free buffer and nothing else, and counts itself and them.
pub proof fn law_a_trim_destroys_what_is_free(v: PoolView, b: Buffer)
    requires
        v.consistent(),
        v.counters.trims < u64::MAX,
        v.counters.trimmed + free_count_of(v.free) <= u64::MAX,
    ensures
        flattened(v.free).contains(b) <==> exists|c: FreeBuffer| #[trigger]
            is_free(v.free, c) && c.buffer == b,
        flattened(v.free).len() == free_count_of(v.free),
        v.emptied().counters.trims == v.counters.trims + 1,
        v.emptied().counters.trimmed == v.counters.trimmed + flattened(v.free).len(),
        v.emptied().counters.evicted == v.counters.evicted,
        v.emptied().pending == v.pending,
        v.emptied().free.len() == 0,
        v.emptied().free_bytes == 0,
{
    lemma_flattened(v.free, b);
    lemma_free_bounds(v.free);
}

proof fn lemma_flattened(free: Seq<BucketView>, b: Buffer)
    ensures
        flattened(free).contains(b) <==> exists|c: FreeBuffer| #[trigger]
            is_free(free, c) && c.buffer == b,
        flattened(free).len() == free_count_of(free),
    decreases free.len(),
{
    if free.len() > 0 {
        let rest = free.drop_last();
        let last = free.last();
        let end = free.len() - 1;
        lemma_flattened(rest, b);
        let all = flattened(free);
        let head = flattened(rest);
        if all.contains(b) {
            let n = choose|n: int| 0 <= n < all.len() && all[n] == b;
            if n < head.len() {
                assert(head[n] == b);
                let c = choose|c: FreeBuffer| #[trigger] is_free(rest, c) && c.buffer == b;
                let (j, l) = choose|j: int, l: int|
                    holds(rest, j, l) && #[trigger] rest[j].buffers[l] == c;
                assert(holds(free, j, l) && free[j].buffers[l] == c);
                assert(is_free(free, c));
            } else {
                let l = n - head.len();
                assert(holds(free, end, l) && free[end].buffers[l] == last.buffers[l]);
                assert(is_free(free, last.buffers[l]));
            }
        }
        if exists|c: FreeBuffer| #[trigger] is_free(free, c) && c.buffer == b {
            let c = choose|c: FreeBuffer| #[trigger] is_free(free, c) && c.buffer == b;
            let (j, l) = choose|j: int, l: int|
                holds(free, j, l) && #[trigger] free[j].buffers[l] == c;
            if j < end {
                assert(holds(rest, j, l) && rest[j].buffers[l] == c);
                assert(is_free(rest, c));
                let n = choose|n: int| 0 <= n < head.len() && head[n] == b;
                assert(all[n] == b);
            } else {
                assert(all[head.len() + l] == b);
            }
        }
    } else if exists|c: FreeBuffer| #[trigger] is_free(free, c) && c.buffer == b {
        let c = choose|c: FreeBuffer| #[trigger] is_free(free, c) && c.buffer == b;
        let (j, l) = choose|j: int, l: int| holds(free, j, l) && #[trigger] free[j].buffers[l] == c;
        assert(false);
    }
}

/// What a pool holds is what callers hold, what is free and what is parked; of that, the part that
/// no planner owns is what is left once the planned bytes are taken off, and never less than
/// nothing.
pub proof fn law_what_no_planner_owns(v: PoolView, cap: ResidualCap)
    requires
        v.consistent(),
    ensures
        v.held_bytes() == v.live_bytes + v.free_bytes + pending_bytes_of(v.pending),
        v.held_bytes() <= cap.planned ==> v.unplanned(cap) == 0,
        v.held_bytes() >= cap.planned ==> v.unplanned(cap) + cap.planned == v.held_bytes(),
        forall|p: int|
            0 <= p < v.pending.len() ==> (#[trigger] v.pending[p]).buffer.spec_length()
                <= pending_bytes_of(v.pending),
{
    lemma_pending_bounds(v.pending);
}

/// A new pool holds nothing, has counted nothing, is bound by no residual cap and may keep 256 MiB
/// free.
pub proof fn law_a_new_pool_holds_nothing()
    ensures
        ({
            let v = PoolView::fresh();
            let c = v.counters;
            &&& v.held_bytes() == 0
            &&& v.held_buffers() == 0
            &&& v.free.len() == 0 && v.pending.len() == 0
            &&& v.frees == 0
            &&& v.residual is None
            &&& v.free_budget == 256 * 1024 * 1024
            &&& c.lookups == 0 && c.hits == 0 && c.buckets_probed == 0 && c.releases == 0
            &&& c.allocations == 0 && c.allocated_bytes == 0 && c.trimmed == 0 && c.trims == 0
            &&& c.deferred == 0 && c.drained == 0 && c.pending == 0 && c.evicted == 0
        }),
{
}

} // verus!
