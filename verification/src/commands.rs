//! Submission of command buffers, and the ledger of fences between encoders.
//!
//! Ordering between encoders rests on a map from each allocation to the fence of the encoder that
//! wrote it last. A compute encoder waits on the fences of the allocations it binds. A blit waits
//! on every fence that is live: one that a compute encoder registered and that still owns an entry
//! of the map.

use std::collections::HashMap;
use vstd::prelude::*;

use crate::buffer_pool::GpuClock;
use crate::encoder::BlitCommandEncoder;
use crate::text;

verus! {

broadcast use vstd::std_specs::hash::group_hash_axioms;

/// Encoders per command buffer, where the environment does not say otherwise.
pub const DEFAULT_CANDLE_METAL_COMPUTE_PER_BUFFER: usize = 50;

/// How many encoders a command buffer takes: what the environment asks for where that is a
/// number, and the default otherwise.
pub fn compute_per_buffer(env: Option<&str>) -> (n: usize)
    ensures
        n == (match env {
            Some(word) => match text::usize_of(word@) {
                Some(v) => v,
                None => DEFAULT_CANDLE_METAL_COMPUTE_PER_BUFFER as int,
            },
            None => DEFAULT_CANDLE_METAL_COMPUTE_PER_BUFFER as int,
        }),
{
    match env {
        Some(word) => match text::parse_usize(word) {
            Some(v) => v,
            None => DEFAULT_CANDLE_METAL_COMPUTE_PER_BUFFER,
        },
        None => DEFAULT_CANDLE_METAL_COMPUTE_PER_BUFFER,
    }
}

/// A fence that still owns entries of the map, with how many it was registered for.
#[derive(Clone, Copy, Debug, PartialEq, Eq, Structural)]
pub struct LiveFence {
    /// Identity of the fence.
    pub ptr: usize,
    pub buffers: usize,
}

/// Fence `ptr` stands first at `i`.
pub open spec fn stands_at(fences: Seq<LiveFence>, ptr: usize, i: int) -> bool {
    &&& 0 <= i < fences.len()
    &&& fences[i].ptr == ptr
    &&& forall|j: int| 0 <= j < i ==> (#[trigger] fences[j]).ptr != ptr
}

pub open spec fn is_live(fences: Seq<LiveFence>, ptr: usize) -> bool {
    exists|i: int| #[trigger] stands_at(fences, ptr, i)
}

/// Where fence `ptr` stands.
pub open spec fn place(fences: Seq<LiveFence>, ptr: usize) -> int {
    choose|i: int| #[trigger] stands_at(fences, ptr, i)
}

/// How many entries fence `ptr` is listed with.
pub open spec fn entries(fences: Seq<LiveFence>, ptr: usize) -> nat {
    if is_live(fences, ptr) {
        fences[place(fences, ptr)].buffers as nat
    } else {
        0
    }
}

/// Fence `ptr` loses one entry. With its last one it is forgotten, and the last of the list takes
/// its place.
pub open spec fn released(fences: Seq<LiveFence>, ptr: usize) -> Seq<LiveFence> {
    let i = place(fences, ptr);
    if !is_live(fences, ptr) {
        fences
    } else if fences[i].buffers <= 1 {
        fences.update(i, fences.last()).drop_last()
    } else {
        fences.update(i, LiveFence { ptr, buffers: (fences[i].buffers - 1) as usize })
    }
}

/// Fence `ptr` gains `claimed` entries.
pub open spec fn claimed(fences: Seq<LiveFence>, ptr: usize, claimed: int) -> Seq<LiveFence> {
    let i = place(fences, ptr);
    if claimed == 0 {
        fences
    } else if is_live(fences, ptr) {
        fences.update(i, LiveFence { ptr, buffers: (fences[i].buffers + claimed) as usize })
    } else {
        fences.push(LiveFence { ptr, buffers: claimed as usize })
    }
}

/// The ledger: the fence of the last writer of each allocation, and the live fences.
#[verifier::ext_equal]
pub struct LedgerView {
    pub writers: Map<usize, usize>,
    pub live: Seq<LiveFence>,
}

impl LedgerView {
    /// The first `n` of these allocations change hands to `fence`; each loses its former owner
    /// one entry.
    pub open spec fn taken_over(self, fence: usize, outputs: Seq<usize>, n: int) -> Self
        decreases n,
    {
        if n <= 0 {
            self
        } else {
            let before = self.taken_over(fence, outputs, n - 1);
            let p = outputs[n - 1];
            LedgerView {
                writers: before.writers.insert(p, fence),
                live: if before.writers.contains_key(p) {
                    released(before.live, before.writers[p])
                } else {
                    before.live
                },
            }
        }
    }

    /// An encoder with this fence has ended, and wrote these allocations.
    pub open spec fn ended(self, fence: usize, outputs: Seq<usize>) -> Self {
        let after = self.taken_over(fence, outputs, outputs.len() as int);
        LedgerView { live: claimed(after.live, fence, outputs.len() as int), ..after }
    }

    /// The device has finished what the encoder did: of the first `n` allocations it gives up
    /// those that are still its own.
    pub open spec fn given_up(self, fence: usize, outputs: Seq<usize>, n: int) -> Self
        decreases n,
    {
        if n <= 0 {
            self
        } else {
            let before = self.given_up(fence, outputs, n - 1);
            let p = outputs[n - 1];
            if before.writers.contains_key(p) && before.writers[p] == fence {
                LedgerView {
                    writers: before.writers.remove(p),
                    live: released(before.live, fence),
                }
            } else {
                before
            }
        }
    }

    /// A blit with this fence has ended, and wrote these allocations.
    pub open spec fn blitted(self, fence: usize, outputs: Seq<usize>) -> Self {
        LedgerView {
            writers: Map::new(
                |p: usize| self.writers.contains_key(p) || outputs.contains(p),
                |p: usize| if outputs.contains(p) { fence } else { self.writers[p] },
            ),
            ..self
        }
    }

    /// No fence is listed twice, and none without an entry to its name.
    pub open spec fn distinct(self) -> bool {
        &&& forall|i: int, j: int|
            0 <= i < j < self.live.len() ==> (#[trigger] self.live[i]).ptr != (
            #[trigger] self.live[j]).ptr
        &&& forall|i: int| 0 <= i < self.live.len() ==> (#[trigger] self.live[i]).buffers >= 1
    }

    /// The allocations whose last writer has this fence.
    pub open spec fn owned(self, fence: usize) -> Set<usize> {
        self.writers.dom().filter(|p: usize| self.writers[p] == fence)
    }

    /// Every fence of `compute` is listed with as many entries as it owns, at least.
    pub open spec fn accounts(self, compute: Set<usize>) -> bool {
        &&& self.writers.dom().finite()
        &&& self.distinct()
        &&& forall|f: usize| #[trigger]
            compute.contains(f) ==> entries(self.live, f) >= self.owned(f).len()
    }

    /// A fence that nothing refers to yet.
    pub open spec fn fresh(self, fence: usize) -> bool {
        &&& !is_live(self.live, fence)
        &&& self.owned(fence) == Set::<usize>::empty()
    }
}

/// Drops one entry of fence `ptr`, forgetting the fence once none remains.
pub fn release_fence(fences: &mut Vec<LiveFence>, ptr: usize)
    ensures
        final(fences)@ == released(old(fences)@, ptr),
{
    let n: usize = fences.len();
    for i in 0..n
        invariant
            n == fences@.len(),
            fences@ == old(fences)@,
            forall|j: int| 0 <= j < i ==> (#[trigger] fences@[j]).ptr != ptr,
    {
        if fences[i].ptr == ptr {
            proof {
                lemma_place(fences@, ptr, i as int);
            }
            let buffers: usize = fences[i].buffers;
            if buffers <= 1 {
                fences.swap_remove(i);
                assert(fences@ =~= released(old(fences)@, ptr));
            } else {
                fences.set(i, LiveFence { ptr, buffers: buffers - 1 });
            }
            return;
        }
    }
    assert(!is_live(fences@, ptr));
}

/// Lists `claimed` more entries for fence `ptr`.
fn claim_fence(fences: &mut Vec<LiveFence>, ptr: usize, claimed: usize)
    requires
        entries(old(fences)@, ptr) + claimed <= usize::MAX,
    ensures
        final(fences)@ == self::claimed(old(fences)@, ptr, claimed as int),
{
    if claimed == 0 {
        return;
    }
    let n: usize = fences.len();
    for i in 0..n
        invariant
            n == fences@.len(),
            claimed > 0,
            fences@ == old(fences)@,
            entries(old(fences)@, ptr) + claimed <= usize::MAX,
            forall|j: int| 0 <= j < i ==> (#[trigger] fences@[j]).ptr != ptr,
    {
        if fences[i].ptr == ptr {
            proof {
                lemma_place(fences@, ptr, i as int);
            }
            let buffers: usize = fences[i].buffers;
            fences.set(i, LiveFence { ptr, buffers: buffers + claimed });
            return;
        }
    }
    assert(!is_live(fences@, ptr));
    fences.push(LiveFence { ptr, buffers: claimed });
}

proof fn lemma_place(fences: Seq<LiveFence>, ptr: usize, i: int)
    requires
        stands_at(fences, ptr, i),
    ensures
        is_live(fences, ptr),
        place(fences, ptr) == i,
{
    let j = place(fences, ptr);
    assert(stands_at(fences, ptr, j));
    if j < i {
        assert(fences[j].ptr != ptr);
    } else if i < j {
        assert(fences[i].ptr != ptr);
    }
}

/// Where a command buffer stands.
#[derive(Clone, Copy, Debug, PartialEq, Eq, Structural)]
pub enum CommandBufferStatus {
    NotEnqueued,
    Enqueued,
    Committed,
    Scheduled,
    Completed,
    Error,
}

/// What is done with the command buffer whose epoch was just closed.
#[derive(Clone, Copy, Debug, PartialEq, Eq, Structural)]
pub enum Submission {
    /// Attach the completion handler that reports this epoch, and commit.
    Commit(u64),
    /// It was committed before, so no handler can be attached: its epoch has been retired.
    Retired(u64),
}

/// What it takes to see a command buffer through.
#[derive(Clone, Copy, Debug, PartialEq, Eq, Structural)]
pub enum Completion {
    CommitAndWait,
    Wait,
    Done,
    Failed,
}

impl CommandBufferStatus {
    /// It has not been committed yet, so it still takes a completion handler.
    pub open spec fn is_open(self) -> bool {
        self is NotEnqueued || self is Enqueued
    }

    /// What it takes to see the command buffer through.
    pub fn completion(self) -> (c: Completion)
        ensures
            c == (match self {
                CommandBufferStatus::NotEnqueued | CommandBufferStatus::Enqueued =>
                    Completion::CommitAndWait,
                CommandBufferStatus::Committed | CommandBufferStatus::Scheduled => Completion::Wait,
                CommandBufferStatus::Completed => Completion::Done,
                CommandBufferStatus::Error => Completion::Failed,
            }),
    {
        match self {
            CommandBufferStatus::NotEnqueued => Completion::CommitAndWait,
            CommandBufferStatus::Enqueued => Completion::CommitAndWait,
            CommandBufferStatus::Committed => Completion::Wait,
            CommandBufferStatus::Scheduled => Completion::Wait,
            CommandBufferStatus::Completed => Completion::Done,
            CommandBufferStatus::Error => Completion::Failed,
        }
    }

    /// Whether the command buffer stays on the list of those in flight.
    pub fn in_flight(self) -> (b: bool)
        ensures
            b == !(self is Completed),
    {
        match self {
            CommandBufferStatus::Completed => false,
            _ => true,
        }
    }
}

/// The first failed command buffer among those before the last one. The last one has been waited
/// on, and the others complete before it does.
fn first_failed(statuses: &[CommandBufferStatus]) -> (i: Option<usize>)
    ensures
        match i {
            Some(i) => i + 1 < statuses@.len() && statuses@[i as int] is Error && forall|k: int|
                0 <= k < i ==> !((#[trigger] statuses@[k]) is Error),
            None => forall|k: int|
                0 <= k < statuses@.len() - 1 ==> !((#[trigger] statuses@[k]) is Error),
        },
{
    let n: usize = statuses.len().saturating_sub(1);
    for i in 0..n
        invariant
            n <= statuses@.len(),
            n == 0 || n + 1 == statuses@.len(),
            forall|k: int| 0 <= k < i ==> !((#[trigger] statuses@[k]) is Error),
    {
        match statuses[i] {
            CommandBufferStatus::Error => {
                return Some(i);
            },
            _ => {},
        }
    }
    None
}

/// What is reported of a failed command buffer: its own words, where it has any.
pub fn failure_text(error: Option<String>) -> (s: String)
    ensures
        s@ == (match error {
            Some(e) => e@,
            None => "unknown error"@,
        }),
{
    match error {
        Some(e) => e,
        None => "unknown error".to_owned(),
    }
}

/// The bookkeeping of a command queue.
///
/// Command buffers are known by an identity of the caller's choice.
#[derive(Debug)]
pub struct Commands {
    compute_count: usize,
    compute_per_buffer: usize,
    clock: GpuClock,
    writers: HashMap<usize, usize>,
    live_fences: Vec<LiveFence>,
    current: usize,
    open: Option<usize>,
    in_flight: Vec<usize>,
}

/// That bookkeeping as mathematical values.
#[verifier::ext_equal]
pub struct CommandsView {
    /// Encoders handed out since the current command buffer took over.
    pub compute_count: usize,
    pub compute_per_buffer: usize,
    pub clock: GpuClock,
    pub ledger: LedgerView,
    /// The command buffer that work is encoded into.
    pub current: usize,
    /// The fence of the compute encoder that is open on it.
    pub open: Option<usize>,
    /// Command buffers that were closed and not waited on, oldest first.
    pub in_flight: Seq<usize>,
}

impl View for Commands {
    type V = CommandsView;

    closed spec fn view(&self) -> CommandsView {
        CommandsView {
            compute_count: self.compute_count,
            compute_per_buffer: self.compute_per_buffer,
            clock: self.clock,
            ledger: LedgerView { writers: self.writers@, live: self.live_fences@ },
            current: self.current,
            open: self.open,
            in_flight: self.in_flight@,
        }
    }
}

impl CommandsView {
    /// One more encoder was asked for.
    pub open spec fn counted(self) -> Self {
        CommandsView {
            compute_count: if self.compute_count == usize::MAX {
                0
            } else {
                (self.compute_count + 1) as usize
            },
            ..self
        }
    }
}

impl Commands {
    /// `env` is what the environment asks for as the number of encoders per command buffer.
    pub fn new(env: Option<&str>, current: usize) -> (c: Self)
        ensures
            c@.compute_count == 0,
            c@.compute_per_buffer == (match env {
                Some(word) => match text::usize_of(word@) {
                    Some(v) => v,
                    None => DEFAULT_CANDLE_METAL_COMPUTE_PER_BUFFER as int,
                },
                None => DEFAULT_CANDLE_METAL_COMPUTE_PER_BUFFER as int,
            }),
            c@.clock == (GpuClock { submitted: 0, completed: 0 }),
            c@.ledger == (LedgerView { writers: Map::empty(), live: Seq::empty() }),
            c@.ledger.distinct(),
            c@.current == current,
            c@.open == None::<usize>,
            c@.in_flight == Seq::<usize>::empty(),
    {
        Commands {
            compute_count: 0,
            compute_per_buffer: compute_per_buffer(env),
            clock: GpuClock::new(),
            writers: HashMap::new(),
            live_fences: Vec::new(),
            current,
            open: None,
            in_flight: Vec::new(),
        }
    }

    /// Counts an encoder, compute or blit, and says whether the current command buffer is full
    /// and has to be committed first.
    pub fn count_encoder(&mut self) -> (flush: bool)
        ensures
            flush == (old(self)@.compute_count >= old(self)@.compute_per_buffer),
            final(self)@ == old(self)@.counted(),
    {
        let count: usize = self.compute_count;
        self.compute_count = count.wrapping_add(1);
        count >= self.compute_per_buffer
    }

    /// Whether anything was encoded since the current command buffer took over.
    pub fn has_work(&self) -> (b: bool)
        ensures
            b == (self@.compute_count > 0),
    {
        self.compute_count > 0
    }

    /// Closes the epoch of the current command buffer. Every closed epoch is reported once: by
    /// the completion handler that is attached on committing, or right here where the command
    /// buffer was committed before.
    pub fn close_epoch(&mut self, status: CommandBufferStatus) -> (s: Submission)
        requires
            old(self)@.open is None,
            old(self)@.clock.submitted < u64::MAX,
        ensures
            status.is_open() ==> s == Submission::Commit(old(self)@.clock.submitted)
                && final(self)@ == (CommandsView {
                clock: GpuClock {
                    submitted: (old(self)@.clock.submitted + 1) as u64,
                    completed: old(self)@.clock.completed,
                },
                ..old(self)@
            }),
            !status.is_open() ==> s == Submission::Retired(old(self)@.clock.submitted)
                && final(self)@ == (CommandsView {
                clock: GpuClock {
                    submitted: (old(self)@.clock.submitted + 1) as u64,
                    completed: if old(self)@.clock.completed > old(self)@.clock.submitted {
                        old(self)@.clock.completed
                    } else {
                        (old(self)@.clock.submitted + 1) as u64
                    },
                },
                ..old(self)@
            }),
            old(self)@.clock.sane() ==> final(self)@.clock.sane(),
    {
        let epoch: u64 = self.clock.commit_epoch();
        match status {
            CommandBufferStatus::NotEnqueued => Submission::Commit(epoch),
            CommandBufferStatus::Enqueued => Submission::Commit(epoch),
            _ => {
                self.clock.mark_completed(epoch);
                Submission::Retired(epoch)
            },
        }
    }

    /// A fresh command buffer takes the place of the current one, which joins those in flight.
    pub fn swap_in(&mut self, fresh: usize, reset_to: usize)
        ensures
            final(self)@ == (CommandsView {
                compute_count: reset_to,
                current: fresh,
                in_flight: old(self)@.in_flight.push(old(self)@.current),
                ..old(self)@
            }),
    {
        self.in_flight.push(self.current);
        self.current = fresh;
        self.compute_count = reset_to;
    }

    /// The device has finished this epoch.
    pub fn epoch_completed(&mut self, epoch: u64)
        requires
            epoch < u64::MAX,
        ensures
            final(self)@ == (CommandsView {
                clock: GpuClock {
                    submitted: old(self)@.clock.submitted,
                    completed: if old(self)@.clock.completed > epoch {
                        old(self)@.clock.completed
                    } else {
                        (epoch + 1) as u64
                    },
                },
                ..old(self)@
            }),
    {
        self.clock.mark_completed(epoch);
    }

    /// Opens a compute encoder with this fence, unless one is open: the work that is encoded next
    /// joins it.
    pub fn open_encoder(&mut self, fence: usize) -> (opened: bool)
        ensures
            opened == (old(self)@.open is None),
            final(self)@ == (CommandsView {
                open: match old(self)@.open {
                    Some(f) => Some(f),
                    None => Some(fence),
                },
                ..old(self)@
            }),
    {
        match self.open {
            Some(_) => false,
            None => {
                self.open = Some(fence);
                true
            },
        }
    }

    /// Ends the open compute encoder, if there is one, and registers what it wrote under its
    /// fence, which is returned.
    pub fn end_encoding(&mut self, outputs: &[usize]) -> (ended: Option<usize>)
        requires
            old(self)@.ledger.distinct(),
            old(self)@.open matches Some(fence) ==> entries(old(self)@.ledger.live, fence)
                + outputs@.len() <= usize::MAX,
        ensures
            final(self)@.ledger.distinct(),
            ended == old(self)@.open,
            final(self)@ == (match old(self)@.open {
                Some(fence) => CommandsView {
                    ledger: old(self)@.ledger.ended(fence, outputs@),
                    open: None,
                    ..old(self)@
                },
                None => old(self)@,
            }),
    {
        let fence: usize = match self.open {
            Some(fence) => fence,
            None => {
                return None;
            },
        };
        self.open = None;
        let ghost before = self@;
        for i in 0..outputs.len()
            invariant
                before == (CommandsView { open: None, ..old(self)@ }),
                self@ == (CommandsView {
                    ledger: before.ledger.taken_over(fence, outputs@, i as int),
                    ..before
                }),
        {
            let p: usize = outputs[i];
            match self.writers.insert(p, fence) {
                Some(previous) => {
                    release_fence(&mut self.live_fences, previous);
                },
                None => {},
            }
            assert(self@ =~= CommandsView {
                ledger: before.ledger.taken_over(fence, outputs@, i + 1),
                ..before
            });
        }
        proof {
            lemma_taking_over_claims_nothing(before.ledger, fence, outputs@, outputs@.len() as int);
            lemma_claimed(self@.ledger, fence, outputs@.len() as int);
        }
        claim_fence(&mut self.live_fences, fence, outputs.len());
        assert(self@ =~= CommandsView { ledger: before.ledger.ended(fence, outputs@), ..before });
        Some(fence)
    }

    /// The device has finished what that encoder did: the entries that are still its own leave
    /// the ledger.
    pub fn encoder_completed(&mut self, fence: usize, outputs: &[usize])
        ensures
            final(self)@ == (CommandsView {
                ledger: old(self)@.ledger.given_up(fence, outputs@, outputs@.len() as int),
                ..old(self)@
            }),
            old(self)@.ledger.distinct() ==> final(self)@.ledger.distinct(),
    {
        let ghost v = self@.ledger;
        for i in 0..outputs.len()
            invariant
                self@ == (CommandsView {
                    ledger: v.given_up(fence, outputs@, i as int),
                    ..old(self)@
                }),
        {
            let p: usize = outputs[i];
            let own = match self.writers.get(&p) {
                Some(f) => *f == fence,
                None => false,
            };
            if own {
                self.writers.remove(&p);
                release_fence(&mut self.live_fences, fence);
            }
            assert(self@ =~= CommandsView {
                ledger: v.given_up(fence, outputs@, i + 1),
                ..old(self)@
            });
        }
        proof {
            if v.distinct() {
                lemma_giving_up_lists_nothing_twice(v, fence, outputs@, outputs@.len() as int);
            }
        }
    }

    /// The fences that a blit waits on before its first command.
    pub fn blit_waits(&self) -> (v: Vec<usize>)
        ensures
            v@ == self@.ledger.live.map_values(|f: LiveFence| f.ptr),
    {
        let mut v: Vec<usize> = Vec::with_capacity(self.live_fences.len());
        for i in 0..self.live_fences.len()
            invariant
                v@.len() == i,
                forall|j: int| 0 <= j < i ==> #[trigger] v@[j] == self@.ledger.live[j].ptr,
        {
            v.push(self.live_fences[i].ptr);
        }
        assert(v@ =~= self@.ledger.live.map_values(|f: LiveFence| f.ptr));
        v
    }

    /// The fence of the last writer of each allocation.
    pub fn writers(&self) -> (m: &HashMap<usize, usize>)
        ensures
            m@ == self@.ledger.writers,
    {
        &self.writers
    }

    /// Registers what an ended blit wrote under its fence. The fence does not become live: a later
    /// encoder waits on it through the allocations.
    pub fn end_blit(&mut self, blit: &BlitCommandEncoder, fence: usize)
        requires
            old(self)@.open is None,
        ensures
            final(self)@ == (CommandsView {
                ledger: old(self)@.ledger.blitted(fence, blit@),
                ..old(self)@
            }),
    {
        blit.end_encoding(&mut self.writers, fence);
        assert(self@ =~= CommandsView {
            ledger: old(self)@.ledger.blitted(fence, blit@),
            ..old(self)@
        });
    }

    /// Takes over every command buffer in flight, to wait on the last one.
    pub fn take_in_flight(&mut self) -> (v: Vec<usize>)
        ensures
            v@ == old(self)@.in_flight,
            final(self)@ == (CommandsView { in_flight: Seq::empty(), ..old(self)@ }),
    {
        let mut v: Vec<usize> = Vec::new();
        std::mem::swap(&mut v, &mut self.in_flight);
        v
    }

    /// Command buffers that were closed and not waited on, oldest first.
    pub fn in_flight(&self) -> (v: &[usize])
        ensures
            v@ == self@.in_flight,
    {
        self.in_flight.as_slice()
    }

    /// Forgets the ones that have completed. `statuses` is where each of them stands.
    fn retain_in_flight(&mut self, statuses: &[CommandBufferStatus])
        requires
            statuses@.len() == old(self)@.in_flight.len(),
        ensures
            final(self)@ == (CommandsView {
                in_flight: unfinished(
                    old(self)@.in_flight,
                    statuses@,
                    old(self)@.in_flight.len() as int,
                ),
                ..old(self)@
            }),
    {
        let mut kept: Vec<usize> = Vec::new();
        let n: usize = self.in_flight.len();
        for i in 0..n
            invariant
                self@ == old(self)@,
                n == self.in_flight@.len(),
                n == statuses@.len(),
                kept@ == unfinished(self@.in_flight, statuses@, i as int),
        {
            if statuses[i].in_flight() {
                kept.push(self.in_flight[i]);
            }
        }
        self.in_flight = kept;
    }

    /// Everything that was submitted has been waited on: no fence is owed to anyone.
    fn forget_fences(&mut self)
        ensures
            final(self)@ == (CommandsView {
                ledger: LedgerView { writers: Map::empty(), live: Seq::empty() },
                ..old(self)@
            }),
    {
        self.writers.clear();
        self.live_fences.clear();
        assert(self.live_fences@ =~= Seq::empty());
    }

    /// All the command buffers that were taken over have been waited on, and stand like this now.
    /// Where none failed, no fence is owed to anyone any more. Where one did, its place among them
    /// is returned, that of the last one first, and the fences stay.
    pub fn waited_on_all(&mut self, statuses: &[CommandBufferStatus]) -> (r: Result<(), usize>)
        ensures
            r is Ok <==> forall|i: int|
                0 <= i < statuses@.len() ==> !((#[trigger] statuses@[i]) is Error),
            match r {
                Ok(_) => final(self)@ == (CommandsView {
                    ledger: LedgerView { writers: Map::empty(), live: Seq::empty() },
                    ..old(self)@
                }),
                Err(i) => {
                    &&& final(self)@ == old(self)@
                    &&& i < statuses@.len()
                    &&& statuses@[i as int] is Error
                    &&& statuses@.last() is Error ==> i == statuses@.len() - 1
                    &&& !(statuses@.last() is Error) ==> forall|k: int|
                        0 <= k < i ==> !((#[trigger] statuses@[k]) is Error)
                },
            },
    {
        let n: usize = statuses.len();
        if n > 0 {
            match statuses[n - 1] {
                CommandBufferStatus::Error => {
                    assert(statuses@[n - 1] is Error);
                    return Err(n - 1);
                },
                _ => {},
            }
        }
        match first_failed(statuses) {
            Some(i) => Err(i),
            None => {
                self.forget_fences();
                Ok(())
            },
        }
    }

    /// The command buffer that was just closed has been waited on and ended as `waited`; those in
    /// flight stand like `statuses`. Unless it failed, what has completed is forgotten.
    pub fn waited_on_current(
        &mut self,
        waited: CommandBufferStatus,
        statuses: &[CommandBufferStatus],
    ) -> (ok: bool)
        requires
            statuses@.len() == old(self)@.in_flight.len(),
        ensures
            ok == !(waited is Error),
            final(self)@ == (if waited is Error {
                old(self)@
            } else {
                CommandsView {
                    in_flight: unfinished(
                        old(self)@.in_flight,
                        statuses@,
                        old(self)@.in_flight.len() as int,
                    ),
                    ..old(self)@
                }
            }),
    {
        match waited {
            CommandBufferStatus::Error => false,
            _ => {
                self.retain_in_flight(statuses);
                true
            },
        }
    }

    pub fn clock(&self) -> (c: GpuClock)
        ensures
            c == self@.clock,
    {
        self.clock
    }

    /// The command buffer that work is encoded into.
    pub fn current(&self) -> (c: usize)
        ensures
            c == self@.current,
    {
        self.current
    }
}

/// Of the first `n` command buffers, those that have not completed.
pub open spec fn unfinished(
    buffers: Seq<usize>,
    statuses: Seq<CommandBufferStatus>,
    n: int,
) -> Seq<usize>
    decreases n,
{
    if n <= 0 {
        Seq::empty()
    } else if statuses[n - 1] is Completed {
        unfinished(buffers, statuses, n - 1)
    } else {
        unfinished(buffers, statuses, n - 1).push(buffers[n - 1])
    }
}

/// Looking a fence up in a list that names each once.
proof fn lemma_listed(fences: Seq<LiveFence>, i: int)
    requires
        0 <= i < fences.len(),
        forall|i: int, j: int|
            0 <= i < j < fences.len() ==> (#[trigger] fences[i]).ptr != (#[trigger] fences[j]).ptr,
    ensures
        is_live(fences, fences[i].ptr),
        place(fences, fences[i].ptr) == i,
        entries(fences, fences[i].ptr) == fences[i].buffers,
{
    assert(stands_at(fences, fences[i].ptr, i));
    lemma_place(fences, fences[i].ptr, i);
}

/// What two lists that name each fence once say of `f`, where one holds the other's entry for it.
proof fn lemma_entries(before: Seq<LiveFence>, after: Seq<LiveFence>, f: usize)
    requires
        forall|i: int, j: int|
            0 <= i < j < before.len() ==> (#[trigger] before[i]).ptr != (#[trigger] before[j]).ptr,
        forall|i: int, j: int|
            0 <= i < j < after.len() ==> (#[trigger] after[i]).ptr != (#[trigger] after[j]).ptr,
        forall|i: int|
            0 <= i < before.len() && (#[trigger] before[i]).ptr == f ==> after.contains(before[i]),
        forall|i: int|
            0 <= i < after.len() && (#[trigger] after[i]).ptr == f ==> before.contains(after[i]),
    ensures
        entries(before, f) == entries(after, f),
{
    if is_live(before, f) {
        let i = place(before, f);
        assert(stands_at(before, f, i));
        let j = choose|j: int| 0 <= j < after.len() && after[j] == before[i];
        lemma_listed(after, j);
    }
    if is_live(after, f) {
        let i = place(after, f);
        assert(stands_at(after, f, i));
        let j = choose|j: int| 0 <= j < before.len() && before[j] == after[i];
        lemma_listed(before, j);
    }
}

/// Releasing an entry takes one from that fence and none from any other.
proof fn lemma_released(v: LedgerView, ptr: usize)
    requires
        v.distinct(),
    ensures
        (LedgerView { live: released(v.live, ptr), ..v }).distinct(),
        forall|f: usize| #[trigger]
            entries(released(v.live, ptr), f) == (if f == ptr && entries(v.live, f) > 0 {
                (entries(v.live, f) - 1) as nat
            } else {
                entries(v.live, f)
            }),
{
    let live = v.live;
    let after = released(live, ptr);
    if is_live(live, ptr) {
        let i = place(live, ptr);
        assert(stands_at(live, ptr, i));
        let n = live.len() - 1;
        assert forall|f: usize| #[trigger] entries(after, f) == (if f == ptr && entries(live, f) > 0 {
            (entries(live, f) - 1) as nat
        } else {
            entries(live, f)
        }) by {
            if live[i].buffers <= 1 {
                if f == ptr {
                    if is_live(after, f) {
                        assert(stands_at(after, f, place(after, f)));
                    }
                } else {
                    assert forall|k: int|
                        0 <= k < live.len() && (#[trigger] live[k]).ptr == f implies after.contains(
                        live[k],
                    ) by {
                        if k == n {
                            assert(after[i] == live[k]);
                        } else {
                            assert(after[k] == live[k]);
                        }
                    }
                    assert forall|k: int|
                        0 <= k < after.len() && (#[trigger] after[k]).ptr == f implies live.contains(
                        after[k],
                    ) by {
                        if k == i {
                            assert(after[k] == live[n]);
                        } else {
                            assert(after[k] == live[k]);
                        }
                    }
                    lemma_entries(live, after, f);
                }
            } else if f == ptr {
                lemma_listed(after, i);
            } else {
                assert forall|k: int|
                    0 <= k < live.len() && (#[trigger] live[k]).ptr == f implies after.contains(
                    live[k],
                ) by {
                    assert(after[k] == live[k]);
                }
                assert forall|k: int|
                    0 <= k < after.len() && (#[trigger] after[k]).ptr == f implies live.contains(
                    after[k],
                ) by {
                    assert(after[k] == live[k]);
                }
                lemma_entries(live, after, f);
            }
        }
    }
}

/// Claiming entries gives them to that fence and none to any other.
proof fn lemma_claimed(v: LedgerView, ptr: usize, n: int)
    requires
        v.distinct(),
        0 <= n,
        entries(v.live, ptr) + n <= usize::MAX,
    ensures
        (LedgerView { live: claimed(v.live, ptr, n), ..v }).distinct(),
        forall|f: usize| #[trigger]
            entries(claimed(v.live, ptr, n), f) == (if f == ptr {
                entries(v.live, f) + n as nat
            } else {
                entries(v.live, f)
            }),
{
    let live = v.live;
    let after = claimed(live, ptr, n);
    if n > 0 {
        if is_live(live, ptr) {
            assert(stands_at(live, ptr, place(live, ptr)));
        } else {
            assert forall|i: int| 0 <= i < live.len() implies (#[trigger] live[i]).ptr != ptr by {
                if live[i].ptr == ptr {
                    lemma_listed(live, i);
                }
            }
        }
        assert forall|f: usize| #[trigger] entries(after, f) == (if f == ptr {
            entries(live, f) + n as nat
        } else {
            entries(live, f)
        }) by {
            if f == ptr {
                lemma_listed(after, if is_live(live, ptr) { place(live, ptr) } else { live.len() as int });
            } else {
                assert forall|k: int|
                    0 <= k < live.len() && (#[trigger] live[k]).ptr == f implies after.contains(
                    live[k],
                ) by {
                    assert(after[k] == live[k]);
                }
                assert forall|k: int|
                    0 <= k < after.len() && (#[trigger] after[k]).ptr == f implies live.contains(
                    after[k],
                ) by {
                    assert(after[k] == live[k]);
                }
                lemma_entries(live, after, f);
            }
        }
    }
}

/// Taking allocations over lists no fence twice, and gives `fence` no entry.
proof fn lemma_taking_over_claims_nothing(v: LedgerView, fence: usize, outputs: Seq<usize>, n: int)
    requires
        v.distinct(),
        0 <= n <= outputs.len(),
    ensures
        v.taken_over(fence, outputs, n).distinct(),
        entries(v.taken_over(fence, outputs, n).live, fence) <= entries(v.live, fence),
    decreases n,
{
    if n > 0 {
        lemma_taking_over_claims_nothing(v, fence, outputs, n - 1);
        let before = v.taken_over(fence, outputs, n - 1);
        let p = outputs[n - 1];
        lemma_released(before, before.writers[p]);
        assert(before.distinct());
    }
}

/// Nor does giving them up.
proof fn lemma_giving_up_lists_nothing_twice(v: LedgerView, fence: usize, outputs: Seq<usize>, n: int)
    requires
        v.distinct(),
        0 <= n <= outputs.len(),
    ensures
        v.given_up(fence, outputs, n).distinct(),
    decreases n,
{
    if n > 0 {
        lemma_giving_up_lists_nothing_twice(v, fence, outputs, n - 1);
        lemma_released(v.given_up(fence, outputs, n - 1), fence);
    }
}

/// One allocation changes hands from whoever owns it to `fence`.
proof fn lemma_owned_insert(v: LedgerView, p: usize, fence: usize, f: usize)
    requires
        v.writers.dom().finite(),
    ensures
        ({
            let after = LedgerView { writers: v.writers.insert(p, fence), ..v };
            &&& f != fence ==> after.owned(f) == v.owned(f).remove(p)
            &&& after.owned(fence) == v.owned(fence).insert(p)
            &&& v.owned(f).finite()
            &&& after.writers.dom().finite()
        }),
{
    let after = LedgerView { writers: v.writers.insert(p, fence), ..v };
    v.writers.dom().lemma_len_filter(|p: usize| v.writers[p] == f);
    if f != fence {
        assert(after.owned(f) =~= v.owned(f).remove(p));
    }
    assert(after.owned(fence) =~= v.owned(fence).insert(p));
}

/// What holds while the outputs of a compute encoder are registered one after the other.
proof fn lemma_taken_over(v: LedgerView, compute: Set<usize>, fence: usize, outputs: Seq<usize>, n: int)
    requires
        v.accounts(compute),
        v.fresh(fence),
        !compute.contains(fence),
        outputs.no_duplicates(),
        0 <= n <= outputs.len(),
    ensures
        v.taken_over(fence, outputs, n).accounts(compute),
        !is_live(v.taken_over(fence, outputs, n).live, fence),
        entries(v.taken_over(fence, outputs, n).live, fence) == 0,
        v.taken_over(fence, outputs, n).owned(fence) == outputs.take(n).to_set(),
    decreases n,
{
    if n == 0 {
        assert(outputs.take(0).to_set() =~= Set::<usize>::empty());
    } else {
        lemma_taken_over(v, compute, fence, outputs, n - 1);
        let before = v.taken_over(fence, outputs, n - 1);
        let after = v.taken_over(fence, outputs, n);
        let p = outputs[n - 1];
        assert(outputs.take(n) =~= outputs.take(n - 1).push(p));
        assert(outputs.take(n).to_set() =~= outputs.take(n - 1).to_set().insert(p)) by {
            assert forall|x: usize| outputs.take(n).to_set().contains(x) == outputs.take(
                n - 1,
            ).to_set().insert(p).contains(x) by {
                if outputs.take(n - 1).contains(x) {
                    let i = choose|i: int| 0 <= i < n - 1 && (#[trigger] outputs.take(n - 1)[i]) == x;
                    assert(outputs.take(n)[i] == x);
                }
                if x == p {
                    assert(outputs.take(n)[n - 1] == x);
                }
            }
        }
        let moved = LedgerView { writers: before.writers.insert(p, fence), ..before };
        let prev = before.writers[p];
        if before.writers.contains_key(p) {
            assert(!before.owned(fence).contains(p)) by {
                if outputs.take(n - 1).contains(p) {
                    let i = choose|i: int| 0 <= i < n - 1 && (#[trigger] outputs.take(n - 1)[i]) == p;
                    assert(outputs[i] == outputs[n - 1]);
                }
            }
            lemma_released(moved, prev);
            if is_live(after.live, fence) {
                let i = place(after.live, fence);
                assert(stands_at(after.live, fence, i));
                lemma_listed(after.live, i);
                assert(entries(after.live, fence) > 0);
            }
        }
        assert(after.owned(fence) == moved.owned(fence));
        lemma_owned_insert(before, p, fence, fence);
        assert forall|f: usize| #[trigger] compute.contains(f) implies entries(after.live, f)
            >= after.owned(f).len() by {
            lemma_owned_insert(before, p, fence, f);
            assert(after.owned(f) == moved.owned(f));
            if before.writers.contains_key(p) {
                if f == prev {
                    assert(before.owned(f).contains(p));
                } else {
                    assert(!before.owned(f).contains(p));
                    assert(before.owned(f).remove(p) =~= before.owned(f));
                }
            } else {
                assert(before.owned(f).remove(p) =~= before.owned(f));
            }
        }
    }
}

/// Ending a compute encoder keeps the books: every compute fence, its own included, stays listed
/// with as many entries as it owns.
pub proof fn law_ended_encoders_are_accounted_for(
    v: LedgerView,
    compute: Set<usize>,
    fence: usize,
    outputs: Seq<usize>,
)
    requires
        v.accounts(compute),
        v.fresh(fence),
        !compute.contains(fence),
        outputs.no_duplicates(),
        outputs.len() <= usize::MAX,
    ensures
        v.ended(fence, outputs).accounts(compute.insert(fence)),
        v.ended(fence, outputs).owned(fence) == outputs.to_set(),
{
    let n = outputs.len() as int;
    lemma_taken_over(v, compute, fence, outputs, n);
    let before = v.taken_over(fence, outputs, n);
    let after = v.ended(fence, outputs);
    lemma_claimed(before, fence, n);
    assert(outputs.take(n) =~= outputs);
    outputs.unique_seq_to_set();
    assert forall|f: usize| #[trigger] compute.insert(fence).contains(f) implies entries(
        after.live,
        f,
    ) >= after.owned(f).len() by {
        assert(after.owned(f) == before.owned(f));
        if f != fence {
            assert(compute.contains(f));
        }
    }
}

/// Ending a blit keeps the books of the compute encoders.
pub proof fn law_blits_keep_the_books(
    v: LedgerView,
    compute: Set<usize>,
    fence: usize,
    outputs: Seq<usize>,
)
    requires
        v.accounts(compute),
        !compute.contains(fence),
    ensures
        v.blitted(fence, outputs).accounts(compute),
{
    let after = v.blitted(fence, outputs);
    assert(after.writers.dom() =~= v.writers.dom().union(outputs.to_set()));
    vstd::seq_lib::seq_to_set_is_finite(outputs);
    assert forall|f: usize| #[trigger] compute.contains(f) implies entries(after.live, f)
        >= after.owned(f).len() by {
        v.writers.dom().lemma_len_filter(|p: usize| v.writers[p] == f);
        assert(after.owned(f).subset_of(v.owned(f)));
        vstd::set_lib::lemma_len_subset(after.owned(f), v.owned(f));
    }
}

/// Completion keeps the books: the entries that an encoder gives up are taken off its account,
/// and no other fence's.
pub proof fn law_completion_keeps_the_books(
    v: LedgerView,
    compute: Set<usize>,
    fence: usize,
    outputs: Seq<usize>,
    n: int,
)
    requires
        v.accounts(compute),
        0 <= n <= outputs.len(),
    ensures
        v.given_up(fence, outputs, n).accounts(compute),
        forall|i: int| 0 <= i < n ==> !v.given_up(fence, outputs, n).owned(fence).contains(#[trigger] outputs[i]),
        v.given_up(fence, outputs, n).owned(fence).subset_of(v.owned(fence)),
    decreases n,
{
    if n > 0 {
        law_completion_keeps_the_books(v, compute, fence, outputs, n - 1);
        let before = v.given_up(fence, outputs, n - 1);
        let after = v.given_up(fence, outputs, n);
        let p = outputs[n - 1];
        if before.owned(fence).contains(p) {
            lemma_released(before, fence);
            assert forall|f: usize| #[trigger] compute.contains(f) implies entries(after.live, f)
                >= after.owned(f).len() by {
                before.writers.dom().lemma_len_filter(|p: usize| before.writers[p] == f);
                assert(after.owned(f) =~= before.owned(f).remove(p));
                if f != fence {
                    assert(before.owned(f).remove(p) =~= before.owned(f));
                }
            }
        }
    }
}

/// The fence of every compute encoder that an allocation was last written by is among those that
/// a blit waits on.
pub proof fn law_blits_wait_on_every_compute_writer(v: LedgerView, compute: Set<usize>, p: usize)
    requires
        v.accounts(compute),
        v.writers.contains_key(p),
        compute.contains(v.writers[p]),
    ensures
        v.live.map_values(|f: LiveFence| f.ptr).contains(v.writers[p]),
{
    let f = v.writers[p];
    assert(v.owned(f).contains(p));
    v.writers.dom().lemma_len_filter(|p: usize| v.writers[p] == f);
    assert(v.owned(f).len() > 0) by {
        if v.owned(f).len() == 0 {
            assert(v.owned(f) =~= Set::empty());
        }
    }
    let i = place(v.live, f);
    assert(stands_at(v.live, f, i));
    assert(v.live.map_values(|f: LiveFence| f.ptr)[i] == f);
}

proof fn lemma_writers_taken_over(v: LedgerView, fence: usize, outputs: Seq<usize>, n: int, p: usize)
    requires
        0 <= n <= outputs.len(),
    ensures
        ({
            let w = v.taken_over(fence, outputs, n).writers;
            let written = exists|i: int| 0 <= i < n && #[trigger] outputs[i] == p;
            &&& w.contains_key(p) <==> v.writers.contains_key(p) || written
            &&& w.contains_key(p) ==> w[p] == (if written {
                fence
            } else {
                v.writers[p]
            })
        }),
    decreases n,
{
    if n > 0 {
        lemma_writers_taken_over(v, fence, outputs, n - 1, p);
        if exists|i: int| 0 <= i < n && #[trigger] outputs[i] == p {
            let i = choose|i: int| 0 <= i < n && #[trigger] outputs[i] == p;
            assert(i == n - 1 || 0 <= i < n - 1);
        }
        assert(outputs[n - 1] == outputs[n - 1]);
    }
}

/// The last writer of an allocation is the encoder that ended last having written it, compute or
/// blit; what an encoder did not write keeps its writer.
pub proof fn law_the_last_to_end_is_the_last_writer(
    v: LedgerView,
    fence: usize,
    outputs: Seq<usize>,
    p: usize,
)
    ensures
        ({
            let e = v.ended(fence, outputs).writers;
            let b = v.blitted(fence, outputs).writers;
            &&& outputs.contains(p) ==> e.contains_key(p) && e[p] == fence
            &&& outputs.contains(p) ==> b.contains_key(p) && b[p] == fence
            &&& !outputs.contains(p) ==> (e.contains_key(p) <==> v.writers.contains_key(p))
            &&& !outputs.contains(p) ==> (b.contains_key(p) <==> v.writers.contains_key(p))
            &&& !outputs.contains(p) && v.writers.contains_key(p) ==> e[p] == v.writers[p] && b[p]
                == v.writers[p]
        }),
        v.blitted(fence, outputs).live == v.live,
{
    lemma_writers_taken_over(v, fence, outputs, outputs.len() as int, p);
    if outputs.contains(p) {
        let i = choose|i: int| 0 <= i < outputs.len() && outputs[i] == p;
        assert(outputs[i] == p);
    }
}

/// An encoder that has completed is nobody's last writer among what it wrote; what another has
/// written since keeps that writer, and nothing else changes hands.
pub proof fn law_completion_forgets_only_its_own(
    v: LedgerView,
    fence: usize,
    outputs: Seq<usize>,
    n: int,
    p: usize,
)
    requires
        0 <= n <= outputs.len(),
    ensures
        ({
            let w = v.given_up(fence, outputs, n).writers;
            let written = exists|i: int| 0 <= i < n && #[trigger] outputs[i] == p;
            &&& w.contains_key(p) <==> v.writers.contains_key(p) && !(written && v.writers[p]
                == fence)
            &&& w.contains_key(p) ==> w[p] == v.writers[p]
        }),
    decreases n,
{
    if n > 0 {
        law_completion_forgets_only_its_own(v, fence, outputs, n - 1, p);
        if exists|i: int| 0 <= i < n && #[trigger] outputs[i] == p {
            let i = choose|i: int| 0 <= i < n && #[trigger] outputs[i] == p;
            assert(i == n - 1 || 0 <= i < n - 1);
        }
        assert(outputs[n - 1] == outputs[n - 1]);
    }
}

/// Fence `f` is listed with exactly as many entries as it owns.
spec fn balanced(v: LedgerView, f: usize) -> bool {
    &&& v.writers.dom().finite()
    &&& v.distinct()
    &&& entries(v.live, f) == v.owned(f).len()
}

proof fn lemma_balanced_taken_over(
    v: LedgerView,
    f: usize,
    fence: usize,
    outputs: Seq<usize>,
    n: int,
)
    requires
        balanced(v, f),
        f != fence,
        0 <= n <= outputs.len(),
    ensures
        balanced(v.taken_over(fence, outputs, n), f),
    decreases n,
{
    if n > 0 {
        lemma_balanced_taken_over(v, f, fence, outputs, n - 1);
        let before = v.taken_over(fence, outputs, n - 1);
        let after = v.taken_over(fence, outputs, n);
        let p = outputs[n - 1];
        let moved = LedgerView { writers: before.writers.insert(p, fence), ..before };
        lemma_owned_insert(before, p, fence, f);
        assert(after.owned(f) == moved.owned(f));
        if before.writers.contains_key(p) {
            lemma_released(before, before.writers[p]);
            if before.writers[p] == f {
                assert(before.owned(f).contains(p));
            } else {
                assert(before.owned(f).remove(p) =~= before.owned(f));
            }
        } else {
            assert(before.owned(f).remove(p) =~= before.owned(f));
        }
    }
}

proof fn lemma_balanced_given_up(v: LedgerView, f: usize, fence: usize, outputs: Seq<usize>, n: int)
    requires
        balanced(v, f),
        0 <= n <= outputs.len(),
    ensures
        balanced(v.given_up(fence, outputs, n), f),
    decreases n,
{
    if n > 0 {
        lemma_balanced_given_up(v, f, fence, outputs, n - 1);
        let before = v.given_up(fence, outputs, n - 1);
        let after = v.given_up(fence, outputs, n);
        let p = outputs[n - 1];
        if before.writers.contains_key(p) && before.writers[p] == fence {
            lemma_released(before, fence);
            before.writers.dom().lemma_len_filter(|p: usize| before.writers[p] == f);
            assert(after.owned(f) =~= before.owned(f).remove(p));
            if f == fence {
                assert(before.owned(f).contains(p));
            } else {
                assert(before.owned(f).remove(p) =~= before.owned(f));
            }
        }
    }
}

/// The books balance to the entry. Where a fence is listed with as many entries as there are
/// allocations that it wrote last, it is so after another compute encoder has ended and after one
/// has completed; and the one that ended is listed with as many as it wrote.
pub proof fn law_the_books_balance(v: LedgerView, f: usize, fence: usize, outputs: Seq<usize>)
    requires
        v.writers.dom().finite(),
        v.distinct(),
        entries(v.live, f) == v.owned(f).len(),
        outputs.no_duplicates(),
        outputs.len() <= usize::MAX,
    ensures
        v.fresh(fence) ==> entries(v.ended(fence, outputs).live, f) == v.ended(
            fence,
            outputs,
        ).owned(f).len(),
        v.fresh(fence) ==> entries(v.ended(fence, outputs).live, fence) == outputs.len(),
        entries(v.given_up(fence, outputs, outputs.len() as int).live, f) == v.given_up(
            fence,
            outputs,
            outputs.len() as int,
        ).owned(f).len(),
{
    let n = outputs.len() as int;
    lemma_balanced_given_up(v, f, fence, outputs, n);
    if v.fresh(fence) {
        let nobody = Set::<usize>::empty();
        lemma_taken_over(v, nobody, fence, outputs, n);
        let before = v.taken_over(fence, outputs, n);
        lemma_claimed(before, fence, n);
        law_ended_encoders_are_accounted_for(v, nobody, fence, outputs);
        assert(v.ended(fence, outputs).owned(f) == before.owned(f));
        outputs.unique_seq_to_set();
        if f != fence {
            lemma_balanced_taken_over(v, f, fence, outputs, n);
        }
    }
}

/// A blit waits on a fence exactly where that fence's encoder is still the last writer of some
/// allocation, as long as the books balance.
pub proof fn law_a_blit_waits_on_last_writers(v: LedgerView, f: usize)
    requires
        v.writers.dom().finite(),
        v.distinct(),
        entries(v.live, f) == v.owned(f).len(),
    ensures
        v.live.map_values(|l: LiveFence| l.ptr).contains(f) <==> exists|p: usize|
            #[trigger] v.writers.contains_key(p) && v.writers[p] == f,
{
    let waits = v.live.map_values(|l: LiveFence| l.ptr);
    v.writers.dom().lemma_len_filter(|p: usize| v.writers[p] == f);
    if waits.contains(f) {
        let i = choose|i: int| 0 <= i < waits.len() && waits[i] == f;
        lemma_listed(v.live, i);
        let p = v.owned(f).choose();
        assert(v.owned(f).contains(p)) by {
            if v.owned(f) =~= Set::empty() {
                assert(v.owned(f).len() == 0);
            }
        }
        assert(v.writers.contains_key(p));
    }
    if exists|p: usize| #[trigger] v.writers.contains_key(p) && v.writers[p] == f {
        let p = choose|p: usize| #[trigger] v.writers.contains_key(p) && v.writers[p] == f;
        assert(v.owned(f).contains(p));
        if v.owned(f).len() == 0 {
            assert(v.owned(f) =~= Set::empty());
        }
        let i = place(v.live, f);
        assert(stands_at(v.live, f, i));
        assert(waits[i] == f);
    }
}

/// Counting an encoder counts one, and changes nothing else.
pub proof fn law_an_encoder_counts_once(v: CommandsView)
    ensures
        v.compute_count < usize::MAX ==> v.counted().compute_count == v.compute_count + 1,
        v.counted().compute_per_buffer == v.compute_per_buffer,
        v.counted().ledger == v.ledger,
        v.counted().current == v.current,
        v.counted().open == v.open,
        v.counted().in_flight == v.in_flight,
        v.counted().clock == v.clock,
{
}

/// What stays in flight is what has not completed, a failed command buffer included, in the order
/// it was closed: one more is kept at the end, or not, and changes nothing before it.
pub proof fn law_what_stays_in_flight(
    buffers: Seq<usize>,
    statuses: Seq<CommandBufferStatus>,
    b: usize,
    s: CommandBufferStatus,
)
    requires
        buffers.len() == statuses.len(),
    ensures
        ({
            let n = buffers.len() as int;
            let before = unfinished(buffers, statuses, n);
            let after = unfinished(buffers.push(b), statuses.push(s), n + 1);
            &&& s is Completed ==> after == before
            &&& !(s is Completed) ==> after == before.push(b)
        }),
        unfinished(Seq::empty(), Seq::empty(), 0).len() == 0,
{
    lemma_unfinished_prefix(
        buffers,
        statuses,
        buffers.push(b),
        statuses.push(s),
        buffers.len() as int,
    );
}

proof fn lemma_unfinished_prefix(
    a: Seq<usize>,
    s: Seq<CommandBufferStatus>,
    b: Seq<usize>,
    t: Seq<CommandBufferStatus>,
    n: int,
)
    requires
        forall|i: int| 0 <= i < n ==> a[i] == b[i] && s[i] == t[i],
    ensures
        unfinished(a, s, n) == unfinished(b, t, n),
    decreases n,
{
    if n > 0 {
        lemma_unfinished_prefix(a, s, b, t, n - 1);
    }
}

} // verus!
