//! A probe into the waits between encoders: how many there are, and how many a finer key would
//! drop.
//!
//! The map from allocations to fences is keyed by the allocation alone, so an encoder waits on the
//! last writer of an allocation even where the two touch disjoint bytes of it. The probe records
//! every such call with the bytes on both sides, and counts the waits whose bytes are disjoint.

use std::collections::{HashMap, HashSet};
use vstd::prelude::*;
use vstd::std_specs::iter::IteratorSpec;

use crate::encoder::BoundRange;
use crate::text;

verus! {

broadcast use vstd::std_specs::hash::group_hash_axioms;

/// Which binding site made the call.
#[derive(Clone, Copy, PartialEq, Eq, Debug, Structural)]
pub enum CallSite {
    /// A buffer bound for reading: read-after-write against an earlier encoder.
    Input,
    /// A buffer bound for writing: write-after-write, and write-after-read.
    Output,
    /// The staging buffer of captured parameters.
    CaptureArray,
}

impl CallSite {
    pub open spec fn spec_name(self) -> Seq<char> {
        match self {
            CallSite::Input => "input"@,
            CallSite::Output => "output"@,
            CallSite::CaptureArray => "capture_array"@,
        }
    }

    pub fn as_str(self) -> (s: &'static str)
        ensures
            s@ == self.spec_name(),
    {
        match self {
            CallSite::Input => "input",
            CallSite::Output => "output",
            CallSite::CaptureArray => "capture_array",
        }
    }
}

/// One call that asked to wait on the last writer of an allocation.
#[derive(Clone, Debug)]
pub struct WaitEvent {
    /// Index across the whole run of the probe.
    pub seq: u64,
    pub site: CallSite,
    /// The encoder session of the call. A session waits on a fence once, so a count of waits means
    /// little without it.
    pub encoder: u64,
    /// The range being bound.
    pub reader: BoundRange,
    /// Whether the map held a fence for the allocation at all.
    pub found_fence: bool,
    /// Whether a wait was emitted: not where the session had waited on this fence before.
    pub emitted: bool,
    pub fence: usize,
    /// The ranges that the fence's encoder wrote to this allocation. Empty where no fence was
    /// found, or its ranges were not recorded.
    pub writer_ranges: Vec<BoundRange>,
    /// Whether the allocation is the arena's.
    pub arena: bool,
    /// A marker of the caller's, such as a decode step.
    pub region: Option<String>,
}

/// A call as mathematical values.
#[verifier::ext_equal]
pub struct WaitView {
    pub seq: u64,
    pub site: CallSite,
    pub encoder: u64,
    pub reader: BoundRange,
    pub found_fence: bool,
    pub emitted: bool,
    pub fence: usize,
    pub writer_ranges: Seq<BoundRange>,
    pub arena: bool,
    pub region: Option<Seq<char>>,
}

pub open spec fn label_of(region: Option<String>) -> Option<Seq<char>> {
    match region {
        Some(r) => Some(r@),
        None => None,
    }
}

impl View for WaitEvent {
    type V = WaitView;

    open spec fn view(&self) -> WaitView {
        WaitView {
            seq: self.seq,
            site: self.site,
            encoder: self.encoder,
            reader: self.reader,
            found_fence: self.found_fence,
            emitted: self.emitted,
            fence: self.fence,
            writer_ranges: self.writer_ranges@,
            arena: self.arena,
            region: label_of(self.region),
        }
    }
}

pub open spec fn calls_of(events: Seq<WaitEvent>) -> Seq<WaitView> {
    Seq::new(events.len(), |i: int| events[i]@)
}

/// The ranges of one allocation among those that an encoder wrote.
pub open spec fn to_allocation(written: Seq<(usize, BoundRange)>, ptr: usize) -> Seq<BoundRange> {
    written.filter(bound_to(ptr)).map_values(range_alone())
}

pub open spec fn bound_to(ptr: usize) -> spec_fn((usize, BoundRange)) -> bool {
    |w: (usize, BoundRange)| w.0 == ptr
}

pub open spec fn range_alone() -> spec_fn((usize, BoundRange)) -> BoundRange {
    |w: (usize, BoundRange)| w.1
}

/// The ranges that are given for an allocation.
pub open spec fn given_for(ranges: Map<usize, Vec<BoundRange>>, ptr: usize) -> Seq<BoundRange> {
    if ranges.contains_key(ptr) {
        ranges[ptr]@
    } else {
        Seq::empty()
    }
}

/// The state of the probe.
#[derive(Debug)]
pub struct ProbeState {
    enabled: bool,
    recording: bool,
    skipped: u64,
    events: Vec<WaitEvent>,
    next_seq: u64,
    encoder: u64,
    region: Option<String>,
    arena_ptr: Option<usize>,
    writers: HashMap<usize, Vec<(usize, BoundRange)>>,
}

/// The state of the probe as mathematical values.
#[verifier::ext_equal]
pub struct ProbeView {
    /// Whether the probe was asked for.
    pub enabled: bool,
    pub recording: bool,
    /// Calls seen while nothing was recorded.
    pub skipped: u64,
    pub events: Seq<WaitView>,
    pub next_seq: u64,
    /// The current encoder session.
    pub encoder: u64,
    pub region: Option<Seq<char>>,
    /// The arena's allocation, once there is one.
    pub arena_ptr: Option<usize>,
    /// What the encoder of each fence wrote: ranges, each with its allocation.
    pub writers: Map<usize, Seq<(usize, BoundRange)>>,
}

pub open spec fn writers_of(writers: Map<usize, Vec<(usize, BoundRange)>>) -> Map<
    usize,
    Seq<(usize, BoundRange)>,
> {
    writers.map_values(|v: Vec<(usize, BoundRange)>| v@)
}

impl View for ProbeState {
    type V = ProbeView;

    closed spec fn view(&self) -> ProbeView {
        ProbeView {
            enabled: self.enabled,
            recording: self.recording,
            skipped: self.skipped,
            events: calls_of(self.events@),
            next_seq: self.next_seq,
            encoder: self.encoder,
            region: label_of(self.region),
            arena_ptr: self.arena_ptr,
            writers: writers_of(self.writers@),
        }
    }
}

impl ProbeView {
    /// Calls are being recorded.
    pub open spec fn is_recording(self) -> bool {
        self.enabled && self.recording
    }

    /// What the encoder of this fence wrote to this allocation.
    pub open spec fn written(self, fence: usize, ptr: usize) -> Seq<BoundRange> {
        if self.writers.contains_key(fence) {
            to_allocation(self.writers[fence], ptr)
        } else {
            Seq::empty()
        }
    }

    /// A probe that has seen nothing.
    pub open spec fn fresh(enabled: bool) -> Self {
        ProbeView {
            enabled,
            recording: false,
            skipped: 0,
            events: Seq::empty(),
            next_seq: 0,
            encoder: 0,
            region: None,
            arena_ptr: None,
            writers: Map::empty(),
        }
    }

    /// The event that a wait becomes, under the next number.
    pub open spec fn event(self, wait: WaitArgs) -> WaitView {
        WaitView {
            seq: self.next_seq,
            site: wait.site,
            encoder: self.encoder,
            reader: wait.reader,
            found_fence: wait.found_fence,
            emitted: wait.emitted,
            fence: wait.fence,
            writer_ranges: wait.writer_ranges,
            arena: self.arena_ptr == Some(wait.reader.ptr),
            region: self.region,
        }
    }

    /// The call can be made: what it counts can still be counted.
    pub open spec fn accepts(self, step: ProbeStep) -> bool {
        match step {
            ProbeStep::Wait { .. } => self.is_recording() ==> self.next_seq < u64::MAX,
            ProbeStep::EncoderBegin => self.is_recording() ==> self.encoder < u64::MAX,
            _ => true,
        }
    }

    /// The probe after one call. Nothing changes unless the probe was asked for.
    pub open spec fn after(self, step: ProbeStep) -> Self {
        match step {
            _ if !self.enabled => self,
            ProbeStep::SetRecording { on } => ProbeView { recording: on, ..self },
            ProbeStep::SetRegion { region } => ProbeView { region, ..self },
            ProbeStep::SetArena { ptr } => ProbeView { arena_ptr: ptr, ..self },
            ProbeStep::Writers { writers } => ProbeView { writers, ..self },
            ProbeStep::EncoderBegin => if self.recording {
                ProbeView { encoder: (self.encoder + 1) as u64, ..self }
            } else {
                self
            },
            ProbeStep::Wait { wait } => if self.recording {
                ProbeView {
                    next_seq: (self.next_seq + 1) as u64,
                    events: self.events.push(self.event(wait)),
                    ..self
                }
            } else {
                ProbeView {
                    skipped: if self.skipped == u64::MAX {
                        0
                    } else {
                        (self.skipped + 1) as u64
                    },
                    ..self
                }
            },
            ProbeStep::TakeEvents => ProbeView { events: Seq::empty(), ..self },
        }
    }

    /// The events that the call records: one at most.
    pub open spec fn recorded(self, step: ProbeStep) -> Seq<WaitView> {
        match step {
            ProbeStep::Wait { wait } if self.is_recording() => seq![self.event(wait)],
            _ => Seq::empty(),
        }
    }

    /// The events that the call returns.
    pub open spec fn returned(self, step: ProbeStep) -> Seq<WaitView> {
        if step is TakeEvents && self.enabled {
            self.events
        } else {
            Seq::empty()
        }
    }

    /// The probe after several calls.
    pub open spec fn after_all(self, steps: Seq<ProbeStep>) -> Self
        decreases steps.len(),
    {
        if steps.len() == 0 {
            self
        } else {
            self.after_all(steps.drop_last()).after(steps.last())
        }
    }

    /// The calls can be made one after another.
    pub open spec fn accepts_all(self, steps: Seq<ProbeStep>) -> bool
        decreases steps.len(),
    {
        steps.len() > 0 ==> self.accepts_all(steps.drop_last()) && self.after_all(
            steps.drop_last(),
        ).accepts(steps.last())
    }

    /// The events that several calls record, in order.
    pub open spec fn recorded_all(self, steps: Seq<ProbeStep>) -> Seq<WaitView>
        decreases steps.len(),
    {
        if steps.len() == 0 {
            Seq::empty()
        } else {
            self.recorded_all(steps.drop_last()) + self.after_all(steps.drop_last()).recorded(
                steps.last(),
            )
        }
    }

    /// The events that several calls return, one drain after another.
    pub open spec fn returned_all(self, steps: Seq<ProbeStep>) -> Seq<WaitView>
        decreases steps.len(),
    {
        if steps.len() == 0 {
            Seq::empty()
        } else {
            self.returned_all(steps.drop_last()) + self.after_all(steps.drop_last()).returned(
                steps.last(),
            )
        }
    }
}

/// What a wait is recorded with.
pub struct WaitArgs {
    pub site: CallSite,
    pub reader: BoundRange,
    pub found_fence: bool,
    pub emitted: bool,
    pub fence: usize,
    pub writer_ranges: Seq<BoundRange>,
}

/// A call that changes what the probe holds.
pub enum ProbeStep {
    SetRecording { on: bool },
    SetRegion { region: Option<Seq<char>> },
    SetArena { ptr: Option<usize> },
    EncoderBegin,
    Wait { wait: WaitArgs },
    /// What is known of the writers becomes this.
    Writers { writers: Map<usize, Seq<(usize, BoundRange)>> },
    TakeEvents,
}

impl ProbeState {
    /// A probe that has seen nothing. `env` is what the environment asks for.
    pub fn new(env: Option<&str>) -> (s: Self)
        ensures
            s@ == ProbeView::fresh(env is Some && text::switches_on(env->0@)),
    {
        let enabled = match env {
            Some(word) => text::is_switch_on(word),
            None => false,
        };
        let s = ProbeState {
            enabled,
            recording: false,
            skipped: 0,
            events: Vec::new(),
            next_seq: 0,
            encoder: 0,
            region: None,
            arena_ptr: None,
            writers: HashMap::new(),
        };
        assert(calls_of(s.events@) =~= Seq::empty());
        assert(writers_of(s.writers@) =~= Map::empty());
        s
    }

    /// How many calls have been recorded so far, which is the number of the next one.
    pub fn recorded(&self) -> (n: u64)
        ensures
            n == self@.next_seq,
    {
        self.next_seq
    }

    /// How many encoder sessions have begun while calls were recorded.
    pub fn sessions(&self) -> (n: u64)
        ensures
            n == self@.encoder,
    {
        self.encoder
    }
}

/// Whether a call is recorded.
pub fn is_recording(state: &ProbeState) -> (b: bool)
    ensures
        b == state@.is_recording(),
{
    state.enabled && state.recording
}

/// Turn recording on or off. Does nothing unless the probe was asked for.
pub fn set_recording(state: &mut ProbeState, on: bool)
    ensures
        final(state)@ == old(state)@.after(ProbeStep::SetRecording { on }),
{
    if state.enabled {
        state.recording = on;
    }
}

/// Whether the probe was asked for, for a harness to report when it produced nothing.
pub fn probe_requested(state: &ProbeState) -> (b: bool)
    ensures
        b == state@.enabled,
{
    state.enabled
}

/// Label the calls that follow.
pub fn set_region(state: &mut ProbeState, region: Option<String>)
    ensures
        final(state)@ == old(state)@.after(ProbeStep::SetRegion { region: label_of(region) }),
{
    if !state.enabled {
        return;
    }
    state.region = region;
}

/// Record that a new encoder session began.
pub fn note_encoder_begin(state: &mut ProbeState)
    requires
        old(state)@.accepts(ProbeStep::EncoderBegin),
    ensures
        final(state)@ == old(state)@.after(ProbeStep::EncoderBegin),
{
    if !is_recording(state) {
        return;
    }
    state.encoder += 1;
}

/// Tell the probe which allocation is the arena's.
pub fn set_arena_ptr(state: &mut ProbeState, ptr: Option<usize>)
    ensures
        final(state)@ == old(state)@.after(ProbeStep::SetArena { ptr }),
{
    if !state.enabled {
        return;
    }
    state.arena_ptr = ptr;
}

/// The arena's allocation, where the probe was told of one.
pub fn arena_ptr(state: &ProbeState) -> (p: Option<usize>)
    ensures
        p == (if state@.enabled {
            state@.arena_ptr
        } else {
            None
        }),
{
    if !state.enabled {
        return None;
    }
    state.arena_ptr
}

/// Record one call.
pub fn record_wait(
    state: &mut ProbeState,
    site: CallSite,
    reader: BoundRange,
    found_fence: bool,
    emitted: bool,
    fence: usize,
    writer_ranges: Vec<BoundRange>,
)
    requires
        old(state)@.is_recording() ==> old(state)@.next_seq < u64::MAX,
    ensures
        final(state)@ == old(state)@.after(
            ProbeStep::Wait {
                wait: WaitArgs {
                    site,
                    reader,
                    found_fence,
                    emitted,
                    fence,
                    writer_ranges: writer_ranges@,
                },
            },
        ),
{
    if !state.enabled {
        return;
    }
    if !state.recording {
        state.skipped = state.skipped.wrapping_add(1);
        return;
    }
    let seq: u64 = state.next_seq;
    state.next_seq = seq + 1;
    let region = match &state.region {
        Some(r) => Some(r.clone()),
        None => None,
    };
    let arena = match state.arena_ptr {
        Some(p) => p == reader.ptr,
        None => false,
    };
    let ghost before = state.events@;
    state.events.push(
        WaitEvent {
            seq,
            site,
            encoder: state.encoder,
            reader,
            found_fence,
            emitted,
            fence,
            writer_ranges,
            arena,
            region,
        },
    );
    assert(calls_of(state.events@) =~= calls_of(before).push(state.events@.last()@));
}

proof fn lemma_to_allocation_push(s: Seq<(usize, BoundRange)>, w: (usize, BoundRange), ptr: usize)
    ensures
        to_allocation(s.push(w), ptr) == (if w.0 == ptr {
            to_allocation(s, ptr).push(w.1)
        } else {
            to_allocation(s, ptr)
        }),
{
    let p = bound_to(ptr);
    let f = range_alone();
    s.lemma_filter_push(w, p);
    assert(s.filter(p).push(w).map_values(f) =~= s.filter(p).map_values(f).push(f(w)));
}

/// The key of one of the pairs before `n` is `ptr`.
spec fn key_seen(pairs: Seq<(usize, Vec<BoundRange>)>, n: int, ptr: usize) -> bool {
    exists|i: int| 0 <= i < n && (#[trigger] pairs[i]).0 == ptr
}

/// Once every pair was seen, so was every key.
proof fn lemma_all_keys(ranges: Map<usize, Vec<BoundRange>>, pairs: Seq<(usize, Vec<BoundRange>)>)
    requires
        pairs.to_set() == ranges.kv_pairs(),
    ensures
        forall|p: usize| #[trigger] ranges.contains_key(p) ==> key_seen(pairs, pairs.len() as int, p),
{
    assert forall|p: usize| #[trigger] ranges.contains_key(p) implies key_seen(
        pairs,
        pairs.len() as int,
        p,
    ) by {
        assert(ranges.kv_pairs().contains((p, ranges[p])));
        assert(pairs.to_set().contains((p, ranges[p])));
        let i = choose|i: int| 0 <= i < pairs.len() && pairs[i] == (p, ranges[p]);
        assert(pairs[i].0 == p);
    }
}

/// Record what the encoder of this fence wrote, so that a later wait on it can be judged.
pub fn note_writer_ranges(
    state: &mut ProbeState,
    fence: usize,
    ranges: &HashMap<usize, Vec<BoundRange>>,
)
    ensures
        final(state)@ == old(state)@.after(
            ProbeStep::Writers { writers: final(state)@.writers },
        ),
        !old(state)@.is_recording() ==> final(state)@ == old(state)@,
        old(state)@.is_recording() ==> {
            &&& final(state)@.writers.contains_key(fence)
            &&& final(state)@.writers.remove(fence) == old(state)@.writers.remove(fence)
            &&& forall|ptr: usize| #[trigger]
                final(state)@.written(fence, ptr) == old(state)@.written(fence, ptr) + given_for(
                    ranges@,
                    ptr,
                )
        },
{
    if !is_recording(state) {
        return;
    }
    let ghost v = state@;
    let taken = state.writers.remove(&fence);
    let mut entry: Vec<(usize, BoundRange)> = match taken {
        Some(e) => e,
        None => Vec::new(),
    };
    proof {
        reveal(Seq::filter);
        assert forall|ptr: usize| #[trigger] to_allocation(entry@, ptr) =~= v.written(fence, ptr) by {}
    }
    proof {
        assert forall|pairs: Seq<(usize, Vec<BoundRange>)>| #[trigger]
            pairs.to_set() == ranges@.kv_pairs() implies forall|p: usize| #[trigger]
            ranges@.contains_key(p) ==> key_seen(pairs, pairs.len() as int, p) by {
            lemma_all_keys(ranges@, pairs);
        }
    }
    for (ptr, given) in it: ranges.iter()
        invariant
            v == old(state)@,
            forall|p: usize| #[trigger]
                to_allocation(entry@, p) == v.written(fence, p) + (if key_seen(
                    it.seq().unref(),
                    it.index(),
                    p,
                ) {
                    given_for(ranges@, p)
                } else {
                    Seq::empty()
                }),
            it.index() == it.seq().len() ==> forall|p: usize| #[trigger]
                to_allocation(entry@, p) == v.written(fence, p) + given_for(ranges@, p),
            it.seq().unref().no_duplicates(),
            it.seq().unref().to_set() == ranges@.kv_pairs(),
            forall|p: usize| #[trigger]
                ranges@.contains_key(p) ==> key_seen(
                    it.seq().unref(),
                    it.seq().unref().len() as int,
                    p,
                ),
            forall|j: int|
                0 <= j < it.seq().len() ==> ranges@.contains_key(
                    (#[trigger] it.seq().unref()[j]).0,
                ) && ranges@[it.seq().unref()[j].0] == it.seq().unref()[j].1,
    {
        let ghost pairs = it.seq().unref();
        let ghost k = it.index();
        assert(pairs[k] == (*ptr, *given));
        assert(!key_seen(pairs, k, *ptr)) by {
            if key_seen(pairs, k, *ptr) {
                let j = choose|j: int| 0 <= j < k && (#[trigger] pairs[j]).0 == *ptr;
                assert(pairs[j] == pairs[k]);
            }
        }
        let ghost before = entry@;
        for i in 0..given.len()
            invariant
                forall|p: usize| #[trigger]
                    to_allocation(entry@, p) == to_allocation(before, p) + (if p == *ptr {
                        given@.take(i as int)
                    } else {
                        Seq::empty()
                    }),
        {
            let ghost was = entry@;
            entry.push((*ptr, given[i]));
            proof {
                assert(given@.take(i + 1) =~= given@.take(i as int).push(given@[i as int]));
                assert forall|p: usize| #[trigger]
                    to_allocation(entry@, p) =~= to_allocation(before, p) + (if p == *ptr {
                        given@.take(i + 1)
                    } else {
                        Seq::empty()
                    }) by {
                    lemma_to_allocation_push(was, (*ptr, given@[i as int]), p);
                    assert(to_allocation(was, p) == to_allocation(before, p) + (if p == *ptr {
                        given@.take(i as int)
                    } else {
                        Seq::empty()
                    }));
                }
            }
        }
        proof {
            assert(given@.take(given@.len() as int) =~= given@);
            assert forall|p: usize| #[trigger]
                to_allocation(entry@, p) =~= v.written(fence, p) + (if key_seen(pairs, k + 1, p) {
                    given_for(ranges@, p)
                } else {
                    Seq::empty()
                }) by {
                assert(key_seen(pairs, k + 1, p) <==> key_seen(pairs, k, p) || p == *ptr) by {
                    if p == *ptr {
                        assert(pairs[k].0 == p);
                    }
                }
                assert(to_allocation(before, p) == v.written(fence, p) + (if key_seen(pairs, k, p) {
                    given_for(ranges@, p)
                } else {
                    Seq::empty()
                }));
            }
        }
    }
    state.writers.insert(fence, entry);
}

/// The ranges that the encoder of this fence wrote to the allocation. Empty where nothing was
/// recorded of it.
pub fn writer_ranges(state: &ProbeState, fence: usize, ptr: usize) -> (v: Vec<BoundRange>)
    ensures
        v@ == (if state@.is_recording() {
            state@.written(fence, ptr)
        } else {
            Seq::empty()
        }),
{
    let mut v: Vec<BoundRange> = Vec::new();
    if !is_recording(state) {
        return v;
    }
    match state.writers.get(&fence) {
        Some(written) => {
            proof {
                reveal(Seq::filter);
                assert(to_allocation(written@.take(0), ptr) =~= v@);
            }
            for i in 0..written.len()
                invariant
                    v@ == to_allocation(written@.take(i as int), ptr),
            {
                let (p, range) = written[i];
                proof {
                    assert(written@.take(i + 1) =~= written@.take(i as int).push(
                        written@[i as int],
                    ));
                    lemma_to_allocation_push(written@.take(i as int), written@[i as int], ptr);
                }
                if p == ptr {
                    v.push(range);
                }
            }
            assert(written@.take(written@.len() as int) =~= written@);
            v
        },
        None => v,
    }
}

/// Forget the ranges of this fence, where its entries leave the map.
pub fn forget_writer(state: &mut ProbeState, fence: usize)
    ensures
        final(state)@ == old(state)@.after(
            ProbeStep::Writers { writers: old(state)@.writers.remove(fence) },
        ),
{
    if !state.enabled {
        return;
    }
    state.writers.remove(&fence);
    assert(state@.writers =~= old(state)@.writers.remove(fence));
}

/// Every call recorded so far. The probe keeps none of them.
pub fn take_events(state: &mut ProbeState) -> (v: Vec<WaitEvent>)
    ensures
        calls_of(v@) == old(state)@.returned(ProbeStep::TakeEvents),
        final(state)@ == old(state)@.after(ProbeStep::TakeEvents),
{
    let mut v: Vec<WaitEvent> = Vec::new();
    assert(calls_of(v@) =~= Seq::empty());
    if !state.enabled {
        return v;
    }
    std::mem::swap(&mut v, &mut state.events);
    v
}

/// Calls seen while nothing was recorded.
pub fn skipped_count(state: &ProbeState) -> (n: u64)
    ensures
        n == state@.skipped,
{
    state.skipped
}

/// What a run of calls comes to.
#[derive(Debug, Clone, PartialEq, Eq)]
pub struct Summary {
    pub calls: u64,
    /// Calls that found a fence.
    pub found: u64,
    /// Calls that emitted a wait.
    pub emitted: u64,
    /// Emitted waits on the arena's allocation.
    pub emitted_arena: u64,
    /// Emitted waits on the arena where the reader's bytes overlap something that was written.
    pub emitted_arena_survives_range: u64,
    /// Emitted waits on the arena where the two sides touch disjoint bytes: false dependencies.
    pub emitted_arena_false: u64,
    /// The same split for other allocations.
    pub emitted_other_survives_range: u64,
    pub emitted_other_false: u64,
    /// Emitted waits whose writer's ranges were not recorded. They count for neither side.
    pub emitted_undecidable: u64,
    /// Encoder sessions that the calls span.
    pub sessions: u64,
    /// Calls per site, in the order of the sites' names.
    pub by_site: Vec<(CallSite, u64)>,
}

impl WaitView {
    /// Whether a key by ranges would still have asked for this wait; `None` where that is not
    /// known.
    pub open spec fn survives(self) -> Option<bool> {
        if self.writer_ranges.len() == 0 {
            None
        } else {
            Some(
                exists|i: int|
                    0 <= i < self.writer_ranges.len()
                        && (#[trigger] self.writer_ranges[i]).spec_overlaps(self.reader),
            )
        }
    }
}

/// Whether a key by ranges would still have asked for this wait. `None` where the writer's ranges
/// were not recorded.
pub fn survives_range_test(e: &WaitEvent) -> (r: Option<bool>)
    ensures
        r == e@.survives(),
{
    if e.writer_ranges.len() == 0 {
        return None;
    }
    for i in 0..e.writer_ranges.len()
        invariant
            e.writer_ranges@.len() > 0,
            forall|j: int|
                0 <= j < i ==> !(#[trigger] e.writer_ranges@[j]).spec_overlaps(e.reader),
    {
        if e.writer_ranges[i].overlaps(&e.reader) {
            return Some(true);
        }
    }
    Some(false)
}

pub open spec fn found() -> spec_fn(WaitView) -> bool {
    |e: WaitView| e.found_fence
}

pub open spec fn emitted() -> spec_fn(WaitView) -> bool {
    |e: WaitView| e.emitted
}

pub open spec fn emitted_in(arena: bool) -> spec_fn(WaitView) -> bool {
    |e: WaitView| e.emitted && e.arena == arena
}

/// Emitted on that side of the arena, with that outcome of the range test.
pub open spec fn decided(arena: bool, survives: bool) -> spec_fn(WaitView) -> bool {
    |e: WaitView| e.emitted && e.arena == arena && e.survives() == Some(survives)
}

pub open spec fn undecidable() -> spec_fn(WaitView) -> bool {
    |e: WaitView| e.emitted && e.survives() is None
}

pub open spec fn from_site(site: CallSite) -> spec_fn(WaitView) -> bool {
    |e: WaitView| e.site == site
}

/// The encoder sessions of these calls.
pub open spec fn sessions_of(events: Seq<WaitView>) -> Set<u64> {
    events.map_values(|e: WaitView| e.encoder).to_set()
}

/// One entry for a site that occurs.
pub open spec fn site_entry(events: Seq<WaitView>, site: CallSite) -> Seq<(CallSite, u64)> {
    if events.filter(from_site(site)).len() == 0 {
        Seq::empty()
    } else {
        seq![(site, events.filter(from_site(site)).len() as u64)]
    }
}

impl Summary {
    /// This is what the calls come to.
    pub open spec fn sums_up(self, events: Seq<WaitView>) -> bool {
        &&& self.calls == events.len()
        &&& self.found == events.filter(found()).len()
        &&& self.emitted == events.filter(emitted()).len()
        &&& self.emitted_arena == events.filter(emitted_in(true)).len()
        &&& self.emitted_arena_survives_range == events.filter(decided(true, true)).len()
        &&& self.emitted_arena_false == events.filter(decided(true, false)).len()
        &&& self.emitted_other_survives_range == events.filter(decided(false, true)).len()
        &&& self.emitted_other_false == events.filter(decided(false, false)).len()
        &&& self.emitted_undecidable == events.filter(undecidable()).len()
        &&& self.sessions == sessions_of(events).len()
        &&& self.by_site@ == site_entry(events, CallSite::CaptureArray) + site_entry(
            events,
            CallSite::Input,
        ) + site_entry(events, CallSite::Output)
    }

    /// The counts of waits, without sessions and sites.
    spec fn counts(self, events: Seq<WaitView>) -> bool {
        &&& self.calls == events.len()
        &&& self.found == events.filter(found()).len()
        &&& self.emitted == events.filter(emitted()).len()
        &&& self.emitted_arena == events.filter(emitted_in(true)).len()
        &&& self.emitted_arena_survives_range == events.filter(decided(true, true)).len()
        &&& self.emitted_arena_false == events.filter(decided(true, false)).len()
        &&& self.emitted_other_survives_range == events.filter(decided(false, true)).len()
        &&& self.emitted_other_false == events.filter(decided(false, false)).len()
        &&& self.emitted_undecidable == events.filter(undecidable()).len()
    }

    fn nothing() -> (s: Summary)
        ensures
            s.counts(Seq::empty()),
            s.sessions == 0,
            s.by_site@.len() == 0,
    {
        proof {
            reveal(Seq::filter);
        }
        Summary {
            calls: 0,
            found: 0,
            emitted: 0,
            emitted_arena: 0,
            emitted_arena_survives_range: 0,
            emitted_arena_false: 0,
            emitted_other_survives_range: 0,
            emitted_other_false: 0,
            emitted_undecidable: 0,
            sessions: 0,
            by_site: Vec::new(),
        }
    }

    fn count(&mut self, e: &WaitEvent, Ghost(before): Ghost<Seq<WaitView>>)
        requires
            old(self).counts(before),
            before.len() < u64::MAX,
        ensures
            final(self).counts(before.push(e@)),
            final(self).by_site == old(self).by_site,
    {
        proof {
            before.lemma_filter_push(e@, found());
            before.lemma_filter_push(e@, emitted());
            before.lemma_filter_push(e@, emitted_in(true));
            before.lemma_filter_push(e@, decided(true, true));
            before.lemma_filter_push(e@, decided(true, false));
            before.lemma_filter_push(e@, decided(false, true));
            before.lemma_filter_push(e@, decided(false, false));
            before.lemma_filter_push(e@, undecidable());
            before.lemma_filter_len(found());
            before.lemma_filter_len(emitted());
            before.lemma_filter_len(emitted_in(true));
            before.lemma_filter_len(decided(true, true));
            before.lemma_filter_len(decided(true, false));
            before.lemma_filter_len(decided(false, true));
            before.lemma_filter_len(decided(false, false));
            before.lemma_filter_len(undecidable());
        }
        self.calls += 1;
        if e.found_fence {
            self.found += 1;
        }
        if !e.emitted {
            return;
        }
        self.emitted += 1;
        if e.arena {
            self.emitted_arena += 1;
        }
        match survives_range_test(e) {
            None => {
                self.emitted_undecidable += 1;
            },
            Some(true) => {
                if e.arena {
                    self.emitted_arena_survives_range += 1;
                } else {
                    self.emitted_other_survives_range += 1;
                }
            },
            Some(false) => {
                if e.arena {
                    self.emitted_arena_false += 1;
                } else {
                    self.emitted_other_false += 1;
                }
            },
        }
    }
}

impl Default for Summary {
    fn default() -> (s: Self)
        ensures
            s.sums_up(Seq::empty()),
    {
        let none: Vec<WaitEvent> = Vec::new();
        assert(calls_of(none@) =~= Seq::empty());
        summarize(none.as_slice())
    }
}

/// Sum a run of calls.
pub fn summarize(events: &[WaitEvent]) -> (s: Summary)
    ensures
        s.sums_up(calls_of(events@)),
{
    let mut s = Summary::nothing();
    let mut sessions: HashSet<u64> = HashSet::new();
    let mut inputs: u64 = 0;
    let mut outputs: u64 = 0;
    let mut captures: u64 = 0;
    let ghost all = calls_of(events@);
    proof {
        reveal(Seq::filter);
        assert(all.take(0) =~= Seq::empty());
        assert(sessions_of(all.take(0)) =~= Set::empty());
    }
    let n: usize = events.len();
    for i in 0..n
        invariant
            n == events@.len(),
            all == calls_of(events@),
            s.counts(all.take(i as int)),
            s.by_site@.len() == 0,
            sessions@ == sessions_of(all.take(i as int)),
            inputs == all.take(i as int).filter(from_site(CallSite::Input)).len(),
            outputs == all.take(i as int).filter(from_site(CallSite::Output)).len(),
            captures == all.take(i as int).filter(from_site(CallSite::CaptureArray)).len(),
    {
        let e = &events[i];
        let ghost before = all.take(i as int);
        proof {
            assert(all.take(i + 1) =~= before.push(e@));
            before.lemma_filter_push(e@, from_site(CallSite::Input));
            before.lemma_filter_push(e@, from_site(CallSite::Output));
            before.lemma_filter_push(e@, from_site(CallSite::CaptureArray));
            before.lemma_filter_len(from_site(CallSite::Input));
            before.lemma_filter_len(from_site(CallSite::Output));
            before.lemma_filter_len(from_site(CallSite::CaptureArray));
            lemma_sessions_push(before, e@);
        }
        s.count(e, Ghost(before));
        sessions.insert(e.encoder);
        match e.site {
            CallSite::Input => {
                inputs += 1;
            },
            CallSite::Output => {
                outputs += 1;
            },
            CallSite::CaptureArray => {
                captures += 1;
            },
        }
    }
    assert(all.take(n as int) =~= all);
    s.sessions = sessions.len() as u64;
    if captures > 0 {
        s.by_site.push((CallSite::CaptureArray, captures));
    }
    if inputs > 0 {
        s.by_site.push((CallSite::Input, inputs));
    }
    if outputs > 0 {
        s.by_site.push((CallSite::Output, outputs));
    }
    assert(s.by_site@ =~= site_entry(all, CallSite::CaptureArray) + site_entry(all, CallSite::Input)
        + site_entry(all, CallSite::Output));
    s
}

proof fn lemma_sessions_push(events: Seq<WaitView>, e: WaitView)
    ensures
        sessions_of(events.push(e)) == sessions_of(events).insert(e.encoder),
{
    let f = |e: WaitView| e.encoder;
    let a = events.map_values(f);
    let b = events.push(e).map_values(f);
    assert(b =~= a.push(e.encoder));
    assert forall|x: u64| b.contains(x) <==> a.contains(x) || x == e.encoder by {
        if a.contains(x) {
            let i = choose|i: int| 0 <= i < a.len() && a[i] == x;
            assert(b[i] == x);
        }
        if x == e.encoder {
            assert(b[a.len() as int] == x);
        }
    }
    assert(b.to_set() =~= a.to_set().insert(e.encoder));
}

proof fn lemma_waits_partition(events: Seq<WaitView>)
    ensures
        events.filter(emitted()).len() == events.filter(decided(true, true)).len() + events.filter(
            decided(true, false),
        ).len() + events.filter(decided(false, true)).len() + events.filter(
            decided(false, false),
        ).len() + events.filter(undecidable()).len(),
        events.filter(emitted_in(true)).len() >= events.filter(decided(true, true)).len()
            + events.filter(decided(true, false)).len(),
        events.len() == events.filter(from_site(CallSite::Input)).len() + events.filter(
            from_site(CallSite::Output),
        ).len() + events.filter(from_site(CallSite::CaptureArray)).len(),
        events.filter(emitted()).len() <= events.len(),
    decreases events.len(),
{
    reveal(Seq::filter);
    if events.len() > 0 {
        lemma_waits_partition(events.drop_last());
        let e = events.last();
        match e.site {
            CallSite::Input => {},
            CallSite::Output => {},
            CallSite::CaptureArray => {},
        }
        match e.survives() {
            None => {},
            Some(b) => {
                if b {
                } else {
                }
            },
        }
    }
}

/// Every emitted wait falls under one outcome: it survives a key by ranges, or is a false
/// dependency, inside the arena or outside, or it cannot be decided. A call that emitted no wait
/// falls under none.
pub proof fn law_every_emitted_wait_has_one_outcome(s: Summary, events: Seq<WaitView>)
    requires
        s.sums_up(events),
    ensures
        s.emitted == s.emitted_arena_survives_range + s.emitted_arena_false
            + s.emitted_other_survives_range + s.emitted_other_false + s.emitted_undecidable,
        s.emitted_arena >= s.emitted_arena_survives_range + s.emitted_arena_false,
        s.emitted <= s.calls,
{
    lemma_waits_partition(events);
}

/// A wait is called a false dependency only where the bytes that are bound share none with any
/// range that was written.
pub proof fn law_false_dependencies_share_no_byte(e: WaitView, at: int)
    requires
        e.survives() == Some(false),
        e.reader.touches(e.reader.ptr, at),
    ensures
        forall|i: int|
            0 <= i < e.writer_ranges.len() ==> !(#[trigger] e.writer_ranges[i]).touches(
                e.reader.ptr,
                at,
            ),
{
    assert forall|i: int| 0 <= i < e.writer_ranges.len() implies !(
    #[trigger] e.writer_ranges[i]).touches(e.reader.ptr, at) by {
        assert(!e.writer_ranges[i].spec_overlaps(e.reader));
    }
}

/// What was recorded is returned or still held, in the order in which it came: the events of all
/// drains, one after another, and then those that the next one returns, are those that the probe
/// held at first and then those recorded since. None is lost, doubled or changed.
pub proof fn law_drains_return_what_was_recorded(s: ProbeView, steps: Seq<ProbeStep>)
    ensures
        s.returned_all(steps) + s.after_all(steps).events == s.events + s.recorded_all(steps),
    decreases steps.len(),
{
    if steps.len() == 0 {
        assert(s.returned_all(steps) + s.events =~= s.events + s.recorded_all(steps));
    } else {
        let less = steps.drop_last();
        let t = s.after_all(less);
        let step = steps.last();
        law_drains_return_what_was_recorded(s, less);
        let kept = s.returned_all(less) + t.events;
        assert(t.returned(step) + t.after(step).events =~= t.events + t.recorded(step));
        assert(s.returned_all(steps) + s.after_all(steps).events =~= s.returned_all(less) + (
        t.returned(step) + t.after(step).events));
        assert(s.returned_all(less) + (t.events + t.recorded(step)) =~= kept + t.recorded(step));
        assert(s.events + s.recorded_all(less) + t.recorded(step) =~= s.events + s.recorded_all(
            steps,
        ));
    }
}

/// A drain returns every event recorded since the drain before it, in the order of recording, and a
/// second one right after it returns nothing.
pub proof fn law_a_drain_returns_what_came_since(s: ProbeView, steps: Seq<ProbeStep>)
    requires
        s.enabled,
        forall|i: int| 0 <= i < steps.len() ==> !(#[trigger] steps[i] is TakeEvents),
    ensures
        ({
            let drained = s.after(ProbeStep::TakeEvents);
            let t = drained.after_all(steps);
            &&& t.returned(ProbeStep::TakeEvents) == drained.recorded_all(steps)
            &&& t.after(ProbeStep::TakeEvents).returned(ProbeStep::TakeEvents).len() == 0
        }),
{
    let drained = s.after(ProbeStep::TakeEvents);
    let t = drained.after_all(steps);
    law_drains_return_what_was_recorded(drained, steps);
    lemma_still_enabled(drained, steps);
    lemma_nothing_returned(drained, steps);
    assert(drained.returned_all(steps) + t.events =~= t.events);
    assert(drained.events + drained.recorded_all(steps) =~= drained.recorded_all(steps));
}

proof fn lemma_still_enabled(s: ProbeView, steps: Seq<ProbeStep>)
    ensures
        s.after_all(steps).enabled == s.enabled,
    decreases steps.len(),
{
    if steps.len() > 0 {
        lemma_still_enabled(s, steps.drop_last());
    }
}

proof fn lemma_nothing_returned(s: ProbeView, steps: Seq<ProbeStep>)
    requires
        forall|i: int| 0 <= i < steps.len() ==> !(#[trigger] steps[i] is TakeEvents),
    ensures
        s.returned_all(steps).len() == 0,
    decreases steps.len(),
{
    if steps.len() > 0 {
        let less = steps.drop_last();
        assert forall|i: int| 0 <= i < less.len() implies !(#[trigger] less[i] is TakeEvents) by {
            assert(less[i] == steps[i]);
        }
        assert(!(steps[steps.len() - 1] is TakeEvents));
        lemma_nothing_returned(s, less);
    }
}

/// Events are numbered one after another, and draining does not start again: of all the events that
/// a probe ever returned, and those that it would return next, each bears the number of those
/// before it. So the numbers within a drain are consecutive, and those of a later drain are larger.
pub proof fn law_drained_events_are_numbered_in_order(enabled: bool, steps: Seq<ProbeStep>)
    requires
        ProbeView::fresh(enabled).accepts_all(steps),
    ensures
        ({
            let s = ProbeView::fresh(enabled);
            let t = s.after_all(steps);
            let all = s.returned_all(steps) + t.events;
            &&& all.len() == t.next_seq
            &&& forall|i: int| 0 <= i < all.len() ==> (#[trigger] all[i]).seq == i
            &&& forall|i: int|
                0 <= i < t.events.len() ==> (#[trigger] t.events[i]).seq == t.next_seq
                    - t.events.len() + i
        }),
{
    let s = ProbeView::fresh(enabled);
    let t = s.after_all(steps);
    let all = s.returned_all(steps) + t.events;
    law_drains_return_what_was_recorded(s, steps);
    lemma_recorded_in_order(s, steps);
    assert(s.events + s.recorded_all(steps) =~= s.recorded_all(steps));
    assert forall|i: int| 0 <= i < t.events.len() implies (#[trigger] t.events[i]).seq
        == t.next_seq - t.events.len() + i by {
        assert(all[s.returned_all(steps).len() + i] == t.events[i]);
    }
}

proof fn lemma_recorded_in_order(s: ProbeView, steps: Seq<ProbeStep>)
    requires
        s.accepts_all(steps),
    ensures
        s.after_all(steps).next_seq == s.next_seq + s.recorded_all(steps).len(),
        forall|i: int|
            0 <= i < s.recorded_all(steps).len() ==> (#[trigger] s.recorded_all(steps)[i]).seq
                == s.next_seq + i,
    decreases steps.len(),
{
    if steps.len() > 0 {
        lemma_recorded_in_order(s, steps.drop_last());
    }
}

/// How many calls a list by site gives for this one.
pub open spec fn calls_listed(by_site: Seq<(CallSite, u64)>, site: CallSite) -> int
    decreases by_site.len(),
{
    if by_site.len() == 0 {
        0
    } else {
        calls_listed(by_site.drop_last(), site) + if by_site.last().0 == site {
            by_site.last().1 as int
        } else {
            0
        }
    }
}

proof fn lemma_site_entry(events: Seq<WaitView>, site: CallSite, other: CallSite)
    requires
        events.len() <= u64::MAX,
    ensures
        calls_listed(site_entry(events, site), other) == (if site == other {
            events.filter(from_site(site)).len() as int
        } else {
            0
        }),
{
    events.lemma_filter_len(from_site(site));
    reveal_with_fuel(calls_listed, 2);
}

proof fn lemma_listed_add(a: Seq<(CallSite, u64)>, b: Seq<(CallSite, u64)>, site: CallSite)
    ensures
        calls_listed(a + b, site) == calls_listed(a, site) + calls_listed(b, site),
    decreases b.len(),
{
    if b.len() == 0 {
        assert(a + b =~= a);
    } else {
        assert((a + b).drop_last() =~= a + b.drop_last());
        lemma_listed_add(a, b.drop_last(), site);
    }
}

proof fn lemma_listed(s: Summary, events: Seq<WaitView>, site: CallSite)
    requires
        s.sums_up(events),
    ensures
        calls_listed(s.by_site@, site) == events.filter(from_site(site)).len(),
{
    let c = site_entry(events, CallSite::CaptureArray);
    let i = site_entry(events, CallSite::Input);
    let o = site_entry(events, CallSite::Output);
    lemma_listed_add(c + i, o, site);
    lemma_listed_add(c, i, site);
    lemma_site_entry(events, CallSite::CaptureArray, site);
    lemma_site_entry(events, CallSite::Input, site);
    lemma_site_entry(events, CallSite::Output, site);
}

/// A run of no calls comes to nothing.
pub proof fn law_no_calls_come_to_nothing(s: Summary)
    requires
        s.sums_up(Seq::empty()),
    ensures
        s.calls == 0 && s.found == 0 && s.emitted == 0 && s.emitted_arena == 0,
        s.emitted_arena_survives_range == 0 && s.emitted_arena_false == 0,
        s.emitted_other_survives_range == 0 && s.emitted_other_false == 0,
        s.emitted_undecidable == 0 && s.sessions == 0,
        s.by_site@.len() == 0,
{
    reveal(Seq::filter);
    assert(sessions_of(Seq::empty()) =~= Set::empty());
}

/// What one more call adds. It counts as a call of its site, as one that found a fence where it
/// did, and where it emitted a wait as that too: as one on the arena exactly where its allocation
/// is the arena's, and under one outcome, by whether the bytes it binds meet bytes that the
/// writer is known to have written. It counts a session where no earlier call was of it.
pub proof fn law_one_more_call(s: Summary, t: Summary, events: Seq<WaitView>, e: WaitView)
    requires
        s.sums_up(events),
        t.sums_up(events.push(e)),
    ensures
        ({
            let known = e.writer_ranges.len() > 0;
            let met = exists|i: int|
                0 <= i < e.writer_ranges.len() && (#[trigger] e.writer_ranges[i]).ptr
                    == e.reader.ptr && (e.writer_ranges[i].len == 0 || e.reader.len == 0 || (
                e.writer_ranges[i].offset < e.reader.offset + e.reader.len && e.reader.offset
                    < e.writer_ranges[i].offset + e.writer_ranges[i].len));
            let seen = exists|i: int|
                0 <= i < events.len() && (#[trigger] events[i]).encoder == e.encoder;
            let one = |b: bool|
                if b {
                    1int
                } else {
                    0
                };
            &&& t.calls == s.calls + 1
            &&& t.found == s.found + one(e.found_fence)
            &&& t.emitted == s.emitted + one(e.emitted)
            &&& t.emitted_arena == s.emitted_arena + one(e.emitted && e.arena)
            &&& t.emitted_arena_survives_range == s.emitted_arena_survives_range + one(
                e.emitted && e.arena && known && met,
            )
            &&& t.emitted_arena_false == s.emitted_arena_false + one(
                e.emitted && e.arena && known && !met,
            )
            &&& t.emitted_other_survives_range == s.emitted_other_survives_range + one(
                e.emitted && !e.arena && known && met,
            )
            &&& t.emitted_other_false == s.emitted_other_false + one(
                e.emitted && !e.arena && known && !met,
            )
            &&& t.emitted_undecidable == s.emitted_undecidable + one(e.emitted && !known)
            &&& t.sessions == s.sessions + one(!seen)
            &&& forall|site: CallSite| #[trigger]
                calls_listed(t.by_site@, site) == calls_listed(s.by_site@, site) + one(
                    e.site == site,
                )
        }),
{
    events.lemma_filter_push(e, found());
    events.lemma_filter_push(e, emitted());
    events.lemma_filter_push(e, emitted_in(true));
    events.lemma_filter_push(e, decided(true, true));
    events.lemma_filter_push(e, decided(true, false));
    events.lemma_filter_push(e, decided(false, true));
    events.lemma_filter_push(e, decided(false, false));
    events.lemma_filter_push(e, undecidable());
    let met = exists|i: int|
        0 <= i < e.writer_ranges.len() && (#[trigger] e.writer_ranges[i]).ptr == e.reader.ptr && (
        e.writer_ranges[i].len == 0 || e.reader.len == 0 || (e.writer_ranges[i].offset
            < e.reader.offset + e.reader.len && e.reader.offset < e.writer_ranges[i].offset
            + e.writer_ranges[i].len));
    if e.writer_ranges.len() > 0 {
        if met {
            let i = choose|i: int|
                0 <= i < e.writer_ranges.len() && (#[trigger] e.writer_ranges[i]).ptr
                    == e.reader.ptr && (e.writer_ranges[i].len == 0 || e.reader.len == 0 || (
                e.writer_ranges[i].offset < e.reader.offset + e.reader.len && e.reader.offset
                    < e.writer_ranges[i].offset + e.writer_ranges[i].len));
            assert(e.writer_ranges[i].spec_overlaps(e.reader));
        }
        assert(e.survives() == Some(met));
    }
    lemma_sessions_push(events, e);
    let f = |e: WaitView| e.encoder;
    let names = events.map_values(f);
    assert(sessions_of(events).contains(e.encoder) <==> exists|i: int|
        0 <= i < events.len() && (#[trigger] events[i]).encoder == e.encoder) by {
        if names.contains(e.encoder) {
            let i = choose|i: int| 0 <= i < names.len() && names[i] == e.encoder;
            assert(events[i].encoder == e.encoder);
        }
        if exists|i: int| 0 <= i < events.len() && (#[trigger] events[i]).encoder == e.encoder {
            let i = choose|i: int|
                0 <= i < events.len() && (#[trigger] events[i]).encoder == e.encoder;
            assert(names[i] == e.encoder);
        }
    }
    lemma_sessions_finite(events);
    assert forall|site: CallSite| #[trigger]
        calls_listed(t.by_site@, site) == calls_listed(s.by_site@, site) + (if e.site == site {
            1int
        } else {
            0
        }) by {
        lemma_listed(s, events, site);
        lemma_listed(t, events.push(e), site);
        events.lemma_filter_push(e, from_site(site));
    }
}

proof fn lemma_sessions_finite(events: Seq<WaitView>)
    ensures
        sessions_of(events).finite(),
{
    vstd::seq_lib::seq_to_set_is_finite(events.map_values(|e: WaitView| e.encoder));
}

/// Each site is listed once at most, never without a call, and in the order of the names.
pub proof fn law_sites_are_listed_by_name(s: Summary, events: Seq<WaitView>)
    requires
        s.sums_up(events),
    ensures
        forall|i: int| 0 <= i < s.by_site@.len() ==> (#[trigger] s.by_site@[i]).1 > 0,
        forall|i: int, j: int|
            0 <= i < j < s.by_site@.len() ==> ((#[trigger] s.by_site@[i]).0 is CaptureArray
                && !((#[trigger] s.by_site@[j]).0 is CaptureArray)) || (s.by_site@[i].0 is Input
                && s.by_site@[j].0 is Output),
{
    events.lemma_filter_len(from_site(CallSite::CaptureArray));
    events.lemma_filter_len(from_site(CallSite::Input));
    events.lemma_filter_len(from_site(CallSite::Output));
}

/// The waits on the arena and those on other allocations are told apart: of the emitted waits, as
/// many are on the arena as bear its mark, and a run that never touches the arena has none.
pub proof fn law_waits_on_the_arena_bear_its_mark(s: Summary, events: Seq<WaitView>)
    requires
        s.sums_up(events),
    ensures
        (forall|i: int| 0 <= i < events.len() ==> !(#[trigger] events[i]).arena) ==> s.emitted_arena
            == 0 && s.emitted_arena_survives_range == 0 && s.emitted_arena_false == 0,
        (forall|i: int| 0 <= i < events.len() ==> (#[trigger] events[i]).arena) ==> s.emitted_arena
            == s.emitted && s.emitted_other_survives_range == 0 && s.emitted_other_false == 0,
        s.emitted_arena + s.emitted_other_survives_range + s.emitted_other_false <= s.emitted,
        s.emitted <= s.emitted_arena + s.emitted_other_survives_range + s.emitted_other_false
            + s.emitted_undecidable,
    decreases events.len(),
{
    lemma_marks(events);
}

proof fn lemma_marks(events: Seq<WaitView>)
    ensures
        ({
            let n = |p: spec_fn(WaitView) -> bool| events.filter(p).len();
            &&& (forall|i: int| 0 <= i < events.len() ==> !(#[trigger] events[i]).arena) ==> n(
                emitted_in(true),
            ) == 0 && n(decided(true, true)) == 0 && n(decided(true, false)) == 0
            &&& (forall|i: int| 0 <= i < events.len() ==> (#[trigger] events[i]).arena) ==> n(
                emitted_in(true),
            ) == n(emitted()) && n(decided(false, true)) == 0 && n(decided(false, false)) == 0
            &&& n(emitted_in(true)) + n(decided(false, true)) + n(decided(false, false)) <= n(
                emitted(),
            )
            &&& n(emitted()) <= n(emitted_in(true)) + n(decided(false, true)) + n(
                decided(false, false),
            ) + n(undecidable())
        }),
    decreases events.len(),
{
    reveal(Seq::filter);
    if events.len() > 0 {
        let rest = events.drop_last();
        lemma_marks(rest);
        let e = events.last();
        assert(events[events.len() - 1] == e);
        if forall|i: int| 0 <= i < events.len() ==> !(#[trigger] events[i]).arena {
            assert forall|i: int| 0 <= i < rest.len() implies !(#[trigger] rest[i]).arena by {
                assert(rest[i] == events[i]);
            }
        }
        if forall|i: int| 0 <= i < events.len() ==> (#[trigger] events[i]).arena {
            assert forall|i: int| 0 <= i < rest.len() implies (#[trigger] rest[i]).arena by {
                assert(rest[i] == events[i]);
            }
        }
        match e.survives() {
            None => {},
            Some(b) => {
                if b {
                } else {
                }
            },
        }
    }
}

/// While calls are recorded, a wait becomes one event that says what the call was, under the next
/// number, in the session, the region and beside the arena that are current. While they are not, it
/// is only counted as skipped. A probe that was not asked for takes no notice.
pub proof fn law_a_wait_becomes_one_event(v: ProbeView, wait: WaitArgs)
    requires
        v.next_seq < u64::MAX,
        v.skipped < u64::MAX,
    ensures
        ({
            let w = v.after(ProbeStep::Wait { wait });
            if v.enabled && v.recording {
                let e = w.events.last();
                &&& w.events.len() == v.events.len() + 1
                &&& w.events.drop_last() == v.events
                &&& e.seq == v.next_seq && e.encoder == v.encoder && e.region == v.region
                &&& e.site == wait.site && e.reader == wait.reader && e.fence == wait.fence
                &&& e.found_fence == wait.found_fence && e.emitted == wait.emitted
                &&& e.writer_ranges == wait.writer_ranges
                &&& e.arena <==> v.arena_ptr == Some(wait.reader.ptr)
                &&& w.next_seq == v.next_seq + 1
                &&& w.skipped == v.skipped
            } else {
                &&& w.events == v.events
                &&& w.next_seq == v.next_seq
                &&& w.skipped == v.skipped + (if v.enabled {
                    1int
                } else {
                    0
                })
            }
        }),
        v.after(ProbeStep::Wait { wait }).encoder == v.encoder,
        v.after(ProbeStep::Wait { wait }).writers == v.writers,
        v.after(ProbeStep::Wait { wait }).arena_ptr == v.arena_ptr,
        v.after(ProbeStep::Wait { wait }).region == v.region,
        v.after(ProbeStep::Wait { wait }).recording == v.recording,
{
    let w = v.after(ProbeStep::Wait { wait });
    if v.enabled && v.recording {
        assert(w.events.drop_last() =~= v.events);
    }
}

/// What is set is what later events are marked with, and sets nothing else.
pub proof fn law_marks_are_what_was_set(
    v: ProbeView,
    on: bool,
    region: Option<Seq<char>>,
    ptr: Option<usize>,
)
    requires
        v.enabled,
        v.encoder < u64::MAX,
    ensures
        v.after(ProbeStep::SetRecording { on }) == (ProbeView { recording: on, ..v }),
        v.after(ProbeStep::SetRegion { region }) == (ProbeView { region, ..v }),
        v.after(ProbeStep::SetArena { ptr }) == (ProbeView { arena_ptr: ptr, ..v }),
        v.recording ==> v.after(ProbeStep::EncoderBegin).encoder == v.encoder + 1,
        !v.recording ==> v.after(ProbeStep::EncoderBegin) == v,
        v.after(ProbeStep::EncoderBegin).events == v.events,
{
}

/// Every call changes what it is about and nothing else: a setting its own value, a session that
/// begins the count of sessions, a wait the events or the count of those that were passed over, and a
/// drain the events.
pub proof fn law_each_call_changes_its_own(v: ProbeView, step: ProbeStep)
    ensures
        ({
            let w = v.after(step);
            &&& !v.enabled ==> w == v
            &&& w.enabled == v.enabled
            &&& !(step is SetRecording) ==> w.recording == v.recording
            &&& !(step is SetRegion) ==> w.region == v.region
            &&& !(step is SetArena) ==> w.arena_ptr == v.arena_ptr
            &&& !(step is Writers) ==> w.writers == v.writers
            &&& !(step is EncoderBegin) ==> w.encoder == v.encoder
            &&& !(step is Wait) ==> w.next_seq == v.next_seq && w.skipped == v.skipped
            &&& !(step is Wait) && !(step is TakeEvents) ==> w.events == v.events
            &&& step is EncoderBegin && v.enabled && v.recording && v.encoder < u64::MAX
                ==> w.encoder == v.encoder + 1
            &&& step is EncoderBegin && !v.recording ==> w.encoder == v.encoder
            &&& step is Wait && v.enabled && v.recording && v.next_seq < u64::MAX ==> w.next_seq
                == v.next_seq + 1 && w.events.len() == v.events.len() + 1 && w.skipped == v.skipped
            &&& step is Wait && v.enabled && !v.recording && v.skipped < u64::MAX ==> w.skipped
                == v.skipped + 1 && w.events == v.events && w.next_seq == v.next_seq
            &&& step is TakeEvents && v.enabled ==> w.events.len() == 0
        }),
{
}

/// What an encoder wrote to an allocation is what it was listed with for that allocation, in order:
/// one more entry adds its range where it is of that allocation, and nothing where it is not.
pub proof fn law_what_was_written_to_an_allocation(
    written: Seq<(usize, BoundRange)>,
    more: (usize, BoundRange),
    ptr: usize,
)
    ensures
        more.0 == ptr ==> to_allocation(written.push(more), ptr) == to_allocation(
            written,
            ptr,
        ).push(more.1),
        more.0 != ptr ==> to_allocation(written.push(more), ptr) == to_allocation(written, ptr),
        to_allocation(Seq::empty(), ptr).len() == 0,
{
    reveal(Seq::filter);
    assert(written.push(more).drop_last() =~= written);
    let before = written.filter(bound_to(ptr));
    if more.0 == ptr {
        assert(written.push(more).filter(bound_to(ptr)) =~= before.push(more));
        assert(before.push(more).map_values(range_alone()) =~= before.map_values(
            range_alone(),
        ).push(more.1));
    }
}

/// What the probe knows a fence to have written to an allocation is what that fence was listed with
/// for it, and nothing that another fence or another allocation was listed with.
pub proof fn law_a_fence_is_known_by_what_it_was_listed_with(
    v: ProbeView,
    fence: usize,
    other: usize,
    written: Seq<(usize, BoundRange)>,
    more: (usize, BoundRange),
    ptr: usize,
)
    requires
        other != fence,
    ensures
        ({
            let a = ProbeView { writers: v.writers.insert(fence, written), ..v };
            let b = ProbeView { writers: v.writers.insert(fence, written.push(more)), ..v };
            &&& more.0 == ptr ==> b.written(fence, ptr) == a.written(fence, ptr).push(more.1)
            &&& more.0 != ptr ==> b.written(fence, ptr) == a.written(fence, ptr)
            &&& b.written(other, ptr) == v.written(other, ptr)
            &&& !v.writers.contains_key(other) ==> v.written(other, ptr).len() == 0
        }),
{
    law_what_was_written_to_an_allocation(written, more, ptr);
}

} // verus!
