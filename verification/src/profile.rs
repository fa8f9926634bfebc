//! How long the device was busy, and how much was dispatched.
//!
//! The device reports an interval per command buffer. Command buffers can be in flight together,
//! so the sum of their intervals can exceed the time that was spent; the union of the intervals is
//! the time in which at least one of them was executing. Times are whole nanoseconds.

use vstd::prelude::*;

use crate::tally;
use crate::tally::{NameCount, Tally};

verus! {

/// The execution interval of one command buffer, in nanoseconds.
#[derive(Clone, Copy, Debug, PartialEq, Eq, Structural)]
pub struct GpuInterval {
    pub start: u64,
    pub end: u64,
}

impl GpuInterval {
    /// The nanosecond that begins at `t` lies within the interval.
    pub open spec fn covers(self, t: int) -> bool {
        self.start <= t < self.end
    }
}

/// The nanoseconds in which at least one of the intervals runs.
pub open spec fn busy(intervals: Seq<GpuInterval>) -> Set<int> {
    Set::new(|t: int| is_busy(intervals, t))
}

pub open spec fn is_busy(intervals: Seq<GpuInterval>, t: int) -> bool {
    exists|i: int| 0 <= i < intervals.len() && (#[trigger] intervals[i]).covers(t)
}

/// No interval ends before it starts.
pub open spec fn forward(intervals: Seq<GpuInterval>) -> bool {
    forall|i: int|
        0 <= i < intervals.len() ==> (#[trigger] intervals[i]).start <= intervals[i].end
}

/// Interval `i` starts first and interval `j` ends last.
pub open spec fn spans(intervals: Seq<GpuInterval>, i: int, j: int) -> bool {
    &&& 0 <= i < intervals.len()
    &&& 0 <= j < intervals.len()
    &&& forall|k: int|
        0 <= k < intervals.len() ==> intervals[i].start <= (#[trigger] intervals[k]).start
            && intervals[k].end <= intervals[j].end
}

/// `n` is the time from the first start to the last end; 0 where there are no intervals.
pub open spec fn is_span(intervals: Seq<GpuInterval>, n: int) -> bool {
    if intervals.len() == 0 {
        n == 0
    } else {
        exists|i: int, j: int| #[trigger]
            spans(intervals, i, j) && n == intervals[j].end - intervals[i].start
    }
}

/// The lengths of the first `n` intervals together.
pub open spec fn total_length(intervals: Seq<GpuInterval>, n: int) -> int
    decreases n,
{
    if n <= 0 {
        0
    } else {
        total_length(intervals, n - 1) + (intervals[n - 1].end - intervals[n - 1].start)
    }
}

spec fn by_start(v: Seq<GpuInterval>) -> bool {
    forall|i: int, j: int|
        0 <= i <= j < v.len() ==> (#[trigger] v[i]).start <= (#[trigger] v[j]).start
}

spec fn same_members(a: Seq<GpuInterval>, b: Seq<GpuInterval>) -> bool {
    forall|x: GpuInterval| a.contains(x) <==> #[trigger] b.contains(x)
}

proof fn lemma_contains_push(s: Seq<GpuInterval>, a: GpuInterval, x: GpuInterval)
    ensures
        s.push(a).contains(x) <==> s.contains(x) || x == a,
{
    if s.contains(x) {
        let i = choose|i: int| 0 <= i < s.len() && s[i] == x;
        assert(s.push(a)[i] == x);
    }
    if x == a {
        assert(s.push(a)[s.len() as int] == x);
    }
}

/// The two ordered runs in one.
fn merge(a: &Vec<GpuInterval>, b: &Vec<GpuInterval>) -> (v: Vec<GpuInterval>)
    requires
        by_start(a@),
        by_start(b@),
    ensures
        by_start(v@),
        forall|x: GpuInterval| #[trigger] v@.contains(x) <==> a@.contains(x) || b@.contains(x),
{
    let mut v: Vec<GpuInterval> = Vec::new();
    let mut i: usize = 0;
    let mut j: usize = 0;
    while i < a.len() || j < b.len()
        invariant
            by_start(a@),
            by_start(b@),
            by_start(v@),
            i <= a@.len(),
            j <= b@.len(),
            forall|k: int| 0 <= k < v@.len() && i < a@.len() ==> (#[trigger] v@[k]).start
                <= a@[i as int].start,
            forall|k: int| 0 <= k < v@.len() && j < b@.len() ==> (#[trigger] v@[k]).start
                <= b@[j as int].start,
            forall|x: GpuInterval| #[trigger]
                v@.contains(x) <==> a@.take(i as int).contains(x) || b@.take(j as int).contains(x),
        decreases a@.len() - i + b@.len() - j,
    {
        let ghost was = v@;
        if j >= b.len() || (i < a.len() && a[i].start <= b[j].start) {
            v.push(a[i]);
            i += 1;
            proof {
                assert(a@.take(i as int) =~= a@.take(i - 1).push(a@[i - 1]));
                assert forall|x: GpuInterval| #[trigger]
                    v@.contains(x) <==> a@.take(i as int).contains(x) || b@.take(
                        j as int,
                    ).contains(x) by {
                    lemma_contains_push(was, a@[i - 1], x);
                    lemma_contains_push(a@.take(i - 1), a@[i - 1], x);
                }
            }
        } else {
            v.push(b[j]);
            j += 1;
            proof {
                assert(b@.take(j as int) =~= b@.take(j - 1).push(b@[j - 1]));
                assert forall|x: GpuInterval| #[trigger]
                    v@.contains(x) <==> a@.take(i as int).contains(x) || b@.take(
                        j as int,
                    ).contains(x) by {
                    lemma_contains_push(was, b@[j - 1], x);
                    lemma_contains_push(b@.take(j - 1), b@[j - 1], x);
                }
            }
        }
    }
    assert(a@.take(i as int) =~= a@);
    assert(b@.take(j as int) =~= b@);
    v
}

/// The intervals from `lo` to `hi`, by their starts.
fn sort_range(s: &[GpuInterval], lo: usize, hi: usize) -> (v: Vec<GpuInterval>)
    requires
        lo <= hi <= s@.len(),
    ensures
        by_start(v@),
        same_members(v@, s@.subrange(lo as int, hi as int)),
    decreases hi - lo,
{
    if hi - lo <= 1 {
        let mut v: Vec<GpuInterval> = Vec::new();
        if lo < hi {
            v.push(s[lo]);
        }
        assert(v@ =~= s@.subrange(lo as int, hi as int));
        return v;
    }
    let mid: usize = lo + (hi - lo) / 2;
    let a = sort_range(s, lo, mid);
    let b = sort_range(s, mid, hi);
    let v = merge(&a, &b);
    proof {
        let whole = s@.subrange(lo as int, hi as int);
        let left = s@.subrange(lo as int, mid as int);
        let right = s@.subrange(mid as int, hi as int);
        assert(whole =~= left + right);
        assert forall|x: GpuInterval| v@.contains(x) <==> #[trigger] whole.contains(x) by {
            assert(left.contains(x) <==> a@.contains(x));
            assert(right.contains(x) <==> b@.contains(x));
            if left.contains(x) {
                let i = choose|i: int| 0 <= i < left.len() && left[i] == x;
                assert(whole[i] == x);
            }
            if right.contains(x) {
                let i = choose|i: int| 0 <= i < right.len() && right[i] == x;
                assert(whole[left.len() + i] == x);
            }
            if whole.contains(x) {
                let i = choose|i: int| 0 <= i < whole.len() && whole[i] == x;
                if i < left.len() {
                    assert(left[i] == x);
                } else {
                    assert(right[i - left.len()] == x);
                }
            }
        }
    }
    v
}

proof fn lemma_busy_members(a: Seq<GpuInterval>, b: Seq<GpuInterval>)
    requires
        same_members(a, b),
    ensures
        busy(a) == busy(b),
        forward(a) ==> forward(b),
        a.len() > 0 ==> b.len() > 0,
{
    assert forall|t: int| busy(a).contains(t) == busy(b).contains(t) by {
        if is_busy(a, t) {
            let i = choose|i: int| 0 <= i < a.len() && (#[trigger] a[i]).covers(t);
            assert(b.contains(a[i]));
            let j = choose|j: int| 0 <= j < b.len() && b[j] == a[i];
            assert(b[j].covers(t));
        }
        if is_busy(b, t) {
            let i = choose|i: int| 0 <= i < b.len() && (#[trigger] b[i]).covers(t);
            assert(b.contains(b[i]));
            assert(a.contains(b[i]));
            let j = choose|j: int| 0 <= j < a.len() && a[j] == b[i];
            assert(a[j].covers(t));
        }
    }
    assert(busy(a) =~= busy(b));
    if forward(a) {
        assert forall|i: int| 0 <= i < b.len() implies (#[trigger] b[i]).start <= b[i].end by {
            assert(b.contains(b[i]));
            let j = choose|j: int| 0 <= j < a.len() && a[j] == b[i];
            assert(a[j].start <= a[j].end);
        }
    }
    if a.len() > 0 {
        assert(b.contains(a[0]));
    }
}

/// The time in which at least one interval runs, and the time from the first start to the last
/// end.
pub fn union_and_span(intervals: &[GpuInterval]) -> (r: (u64, u64))
    requires
        forward(intervals@),
    ensures
        busy(intervals@).finite(),
        r.0 == busy(intervals@).len(),
        is_span(intervals@, r.1 as int),
{
    let n: usize = intervals.len();
    if n == 0 {
        assert(busy(intervals@) =~= Set::empty());
        return (0, 0);
    }
    let v = sort_range(intervals, 0, n);
    proof {
        assert(intervals@.subrange(0, n as int) =~= intervals@);
        assert(same_members(intervals@, v@)) by {
            assert forall|x: GpuInterval| intervals@.contains(x) <==> #[trigger] v@.contains(x) by {
                assert(intervals@.subrange(0, n as int).contains(x) <==> v@.contains(x));
            }
        }
        lemma_busy_members(intervals@, v@);
    }
    let first = v[0];
    let mut cur = first;
    let mut union: u64 = 0;
    let mut last_end: u64 = first.end;
    let ghost mut done: Set<int> = Set::empty();
    let ghost mut latest: int = 0;
    let m: usize = v.len();
    assert(busy(v@.take(1)) =~= vstd::set_lib::set_int_range(first.start as int, first.end as int))
        by {
        assert(v@.take(1)[0] == first);
    }
    assert(done + vstd::set_lib::set_int_range(first.start as int, first.end as int)
        =~= vstd::set_lib::set_int_range(first.start as int, first.end as int));
    for k in 1..m
        invariant
            m == v@.len(),
            by_start(v@),
            forward(v@),
            first == v@[0],
            done.finite(),
            done.len() == union,
            union <= cur.start,
            cur.start <= cur.end,
            forall|t: int| #[trigger] done.contains(t) ==> 0 <= t < cur.start,
            k >= 1 && cur.start <= v@[k - 1].start,
            busy(v@.take(k as int)) == done + vstd::set_lib::set_int_range(
                cur.start as int,
                cur.end as int,
            ),
            0 <= latest < k,
            last_end == v@[latest].end,
            forall|i: int| 0 <= i < k ==> (#[trigger] v@[i]).end <= last_end,
    {
        let iv = v[k];
        let ghost was = cur;
        let ghost before = done;
        if iv.start <= cur.end {
            if iv.end > cur.end {
                cur.end = iv.end;
            }
        } else {
            proof {
                let range = vstd::set_lib::set_int_range(cur.start as int, cur.end as int);
                vstd::set_lib::lemma_int_range(cur.start as int, cur.end as int);
                vstd::set_lib::lemma_set_disjoint_lens(done, range);
                done = done + range;
            }
            union += cur.end - cur.start;
            cur = iv;
        }
        if iv.end > last_end {
            last_end = iv.end;
            proof {
                latest = k as int;
            }
        }
        proof {
            lemma_one_more(v@, k as int);
            let old_range = vstd::set_lib::set_int_range(was.start as int, was.end as int);
            let new_range = vstd::set_lib::set_int_range(iv.start as int, iv.end as int);
            let range = vstd::set_lib::set_int_range(cur.start as int, cur.end as int);
            assert(before + old_range + new_range =~= done + range);
        }
    }
    proof {
        assert(v@.take(m as int) =~= v@);
        let range = vstd::set_lib::set_int_range(cur.start as int, cur.end as int);
        vstd::set_lib::lemma_int_range(cur.start as int, cur.end as int);
        vstd::set_lib::lemma_set_disjoint_lens(done, range);
        lemma_span(intervals@, v@, latest);
    }
    assert(first.start <= first.end && first.end <= last_end);
    (union + (cur.end - cur.start), last_end - first.start)
}

proof fn lemma_one_more(v: Seq<GpuInterval>, k: int)
    requires
        0 <= k < v.len(),
    ensures
        busy(v.take(k + 1)) == busy(v.take(k)) + vstd::set_lib::set_int_range(
            v[k].start as int,
            v[k].end as int,
        ),
{
    let a = v.take(k);
    let b = v.take(k + 1);
    assert(b =~= a.push(v[k]));
    assert forall|t: int| is_busy(b, t) <==> is_busy(a, t) || v[k].covers(t) by {
        if is_busy(a, t) {
            let i = choose|i: int| 0 <= i < a.len() && (#[trigger] a[i]).covers(t);
            assert(b[i].covers(t));
        }
        if v[k].covers(t) {
            assert(b[k].covers(t));
        }
        if is_busy(b, t) {
            let i = choose|i: int| 0 <= i < b.len() && (#[trigger] b[i]).covers(t);
            if i < k {
                assert(a[i].covers(t));
            }
        }
    }
    assert(busy(b) =~= busy(a) + vstd::set_lib::set_int_range(v[k].start as int, v[k].end as int));
}

proof fn lemma_span(intervals: Seq<GpuInterval>, v: Seq<GpuInterval>, latest: int)
    requires
        same_members(intervals, v),
        by_start(v),
        0 <= latest < v.len(),
        forall|i: int| 0 <= i < v.len() ==> (#[trigger] v[i]).end <= v[latest].end,
    ensures
        is_span(intervals, v[latest].end - v[0].start),
{
    assert(v.contains(v[0]) && v.contains(v[latest]));
    let i = choose|i: int| 0 <= i < intervals.len() && intervals[i] == v[0];
    let j = choose|j: int| 0 <= j < intervals.len() && intervals[j] == v[latest];
    assert forall|k: int| 0 <= k < intervals.len() implies intervals[i].start <= (
    #[trigger] intervals[k]).start && intervals[k].end <= intervals[j].end by {
        assert(intervals.contains(intervals[k]));
        assert(v.contains(intervals[k]));
        let l = choose|l: int| 0 <= l < v.len() && v[l] == intervals[k];
        assert(v[0].start <= v[l].start);
    }
    assert(spans(intervals, i, j));
}

/// What was recorded since the last reset.
#[derive(Debug)]
pub struct Profile {
    enabled: bool,
    dispatches: u64,
    command_buffers: u64,
    encoders: u64,
    intervals: Vec<GpuInterval>,
    labels: Tally,
}

/// The recording as mathematical values.
#[verifier::ext_equal]
pub struct ProfileView {
    pub enabled: bool,
    pub dispatches: u64,
    pub command_buffers: u64,
    pub encoders: u64,
    /// The intervals of the command buffers that did some work.
    pub intervals: Seq<GpuInterval>,
    /// Dispatches by label.
    pub labels: Map<Seq<char>, nat>,
}

impl View for Profile {
    type V = ProfileView;

    closed spec fn view(&self) -> ProfileView {
        ProfileView {
            enabled: self.enabled,
            dispatches: self.dispatches,
            command_buffers: self.command_buffers,
            encoders: self.encoders,
            intervals: self.intervals@,
            labels: self.labels@,
        }
    }
}

/// The word asks for profiling.
pub open spec fn asks_for_profiling(word: Seq<char>) -> bool {
    word == "1"@ || word == "true"@ || word == "yes"@
}

impl Profile {
    /// Every recorded interval ends after it starts.
    pub closed spec fn well_formed(self) -> bool {
        forward(self.intervals@)
    }

    /// A recording of nothing. `env` is what the environment asks for.
    pub fn new(env: Option<&str>) -> (p: Self)
        ensures
            p.well_formed(),
            p@ == (ProfileView {
                enabled: env is Some && asks_for_profiling(env->0@),
                dispatches: 0,
                command_buffers: 0,
                encoders: 0,
                intervals: Seq::empty(),
                labels: Map::empty(),
            }),
    {
        let enabled = match env {
            Some(word) => tally::same(word, "1") || tally::same(word, "true") || tally::same(
                word,
                "yes",
            ),
            None => false,
        };
        Profile {
            enabled,
            dispatches: 0,
            command_buffers: 0,
            encoders: 0,
            intervals: Vec::new(),
            labels: Tally::new(),
        }
    }
}

/// Whether profiling was asked for.
pub fn enabled(p: &Profile) -> (b: bool)
    ensures
        b == p@.enabled,
{
    p.enabled
}

/// How many dispatches were attributed to `label`.
pub fn dispatches_of(p: &Profile, label: &str) -> (n: usize)
    ensures
        n == tally::occurrences(p@.labels, label@),
{
    p.labels.get(label)
}

/// Record that a dispatch was encoded, attributed to `label`.
pub fn record_dispatch(p: &mut Profile, label: &str)
    requires
        old(p).well_formed(),
        old(p)@.enabled ==> tally::occurrences(old(p)@.labels, label@) < usize::MAX,
    ensures
        final(p).well_formed(),
        final(p)@ == (if old(p)@.enabled {
            ProfileView {
                dispatches: old(p)@.dispatches.wrapping_add(1),
                labels: tally::counted(old(p)@.labels, label@),
                ..old(p)@
            }
        } else {
            old(p)@
        }),
{
    if !p.enabled {
        return;
    }
    p.dispatches = p.dispatches.wrapping_add(1);
    p.labels.count(label);
}

/// Record that a compute encoder was opened.
pub fn record_encoder(p: &mut Profile)
    requires
        old(p).well_formed(),
    ensures
        final(p).well_formed(),
        final(p)@ == (if old(p)@.enabled {
            ProfileView { encoders: old(p)@.encoders.wrapping_add(1), ..old(p)@ }
        } else {
            old(p)@
        }),
{
    if !p.enabled {
        return;
    }
    p.encoders = p.encoders.wrapping_add(1);
}

/// Record the interval of a completed command buffer. One that did no work reports zeros, and
/// counts without an interval.
pub fn record_command_buffer(p: &mut Profile, start: u64, end: u64)
    requires
        old(p).well_formed(),
    ensures
        final(p).well_formed(),
        final(p)@ == (if !old(p)@.enabled {
            old(p)@
        } else {
            ProfileView {
                command_buffers: old(p)@.command_buffers.wrapping_add(1),
                intervals: if start == 0 || end <= start {
                    old(p)@.intervals
                } else {
                    old(p)@.intervals.push(GpuInterval { start, end })
                },
                ..old(p)@
            }
        }),
{
    if !p.enabled {
        return;
    }
    p.command_buffers = p.command_buffers.wrapping_add(1);
    if start == 0 || end <= start {
        return;
    }
    p.intervals.push(GpuInterval { start, end });
}

/// The totals of a window.
#[derive(Debug)]
pub struct Snapshot {
    pub dispatches: u64,
    pub encoders: u64,
    pub command_buffers: u64,
    /// Command buffers with a usable interval.
    pub timed_command_buffers: u64,
    /// The intervals' lengths together. Counts a nanosecond twice where two overlap.
    pub gpu_busy_sum_ns: u128,
    /// Time in which at least one command buffer was executing. The figure to trust.
    pub gpu_busy_union_ns: u64,
    /// From the first start to the last end.
    pub gpu_span_ns: u64,
    /// Dispatches by label, the most frequent first, and by name where two are as frequent.
    pub by_label: Vec<NameCount>,
}

/// `a` is listed before `b`: it is more frequent, or as frequent and first by name.
pub open spec fn listed_before(a: NameCount, b: NameCount) -> bool {
    a.count > b.count || (a.count == b.count && tally::precedes(a.name@, b.name@))
}

/// The entries are those counts, each label once, in the order of the listing.
pub open spec fn lists(entries: Seq<NameCount>, labels: Map<Seq<char>, nat>) -> bool {
    &&& forall|i: int, j: int|
        0 <= i < j < entries.len() ==> listed_before(
            #[trigger] entries[i],
            #[trigger] entries[j],
        )
    &&& forall|i: int|
        0 <= i < entries.len() ==> labels.contains_key((#[trigger] entries[i]).name@)
            && labels[entries[i].name@] == entries[i].count
    &&& forall|name: Seq<char>| #[trigger]
        labels.contains_key(name) ==> exists|i: int| #[trigger] tally::is_entry(entries, name, i)
}

spec fn same_entry(a: NameCount, b: NameCount) -> bool {
    a.name@ == b.name@ && a.count == b.count
}

/// Entry `e` of the first `n` is `x`.
spec fn stands_for(entries: Seq<NameCount>, n: int, e: int, x: NameCount) -> bool {
    0 <= e < n && same_entry(x, entries[e])
}

/// `x` is one of the first `n` entries.
spec fn is_among(entries: Seq<NameCount>, n: int, x: NameCount) -> bool {
    exists|e: int| #[trigger] stands_for(entries, n, e, x)
}

/// `v` lists the first `k` entries.
spec fn listing(v: Seq<NameCount>, entries: Seq<NameCount>, k: int) -> bool {
    &&& forall|i: int, j: int|
        0 <= i < j < v.len() ==> listed_before(#[trigger] v[i], #[trigger] v[j])
    &&& forall|i: int| 0 <= i < v.len() ==> is_among(entries, k, #[trigger] v[i])
    &&& forall|e: int| 0 <= e < k ==> is_among(v, v.len() as int, #[trigger] entries[e])
}

proof fn lemma_listing_insert(
    was: Seq<NameCount>,
    v: Seq<NameCount>,
    entries: Seq<NameCount>,
    k: int,
    at: int,
)
    requires
        tally::ascending(entries),
        0 <= k < entries.len(),
        listing(was, entries, k),
        0 <= at <= was.len(),
        v == was.insert(at, v[at]),
        same_entry(v[at], entries[k]),
        forall|i: int| 0 <= i < at ==> (#[trigger] was[i]).count >= v[at].count,
        at < was.len() ==> was[at].count < v[at].count,
    ensures
        listing(v, entries, k + 1),
{
    let new = v[at];
    assert forall|i: int| 0 <= i < was.len() implies tally::precedes(
        (#[trigger] was[i]).name@,
        new.name@,
    ) by {
        let e = choose|e: int| #[trigger] stands_for(entries, k, e, was[i]);
        assert(tally::precedes(entries[e].name@, entries[k].name@));
    }
    assert forall|i: int, j: int| 0 <= i < j < v.len() implies listed_before(
        #[trigger] v[i],
        #[trigger] v[j],
    ) by {
        if i < at && j > at {
            assert(listed_before(was[i], was[j - 1]));
        } else if i < at && j < at {
            assert(listed_before(was[i], was[j]));
        } else if i > at {
            assert(listed_before(was[i - 1], was[j - 1]));
        } else if i == at {
            if j - 1 > at {
                assert(listed_before(was[at], was[j - 1]));
            }
        }
    }
    assert forall|i: int| 0 <= i < v.len() implies is_among(entries, k + 1, #[trigger] v[i]) by {
        if i == at {
            assert(stands_for(entries, k + 1, k, v[i]));
        } else {
            let o = if i < at {
                i
            } else {
                i - 1
            };
            assert(v[i] == was[o]);
            let e = choose|e: int| #[trigger] stands_for(entries, k, e, was[o]);
            assert(stands_for(entries, k + 1, e, v[i]));
        }
    }
    assert forall|e: int| 0 <= e < k + 1 implies is_among(v, v.len() as int, #[trigger] entries[e]) by {
        if e == k {
            assert(stands_for(v, v.len() as int, at, entries[e]));
        } else {
            let o = choose|o: int| #[trigger] stands_for(was, was.len() as int, o, entries[e]);
            let i = if o < at {
                o
            } else {
                o + 1
            };
            assert(v[i] == was[o]);
            assert(stands_for(v, v.len() as int, i, entries[e]));
        }
    }
}

/// The listing of entries that stand in the order of their names.
fn list_labels(entries: &[NameCount]) -> (v: Vec<NameCount>)
    requires
        tally::ascending(entries@),
    ensures
        lists(v@, tally::counts(entries@)),
{
    let mut v: Vec<NameCount> = Vec::new();
    for k in 0..entries.len()
        invariant
            tally::ascending(entries@),
            listing(v@, entries@, k as int),
    {
        let ghost was = v@;
        let count: usize = entries[k].count;
        let mut at: usize = 0;
        while at < v.len() && v[at].count >= count
            invariant
                at <= v@.len(),
                v@ == was,
                forall|i: int| 0 <= i < at ==> (#[trigger] v@[i]).count >= count,
            decreases v@.len() - at,
        {
            at += 1;
        }
        v.insert(at, NameCount { name: entries[k].name.clone(), count });
        proof {
            lemma_listing_insert(was, v@, entries@, k as int, at as int);
        }
    }
    proof {
        let labels = tally::counts(entries@);
        let n = entries@.len() as int;
        assert forall|i: int| 0 <= i < v@.len() implies labels.contains_key(
            (#[trigger] v@[i]).name@,
        ) && labels[v@[i].name@] == v@[i].count by {
            let e = choose|e: int| #[trigger] stands_for(entries@, n, e, v@[i]);
            tally::lemma_entry(entries@, e);
        }
        assert forall|name: Seq<char>| #[trigger] labels.contains_key(name) implies exists|i: int|
            #[trigger] tally::is_entry(v@, name, i) by {
            let e = choose|e: int| #[trigger] tally::is_entry(entries@, name, e);
            assert(is_among(v@, v@.len() as int, entries@[e]));
            let i = choose|i: int| #[trigger] stands_for(v@, v@.len() as int, i, entries@[e]);
            assert(tally::is_entry(v@, name, i));
        }
    }
    v
}

/// Take the current totals without clearing them.
pub fn snapshot(p: &Profile) -> (s: Snapshot)
    requires
        p.well_formed(),
    ensures
        s.dispatches == p@.dispatches,
        s.encoders == p@.encoders,
        s.command_buffers == p@.command_buffers,
        s.timed_command_buffers == p@.intervals.len(),
        s.gpu_busy_sum_ns == total_length(p@.intervals, p@.intervals.len() as int),
        s.gpu_busy_union_ns == busy(p@.intervals).len(),
        is_span(p@.intervals, s.gpu_span_ns as int),
        lists(s.by_label@, p@.labels),
{
    let mut sum: u128 = 0;
    let n: usize = p.intervals.len();
    for i in 0..n
        invariant
            n == p.intervals@.len(),
            forward(p.intervals@),
            sum == total_length(p.intervals@, i as int),
            sum <= i * u64::MAX,
    {
        let iv = p.intervals[i];
        assert(i * u64::MAX + u64::MAX == (i + 1) * u64::MAX) by (nonlinear_arith);
        assert((i + 1) * u64::MAX <= u64::MAX * u64::MAX) by (nonlinear_arith)
            requires
                i + 1 <= u64::MAX,
        ;
        sum += (iv.end - iv.start) as u128;
    }
    let (union, span) = union_and_span(p.intervals.as_slice());
    Snapshot {
        dispatches: p.dispatches,
        encoders: p.encoders,
        command_buffers: p.command_buffers,
        timed_command_buffers: n as u64,
        gpu_busy_sum_ns: sum,
        gpu_busy_union_ns: union,
        gpu_span_ns: span,
        by_label: list_labels(p.labels.entries()),
    }
}

/// Clear all counts, so that the next window starts from zero.
pub fn reset(p: &mut Profile)
    requires
        old(p).well_formed(),
    ensures
        final(p).well_formed(),
        final(p)@ == (ProfileView {
            dispatches: 0,
            encoders: 0,
            command_buffers: 0,
            intervals: Seq::empty(),
            labels: Map::empty(),
            ..old(p)@
        }),
{
    p.dispatches = 0;
    p.encoders = 0;
    p.command_buffers = 0;
    p.intervals.clear();
    p.labels = Tally::new();
}

proof fn lemma_busy_prefix(intervals: Seq<GpuInterval>, n: int)
    requires
        forward(intervals),
        0 <= n <= intervals.len(),
    ensures
        busy(intervals.take(n)).finite(),
        busy(intervals.take(n)).len() <= total_length(intervals, n),
    decreases n,
{
    if n == 0 {
        assert(busy(intervals.take(0)) =~= Set::empty());
    } else {
        lemma_busy_prefix(intervals, n - 1);
        lemma_one_more(intervals, n - 1);
        let iv = intervals[n - 1];
        vstd::set_lib::lemma_int_range(iv.start as int, iv.end as int);
        vstd::set_lib::lemma_len_union(
            busy(intervals.take(n - 1)),
            vstd::set_lib::set_int_range(iv.start as int, iv.end as int),
        );
    }
}

/// The time spent is never more than the lengths of the intervals together.
pub proof fn law_union_never_exceeds_the_sum(intervals: Seq<GpuInterval>)
    requires
        forward(intervals),
    ensures
        busy(intervals).len() <= total_length(intervals, intervals.len() as int),
{
    lemma_busy_prefix(intervals, intervals.len() as int);
    assert(intervals.take(intervals.len() as int) =~= intervals);
}

/// No two of the intervals overlap.
pub open spec fn disjoint(intervals: Seq<GpuInterval>) -> bool {
    forall|i: int, j: int|
        0 <= i < j < intervals.len() ==> (#[trigger] intervals[i]).end <= (
        #[trigger] intervals[j]).start || intervals[j].end <= intervals[i].start
}

proof fn lemma_disjoint_prefix(intervals: Seq<GpuInterval>, n: int)
    requires
        forward(intervals),
        disjoint(intervals),
        0 <= n <= intervals.len(),
    ensures
        busy(intervals.take(n)).len() == total_length(intervals, n),
    decreases n,
{
    if n == 0 {
        assert(busy(intervals.take(0)) =~= Set::empty());
    } else {
        lemma_disjoint_prefix(intervals, n - 1);
        lemma_busy_prefix(intervals, n - 1);
        lemma_one_more(intervals, n - 1);
        let iv = intervals[n - 1];
        let before = busy(intervals.take(n - 1));
        let range = vstd::set_lib::set_int_range(iv.start as int, iv.end as int);
        vstd::set_lib::lemma_int_range(iv.start as int, iv.end as int);
        assert(before.disjoint(range)) by {
            assert forall|t: int| before.contains(t) implies !range.contains(t) by {
                let i = choose|i: int|
                    0 <= i < n - 1 && (#[trigger] intervals.take(n - 1)[i]).covers(t);
                assert(intervals[i].covers(t));
            }
        }
        vstd::set_lib::lemma_set_disjoint_lens(before, range);
    }
}

/// Where no two intervals overlap, the time spent is their lengths together.
pub proof fn law_union_is_the_sum_when_disjoint(intervals: Seq<GpuInterval>)
    requires
        forward(intervals),
        disjoint(intervals),
    ensures
        busy(intervals).len() == total_length(intervals, intervals.len() as int),
{
    lemma_disjoint_prefix(intervals, intervals.len() as int);
    assert(intervals.take(intervals.len() as int) =~= intervals);
}

/// The time spent is never more than the time from the first start to the last end.
pub proof fn law_union_never_exceeds_the_span(intervals: Seq<GpuInterval>, n: int)
    requires
        forward(intervals),
        is_span(intervals, n),
    ensures
        busy(intervals).len() <= n,
{
    if intervals.len() == 0 {
        assert(busy(intervals) =~= Set::empty());
    } else {
        let (i, j) = choose|i: int, j: int| #[trigger]
            spans(intervals, i, j) && n == intervals[j].end - intervals[i].start;
        let lo = intervals[i].start as int;
        let hi = intervals[j].end as int;
        assert(intervals[i].start <= intervals[i].end && intervals[i].end <= hi);
        let all = vstd::set_lib::set_int_range(lo, hi);
        vstd::set_lib::lemma_int_range(lo, hi);
        assert(busy(intervals).subset_of(all)) by {
            assert forall|t: int| busy(intervals).contains(t) implies all.contains(t) by {
                let k = choose|k: int| 0 <= k < intervals.len() && (#[trigger] intervals[k]).covers(t);
                assert(intervals[k].covers(t));
            }
        }
        vstd::set_lib::lemma_len_subset(busy(intervals), all);
    }
}

/// The order of the intervals does not matter: what counts is which there are.
pub proof fn law_order_does_not_matter(a: Seq<GpuInterval>, b: Seq<GpuInterval>, n: int)
    requires
        forall|x: GpuInterval| a.contains(x) <==> #[trigger] b.contains(x),
    ensures
        busy(a) == busy(b),
        is_span(a, n) ==> is_span(b, n),
{
    lemma_busy_members(a, b);
    if is_span(a, n) {
        if a.len() == 0 {
            if b.len() > 0 {
                assert(b.contains(b[0]));
                assert(a.contains(b[0]));
            }
        } else {
            let (i, j) = choose|i: int, j: int| #[trigger]
                spans(a, i, j) && n == a[j].end - a[i].start;
            assert(b.contains(a[i]) && b.contains(a[j]));
            let k = choose|k: int| 0 <= k < b.len() && b[k] == a[i];
            let l = choose|l: int| 0 <= l < b.len() && b[l] == a[j];
            assert forall|m: int| 0 <= m < b.len() implies b[k].start <= (#[trigger] b[m]).start
                && b[m].end <= b[l].end by {
                assert(b.contains(b[m]));
                let o = choose|o: int| 0 <= o < a.len() && a[o] == b[m];
                assert(a[i].start <= a[o].start);
            }
            assert(spans(b, k, l));
        }
    }
}

/// One more interval adds its own length to the sum, and its own nanoseconds to those that were
/// busy.
pub proof fn law_one_more_interval(intervals: Seq<GpuInterval>, iv: GpuInterval, t: int)
    ensures
        total_length(intervals.push(iv), intervals.len() as int + 1) == total_length(
            intervals,
            intervals.len() as int,
        ) + iv.end - iv.start,
        busy(intervals.push(iv)).contains(t) <==> busy(intervals).contains(t) || iv.start <= t
            < iv.end,
        total_length(Seq::empty(), 0) == 0,
{
    lemma_length_prefix(intervals, intervals.push(iv), intervals.len() as int);
    let more = intervals.push(iv);
    if is_busy(intervals, t) {
        let i = choose|i: int| 0 <= i < intervals.len() && (#[trigger] intervals[i]).covers(t);
        assert(more[i].covers(t));
    }
    assert(more[intervals.len() as int] == iv);
    if is_busy(more, t) {
        let i = choose|i: int| 0 <= i < more.len() && (#[trigger] more[i]).covers(t);
        if i < intervals.len() {
            assert(intervals[i].covers(t));
        }
    }
}

proof fn lemma_length_prefix(a: Seq<GpuInterval>, b: Seq<GpuInterval>, n: int)
    requires
        forall|i: int| 0 <= i < n ==> a[i] == b[i],
    ensures
        total_length(a, n) == total_length(b, n),
    decreases n,
{
    if n > 0 {
        lemma_length_prefix(a, b, n - 1);
    }
}

/// The span is the longest time from one interval's start to another's end.
pub proof fn law_the_span_is_the_longest_stretch(intervals: Seq<GpuInterval>, n: int, a: int, b: int)
    requires
        is_span(intervals, n),
        0 <= a < intervals.len(),
        0 <= b < intervals.len(),
    ensures
        intervals[b].end - intervals[a].start <= n,
        exists|i: int, j: int|
            0 <= i < intervals.len() && 0 <= j < intervals.len() && n == (
            #[trigger] intervals[j]).end - (#[trigger] intervals[i]).start,
{
    let (i, j) = choose|i: int, j: int| #[trigger]
        spans(intervals, i, j) && n == intervals[j].end - intervals[i].start;
    assert(intervals[i].start <= intervals[a].start && intervals[b].end <= intervals[j].end);
}

/// The listing goes from the most frequent label down, by name where two are as frequent, and has
/// each label once with its own count.
pub proof fn law_the_most_frequent_comes_first(
    entries: Seq<NameCount>,
    labels: Map<Seq<char>, nat>,
    i: int,
    j: int,
)
    requires
        lists(entries, labels),
        0 <= i < j < entries.len(),
    ensures
        entries[i].count >= entries[j].count,
        entries[i].count == entries[j].count ==> tally::precedes(
            entries[i].name@,
            entries[j].name@,
        ),
        entries[i].name@ != entries[j].name@,
        labels.contains_key(entries[i].name@),
        labels[entries[i].name@] == entries[i].count,
        labels[entries[j].name@] == entries[j].count,
{
    assert(listed_before(entries[i], entries[j]));
    if entries[i].name@ == entries[j].name@ {
        assert(labels[entries[i].name@] == entries[i].count);
        assert(labels[entries[j].name@] == entries[j].count);
        tally::law_the_first_difference_decides(entries[i].name@, 'a', 'a', Seq::empty(), Seq::empty());
    }
}

} // verus!
