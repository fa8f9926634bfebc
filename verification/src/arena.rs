//! The activation arena: one allocation, slots at fixed offsets.
//!
//! Decode activation shapes are fixed, so which bytes serve a given allocation can be decided
//! once, ahead of time. A slot is chosen by the position of an allocation within the step (its
//! ordinal), never by the identity of the buffer that a pool happened to hand out.

use vstd::prelude::*;

use crate::buffer::Buffer;
use crate::buffer_pool;
use crate::buffer_pool::{BufferPool, PoolCounters, PoolView, PooledBuffer};
use crate::sums;
use crate::text;

verus! {

/// Alignment of every slot, in bytes: wide enough for every element type, and one cache line.
pub const ARENA_ALIGNMENT: usize = 128;

/// The slot index of an ordinal that the arena does not serve.
pub const NO_SLOT: usize = usize::MAX;

/// Which layout an arena hands out.
#[derive(Clone, Copy, Debug, PartialEq, Eq, Structural)]
pub enum ArenaLayout {
    /// Values whose liveness intervals are disjoint share a slot.
    Packed,
    /// Every value gets its own slot, so no two values ever share bytes.
    NonAliasing,
}

impl Default for ArenaLayout {
    fn default() -> (r: Self)
        ensures
            r == ArenaLayout::Packed,
    {
        ArenaLayout::Packed
    }
}

/// One slot: a fixed region of the arena buffer.
#[derive(Clone, Copy, Debug, PartialEq, Eq, Structural)]
pub struct Slot {
    /// Byte offset of the slot within the arena buffer.
    pub offset: usize,
    /// Bytes reserved for the slot: its largest occupant.
    pub size: usize,
}

/// `x` rounded up to a multiple of `a`.
pub open spec fn aligned_to(x: int, a: int) -> int {
    (x + a - 1) / a * a
}

/// `x` rounded up to a multiple of `ARENA_ALIGNMENT`.
pub open spec fn padded(x: int) -> int {
    (x + 127) / 128 * 128
}

/// The bytes that values of these sizes take one after another, each padded.
pub open spec fn padded_total(sizes: Seq<usize>) -> int
    decreases sizes.len(),
{
    if sizes.len() == 0 {
        0
    } else {
        padded_total(sizes.drop_last()) + padded(sizes.last() as int)
    }
}

/// Where the last byte of any of these slots ends.
pub open spec fn slots_end(slots: Seq<Slot>) -> int
    decreases slots.len(),
{
    if slots.len() == 0 {
        0
    } else if slots_end(slots.drop_last()) > slots.last().offset + slots.last().size {
        slots_end(slots.drop_last())
    } else {
        slots.last().offset + slots.last().size
    }
}

/// The allocations of one step, as the planner sees them: the size of each, the interval of
/// ordinals it is live over, and whether the arena leaves it alone.
pub struct Requests {
    pub sizes: Seq<usize>,
    pub first: Seq<usize>,
    pub last: Seq<usize>,
    pub excluded: Seq<bool>,
}

impl Requests {
    /// The requests that four slices of one length describe.
    pub open spec fn of(sizes: &[usize], first: &[usize], last: &[usize], excluded: &[bool]) -> Self {
        Requests { sizes: sizes@, first: first@, last: last@, excluded: excluded@ }
    }

    /// Every value is served and live from its own ordinal to its last use.
    pub open spec fn from_sizes(sizes: Seq<usize>, last_use: Seq<usize>) -> Self {
        Requests {
            sizes,
            first: Seq::new(sizes.len(), |i: int| i as usize),
            last: last_use,
            excluded: Seq::new(sizes.len(), |i: int| false),
        }
    }

    pub open spec fn len(self) -> nat {
        self.sizes.len()
    }

    pub open spec fn well_formed(self) -> bool {
        &&& self.first.len() == self.sizes.len()
        &&& self.last.len() == self.sizes.len()
        &&& self.excluded.len() == self.sizes.len()
    }

    /// Ordinal `i` is one that the arena places.
    pub open spec fn serves(self, i: int) -> bool {
        0 <= i < self.sizes.len() && !self.excluded[i]
    }

    /// The two values are live at one ordinal at least: neither ends before the other begins.
    pub open spec fn clash(self, i: int, j: int) -> bool {
        !(self.last[i] < self.first[j] || self.last[j] < self.first[i])
    }

    /// How many ordinals the value outlives its first one by.
    pub open spec fn span(self, i: int) -> int {
        if self.last[i] >= self.first[i] {
            self.last[i] - self.first[i]
        } else {
            0
        }
    }

    /// Value `i` is placed before value `j`: the larger first, then the one that begins earlier,
    /// then the one that lives longer, then the lower ordinal.
    pub open spec fn before(self, i: int, j: int) -> bool {
        ||| self.sizes[i] > self.sizes[j]
        ||| self.sizes[i] == self.sizes[j] && self.first[i] < self.first[j]
        ||| self.sizes[i] == self.sizes[j] && self.first[i] == self.first[j] && self.span(i)
            > self.span(j)
        ||| self.sizes[i] == self.sizes[j] && self.first[i] == self.first[j] && self.span(i)
            == self.span(j) && i < j
    }

    /// A value placed before `i` holds slot `s` and is live together with `i`.
    pub open spec fn blocked(self, a: Seq<Option<int>>, i: int, s: int) -> bool {
        exists|j: int|
            #![trigger self.serves(j)]
            self.serves(j) && self.before(j, i) && a[j] == Some(s) && self.clash(i, j)
    }

    /// `a` gives a slot to exactly the served values.
    pub open spec fn covers(self, a: Seq<Option<int>>) -> bool {
        &&& a.len() == self.len()
        &&& forall|i: int|
            0 <= i < a.len() ==> (#[trigger] a[i] is Some <==> !self.excluded[i])
        &&& forall|i: int| 0 <= i < a.len() && #[trigger] a[i] is Some ==> a[i]->0 >= 0
    }

    /// Each value, in placement order, takes the lowest slot that no earlier placed value blocks.
    pub open spec fn first_fit(self, a: Seq<Option<int>>) -> bool {
        &&& self.covers(a)
        &&& forall|i: int| #[trigger] self.serves(i) ==> !self.blocked(a, i, a[i]->0)
        &&& forall|i: int, s: int|
            #[trigger] self.serves(i) && 0 <= s < a[i]->0 ==> #[trigger] self.blocked(a, i, s)
    }

    /// How many of the first `i` values are served.
    pub open spec fn served_before(self, i: int) -> int
        decreases i,
    {
        if i <= 0 {
            0
        } else {
            self.served_before(i - 1) + if self.excluded[i - 1] {
                0int
            } else {
                1int
            }
        }
    }

    /// The served values take slots `0, 1, 2, ..` in ordinal order.
    pub open spec fn one_each(self, a: Seq<Option<int>>) -> bool {
        &&& self.covers(a)
        &&& forall|i: int| #[trigger] self.serves(i) ==> a[i] == Some(self.served_before(i))
    }

    /// The assignment that `layout` makes.
    pub open spec fn assigned(self, a: Seq<Option<int>>, layout: ArenaLayout) -> bool {
        match layout {
            ArenaLayout::Packed => self.first_fit(a),
            ArenaLayout::NonAliasing => self.one_each(a),
        }
    }

    /// A value of `width` bytes holds slot `s`.
    pub open spec fn occupied(self, a: Seq<Option<int>>, s: int, width: usize) -> bool {
        exists|i: int| #[trigger] self.serves(i) && a[i] == Some(s) && self.sizes[i] == width
    }

    /// Each slot is as wide as its largest occupant, and has one.
    pub open spec fn widths(self, a: Seq<Option<int>>, widths: Seq<usize>) -> bool {
        &&& forall|i: int| #[trigger]
            self.serves(i) ==> a[i]->0 < widths.len() && self.sizes[i] <= widths[a[i]->0]
        &&& forall|s: int|
            0 <= s < widths.len() ==> #[trigger] self.occupied(a, s, widths[s])
    }

    /// The layout can be addressed: its slots, laid one after another and padded, end within
    /// what a `usize` can count.
    pub open spec fn addressable(self, layout: ArenaLayout) -> bool {
        forall|a: Seq<Option<int>>, w: Seq<usize>|
            #[trigger] self.assigned(a, layout) && #[trigger] self.widths(a, w) ==> padded_total(w)
                <= usize::MAX
    }
}

/// What a decode step's allocations map to, as mathematical values.
pub struct PlanView {
    pub slots: Seq<Slot>,
    /// Per ordinal, the slot (or `NO_SLOT`) and the size that the ordinal expects.
    pub ordinals: Seq<(usize, usize)>,
}

impl PlanView {
    /// The slot that ordinal `i` is served from, if it is served.
    pub open spec fn slot_of(self, i: int) -> Option<int> {
        if self.ordinals[i].0 == NO_SLOT {
            None
        } else {
            Some(self.ordinals[i].0 as int)
        }
    }

    pub open spec fn assignment(self) -> Seq<Option<int>> {
        Seq::new(self.ordinals.len(), |i: int| self.slot_of(i))
    }

    pub open spec fn widths(self) -> Seq<usize> {
        self.slots.map_values(|s: Slot| s.size)
    }

    /// The slots lie one after another, each starting where the padding of the one before ends.
    pub open spec fn laid_out(self) -> bool {
        forall|s: int|
            0 <= s < self.slots.len() ==> (#[trigger] self.slots[s]).offset == padded_total(
                self.widths().take(s),
            )
    }

    /// Every slot ends within what a `usize` can count.
    pub open spec fn ends_fit(self) -> bool {
        forall|s: int|
            0 <= s < self.slots.len() ==> (#[trigger] self.slots[s]).offset + self.slots[s].size
                <= usize::MAX
    }

    /// Where the last byte of any slot ends.
    pub open spec fn bytes(self) -> int {
        slots_end(self.slots)
    }

    pub open spec fn misaligned(self, i: int) -> bool {
        0 <= i < self.slots.len() && self.slots[i].offset % 128 != 0
    }

    /// Slots `i` and `j` have a byte in common, by the interval test on their bounds.
    pub open spec fn overlap(self, i: int, j: int) -> bool {
        &&& 0 <= i < j < self.slots.len()
        &&& self.slots[i].offset < self.slots[j].offset + self.slots[j].size
        &&& self.slots[j].offset < self.slots[i].offset + self.slots[i].size
    }

    /// Every slot is aligned and no two overlap.
    pub open spec fn disjoint(self) -> bool {
        &&& forall|i: int| !#[trigger] self.misaligned(i)
        &&& forall|i: int, j: int| !#[trigger] self.overlap(i, j)
    }

    /// What is said of a slot that is not aligned.
    pub open spec fn misaligned_text(self, i: int) -> Seq<char> {
        "slot "@ + text::decimal(i as nat) + " at offset "@ + text::decimal(
            self.slots[i].offset as nat,
        ) + " is not "@ + text::decimal(128) + " B aligned"@
    }

    pub open spec fn range_text(self, i: int) -> Seq<char> {
        text::decimal(i as nat) + " ("@ + text::decimal(self.slots[i].offset as nat) + ".."@
            + text::decimal((self.slots[i].offset + self.slots[i].size) as nat) + ")"@
    }

    /// What is said of two slots that overlap.
    pub open spec fn overlap_text(self, i: int, j: int) -> Seq<char> {
        "slots "@ + self.range_text(i) + " and "@ + self.range_text(j) + " overlap"@
    }

    /// The first fault of a plan: the lowest misaligned slot, and failing that the overlapping
    /// pair with the lowest first slot, then the lowest second one.
    pub open spec fn fault(self, message: Seq<char>) -> bool {
        ||| exists|i: int| #[trigger]
            self.misaligned(i) && message == self.misaligned_text(i) && forall|k: int|
                k < i ==> !#[trigger] self.misaligned(k)
        ||| (forall|k: int| !#[trigger] self.misaligned(k)) && exists|i: int, j: int| #[trigger]
            self.overlap(i, j) && message == self.overlap_text(i, j) && forall|k: int, l: int|
                k < i || k == i && l < j ==> !#[trigger] self.overlap(k, l)
    }

    /// Every ordinal names a slot of the plan, or none.
    pub open spec fn in_range(self) -> bool {
        forall|i: int|
            0 <= i < self.ordinals.len() ==> (#[trigger] self.ordinals[i]).0 == NO_SLOT
                || self.ordinals[i].0 < self.slots.len()
    }

    /// The byte at which ordinal `i` is served, if it is served.
    pub open spec fn offset_of(self, i: int) -> Option<int> {
        match self.slot_of(i) {
            Some(s) => Some(self.slots[s].offset as int),
            None => None,
        }
    }

    /// What ordinal `i` asks of a bump allocator: its size, or 0 where the arena leaves it alone.
    pub open spec fn request(self, i: int) -> usize {
        match self.slot_of(i) {
            Some(s) => self.ordinals[i].1,
            None => 0,
        }
    }

    pub open spec fn requests(self) -> Seq<usize> {
        Seq::new(self.ordinals.len(), |i: int| self.request(i))
    }

    /// Where a forward-only cursor that pads every request stands when it reaches ordinal `i`.
    pub open spec fn cursor_at(self, i: int) -> int {
        padded_total(self.requests().take(i))
    }

    /// The offset that such a cursor gives ordinal `i`: none for a request of 0 bytes.
    pub open spec fn bumped(self, i: int) -> Option<int> {
        if self.request(i) == 0 {
            None
        } else {
            Some(self.cursor_at(i))
        }
    }

    pub open spec fn bump_reproducible(self) -> bool {
        forall|i: int|
            0 <= i < self.ordinals.len() ==> #[trigger] self.offset_of(i) == self.bumped(i)
    }

    /// The plan that `layout` makes of these requests.
    pub open spec fn plans(self, r: Requests, layout: ArenaLayout) -> bool {
        &&& self.ordinals.len() == r.len()
        &&& forall|i: int| 0 <= i < r.len() ==> (#[trigger] self.ordinals[i]).1 == r.sizes[i]
        &&& r.assigned(self.assignment(), layout)
        &&& r.widths(self.assignment(), self.widths())
        &&& self.laid_out()
    }
}

/// What a decode step's allocations map to.
///
/// Index is the allocation ordinal within the step: the Nth allocation of every step gets
/// entry N, whatever buffer any pool handed out.
#[derive(Clone, Debug)]
pub struct StepPlan {
    slots: Vec<Slot>,
    by_ordinal: Vec<(usize, usize)>,
}

impl View for StepPlan {
    type V = PlanView;

    closed spec fn view(&self) -> PlanView {
        PlanView { slots: self.slots@, ordinals: self.by_ordinal@ }
    }
}

fn align_up(x: usize, a: usize) -> (r: usize)
    requires
        a > 0,
        aligned_to(x as int, a as int) <= usize::MAX,
    ensures
        r == aligned_to(x as int, a as int),
{
    let q: usize = x / a;
    let m: usize = x % a;
    proof {
        vstd::arithmetic::div_mod::lemma_fundamental_div_mod(x as int, a as int);
        if m == 0 {
            assert((x + a - 1) / a as int == q) by (nonlinear_arith)
                requires
                    x == a * q + m,
                    m == 0,
                    a > 0,
            ;
        } else {
            assert((x + a - 1) / a as int == q + 1) by (nonlinear_arith)
                requires
                    x == a * q + m,
                    0 < m < a,
            ;
        }
        assert(q * a == a * q) by (nonlinear_arith);
        assert((q + 1) * a == q * a + a) by (nonlinear_arith);
    }
    if m == 0 {
        q * a
    } else {
        (q + 1) * a
    }
}

proof fn lemma_before_is_total(r: Requests, i: int, j: int)
    requires
        i != j,
    ensures
        r.before(i, j) <==> !r.before(j, i),
{
}

proof fn lemma_before_is_transitive(r: Requests, i: int, j: int, k: int)
    requires
        r.before(i, j),
        r.before(j, k),
    ensures
        r.before(i, k),
{
}

fn comes_before(
    sizes: &[usize],
    first: &[usize],
    last: &[usize],
    excluded: &[bool],
    i: usize,
    j: usize,
) -> (b: bool)
    requires
        Requests::of(sizes, first, last, excluded).well_formed(),
        i < sizes@.len(),
        j < sizes@.len(),
    ensures
        b == Requests::of(sizes, first, last, excluded).before(i as int, j as int),
{
    let si: usize = last[i].saturating_sub(first[i]);
    let sj: usize = last[j].saturating_sub(first[j]);
    if sizes[i] != sizes[j] {
        sizes[i] > sizes[j]
    } else if first[i] != first[j] {
        first[i] < first[j]
    } else if si != sj {
        si > sj
    } else {
        i < j
    }
}

/// The served ordinals in the order in which they are placed.
fn placement_order(sizes: &[usize], first: &[usize], last: &[usize], excluded: &[bool]) -> (order:
    Vec<usize>)
    requires
        Requests::of(sizes, first, last, excluded).well_formed(),
    ensures
        ({
            let r = Requests::of(sizes, first, last, excluded);
            &&& forall|p: int| 0 <= p < order@.len() ==> r.serves(#[trigger] order@[p] as int)
            &&& forall|i: int| #[trigger] r.serves(i) ==> order@.contains(i as usize)
            &&& forall|p: int, q: int|
                0 <= p < q < order@.len() ==> r.before(
                    #[trigger] order@[p] as int,
                    #[trigger] order@[q] as int,
                )
        }),
{
    let ghost r = Requests::of(sizes, first, last, excluded);
    let mut order: Vec<usize> = Vec::new();
    for i in 0..sizes.len()
        invariant
            r == Requests::of(sizes, first, last, excluded),
            r.well_formed(),
            forall|p: int|
                0 <= p < order@.len() ==> r.serves(#[trigger] order@[p] as int) && order@[p] < i,
            forall|j: int| #[trigger] r.serves(j) && j < i ==> order@.contains(j as usize),
            forall|p: int, q: int|
                0 <= p < q < order@.len() ==> r.before(
                    #[trigger] order@[p] as int,
                    #[trigger] order@[q] as int,
                ),
    {
        if !excluded[i] {
            let mut at: usize = 0;
            while at < order.len() && comes_before(sizes, first, last, excluded, order[at], i)
                invariant
                    r == Requests::of(sizes, first, last, excluded),
                    r.well_formed(),
                    i < sizes@.len(),
                    at <= order@.len(),
                    forall|p: int|
                        0 <= p < order@.len() ==> r.serves(#[trigger] order@[p] as int) && order@[p]
                            < i,
                    forall|p: int| 0 <= p < at ==> r.before(#[trigger] order@[p] as int, i as int),
                decreases order.len() - at,
            {
                at += 1;
            }
            let ghost prev = order@;
            order.insert(at, i);
            proof {
                assert forall|q: int| at <= q < prev.len() implies r.before(
                    i as int,
                    #[trigger] prev[q] as int,
                ) by {
                    lemma_before_is_total(r, i as int, prev[at as int] as int);
                    if q > at {
                        lemma_before_is_transitive(
                            r,
                            i as int,
                            prev[at as int] as int,
                            prev[q] as int,
                        );
                    }
                }
                assert forall|j: int| #[trigger] r.serves(j) && j < i + 1 implies order@.contains(
                    j as usize,
                ) by {
                    if j == i {
                        assert(order@[at as int] == i);
                    } else {
                        let p = choose|p: int| 0 <= p < prev.len() && prev[p] == j as usize;
                        assert(prev.contains(j as usize));
                        if p < at {
                            assert(order@[p] == prev[p]);
                        } else {
                            assert(order@[p + 1] == prev[p]);
                        }
                    }
                }
            }
        }
    }
    order
}

/// The assignment that the table of slot indices `assigned` records.
spec fn table(assigned: Seq<usize>) -> Seq<Option<int>> {
    Seq::new(
        assigned.len(),
        |i: int|
            if assigned[i] == NO_SLOT {
                None
            } else {
                Some(assigned[i] as int)
            },
    )
}

/// One of the first `k` values in placement order holds slot `s` and is live together with `i`.
spec fn blocked_at(r: Requests, order: Seq<usize>, assigned: Seq<usize>, k: int, i: int, s: int) -> bool {
    exists|q: int|
        #![trigger order[q]]
        0 <= q < k && assigned[order[q] as int] == s && r.clash(i, order[q] as int)
}

/// One of the first `k` values in placement order holds slot `s` and is `width` bytes.
spec fn opened_at(
    r: Requests,
    order: Seq<usize>,
    assigned: Seq<usize>,
    width: usize,
    k: int,
    s: int,
) -> bool {
    exists|p: int|
        0 <= p < k && assigned[#[trigger] order[p] as int] == s && r.sizes[order[p] as int] == width
}

/// The state of first fit once the first `k` values in placement order have been placed.
spec fn placed(r: Requests, order: Seq<usize>, assigned: Seq<usize>, widths: Seq<usize>, k: int) -> bool {
    &&& assigned.len() == r.len()
    &&& widths.len() <= k <= order.len()
    &&& forall|p: int| k <= p < order.len() ==> assigned[#[trigger] order[p] as int] == NO_SLOT
    &&& forall|i: int| 0 <= i < r.len() && r.excluded[i] ==> #[trigger] assigned[i] == NO_SLOT
    &&& forall|p: int|
        0 <= p < k ==> {
            let i = #[trigger] order[p] as int;
            &&& assigned[i] < widths.len()
            &&& r.sizes[i] <= widths[assigned[i] as int]
            &&& !blocked_at(r, order, assigned, p, i, assigned[i] as int)
        }
    &&& forall|p: int, s: int|
        0 <= p < k && 0 <= s < assigned[order[p] as int] ==> #[trigger] blocked_at(
            r,
            order,
            assigned,
            p,
            order[p] as int,
            s,
        )
    &&& forall|s: int|
        0 <= s < widths.len() ==> #[trigger] opened_at(r, order, assigned, widths[s], k, s)
}

/// Whether one of the first `k` values in placement order blocks slot `s` for the next one.
fn is_blocked(
    sizes: &[usize],
    first: &[usize],
    last: &[usize],
    excluded: &[bool],
    order: &Vec<usize>,
    assigned: &Vec<usize>,
    k: usize,
    s: usize,
) -> (b: bool)
    requires
        Requests::of(sizes, first, last, excluded).well_formed(),
        assigned@.len() == sizes@.len(),
        k < order@.len(),
        forall|p: int|
            0 <= p < order@.len() ==> Requests::of(sizes, first, last, excluded).serves(
                #[trigger] order@[p] as int,
            ),
    ensures
        b == blocked_at(
            Requests::of(sizes, first, last, excluded),
            order@,
            assigned@,
            k as int,
            order@[k as int] as int,
            s as int,
        ),
{
    let ghost r = Requests::of(sizes, first, last, excluded);
    let i: usize = order[k];
    assert(r.serves(i as int));
    for q in 0..k
        invariant
            r == Requests::of(sizes, first, last, excluded),
            r.well_formed(),
            i < sizes@.len(),
            assigned@.len() == r.len(),
            k < order@.len(),
            i == order@[k as int],
            forall|p: int| 0 <= p < order@.len() ==> r.serves(#[trigger] order@[p] as int),
            forall|p: int|
                0 <= p < q ==> !(assigned@[#[trigger] order@[p] as int] == s && r.clash(
                    i as int,
                    order@[p] as int,
                )),
    {
        let j: usize = order[q];
        assert(r.serves(j as int));
        if assigned[j] == s && !(last[i] < first[j] || last[j] < first[i]) {
            assert(assigned@[order@[q as int] as int] == s);
            return true;
        }
    }
    false
}

proof fn lemma_place(
    r: Requests,
    order: Seq<usize>,
    assigned0: Seq<usize>,
    widths0: Seq<usize>,
    k: int,
    s: int,
    assigned: Seq<usize>,
    widths: Seq<usize>,
)
    requires
        r.well_formed(),
        0 <= k < order.len(),
        forall|p: int| 0 <= p < order.len() ==> r.serves(#[trigger] order[p] as int),
        forall|p: int, q: int|
            0 <= p < q < order.len() ==> r.before(
                #[trigger] order[p] as int,
                #[trigger] order[q] as int,
            ),
        placed(r, order, assigned0, widths0, k),
        order.len() <= usize::MAX,
        0 <= s <= widths0.len(),
        s < widths0.len() ==> !blocked_at(r, order, assigned0, k, order[k] as int, s),
        forall|t: int|
            0 <= t < s ==> #[trigger] blocked_at(r, order, assigned0, k, order[k] as int, t),
        assigned == assigned0.update(order[k] as int, s as usize),
        s < widths0.len() && r.sizes[order[k] as int] > widths0[s] ==> widths == widths0.update(
            s,
            r.sizes[order[k] as int],
        ),
        s < widths0.len() && r.sizes[order[k] as int] <= widths0[s] ==> widths == widths0,
        s == widths0.len() ==> widths == widths0.push(r.sizes[order[k] as int]),
    ensures
        placed(r, order, assigned, widths, k + 1),
{
    let i = order[k] as int;
    assert(r.serves(i));
    assert forall|q: int| 0 <= q < order.len() && q != k implies (#[trigger] order[q]) as int
        != i by {
        if q < k {
            assert(r.before(order[q] as int, order[k] as int));
        } else {
            assert(r.before(order[k] as int, order[q] as int));
        }
    }
    assert forall|p: int, x: int, t: int| 0 <= p <= k implies #[trigger] blocked_at(
        r,
        order,
        assigned,
        p,
        x,
        t,
    ) == blocked_at(r, order, assigned0, p, x, t) by {
        if blocked_at(r, order, assigned, p, x, t) {
            let q = choose|q: int|
                #![trigger order[q]]
                0 <= q < p && assigned[order[q] as int] == t && r.clash(x, order[q] as int);
            assert(assigned0[order[q] as int] == t);
        }
        if blocked_at(r, order, assigned0, p, x, t) {
            let q = choose|q: int|
                #![trigger order[q]]
                0 <= q < p && assigned0[order[q] as int] == t && r.clash(x, order[q] as int);
            assert(assigned[order[q] as int] == t);
        }
    }
    if s < widths0.len() {
        assert(opened_at(r, order, assigned0, widths0[s], k, s));
        let p = choose|p: int|
            0 <= p < k && assigned0[#[trigger] order[p] as int] == s && r.sizes[order[p] as int]
                == widths0[s];
        assert(r.before(order[p] as int, order[k] as int));
        assert(widths == widths0);
    } else {
        assert(!blocked_at(r, order, assigned0, k, i, s));
    }
    assert forall|p: int| 0 <= p < k + 1 implies ({
        let j = #[trigger] order[p] as int;
        &&& assigned[j] < widths.len()
        &&& r.sizes[j] <= widths[assigned[j] as int]
        &&& !blocked_at(r, order, assigned, p, j, assigned[j] as int)
    }) by {
        if p < k {
            assert(assigned[order[p] as int] == assigned0[order[p] as int]);
        }
    }
    assert forall|p: int, t: int|
        0 <= p < k + 1 && 0 <= t < assigned[order[p] as int] implies #[trigger] blocked_at(
        r,
        order,
        assigned,
        p,
        order[p] as int,
        t,
    ) by {
        if p < k {
            assert(assigned[order[p] as int] == assigned0[order[p] as int]);
            assert(blocked_at(r, order, assigned0, p, order[p] as int, t));
        } else {
            assert(blocked_at(r, order, assigned0, k, order[k] as int, t));
        }
    }
    assert forall|t: int| 0 <= t < widths.len() implies #[trigger] opened_at(
        r,
        order,
        assigned,
        widths[t],
        k + 1,
        t,
    ) by {
        if t < widths0.len() {
            assert(opened_at(r, order, assigned0, widths0[t], k, t));
            let p = choose|p: int|
                0 <= p < k && assigned0[#[trigger] order[p] as int] == t && r.sizes[order[p] as int]
                    == widths0[t];
            assert(assigned[order[p] as int] == t);
        } else {
            assert(assigned[order[k] as int] == t);
        }
    }
}

proof fn lemma_all_placed(r: Requests, order: Seq<usize>, assigned: Seq<usize>, widths: Seq<usize>)
    requires
        r.well_formed(),
        forall|p: int| 0 <= p < order.len() ==> r.serves(#[trigger] order[p] as int),
        forall|i: int| #[trigger] r.serves(i) ==> order.contains(i as usize),
        forall|p: int, q: int|
            0 <= p < q < order.len() ==> r.before(
                #[trigger] order[p] as int,
                #[trigger] order[q] as int,
            ),
        placed(r, order, assigned, widths, order.len() as int),
        r.len() <= usize::MAX,
        widths.len() <= usize::MAX,
    ensures
        r.first_fit(table(assigned)),
        r.widths(table(assigned), widths),
{
    let a = table(assigned);
    let n = order.len() as int;
    assert forall|i: int| #[trigger] r.serves(i) implies exists|p: int|
        0 <= p < n && #[trigger] order[p] == i && a[i] == Some(assigned[i] as int) && assigned[i]
            < widths.len() by {
        assert(order.contains(i as usize));
        let p = choose|p: int| 0 <= p < n && order[p] == i as usize;
        assert(order[p] == i);
    }
    assert(r.covers(a)) by {
        assert forall|i: int| 0 <= i < a.len() implies (#[trigger] a[i] is Some
            <==> !r.excluded[i]) by {
            if !r.excluded[i] {
                assert(r.serves(i));
            } else {
                assert(assigned[i] == NO_SLOT);
            }
        }
    }
    assert forall|i: int, s: int| #[trigger] r.serves(i) implies #[trigger] r.blocked(a, i, s) == (
    exists|p: int|
        0 <= p < n && #[trigger] order[p] == i && blocked_at(r, order, assigned, p, i, s)) by {
        let p = choose|p: int|
            0 <= p < n && #[trigger] order[p] == i && a[i] == Some(assigned[i] as int);
        if r.blocked(a, i, s) {
            let j = choose|j: int|
                #![trigger r.serves(j)]
                r.serves(j) && r.before(j, i) && a[j] == Some(s) && r.clash(i, j);
            let q = choose|q: int|
                0 <= q < n && #[trigger] order[q] == j && a[j] == Some(assigned[j] as int);
            if q > p {
                assert(r.before(order[p] as int, order[q] as int));
            }
            assert(q < p);
            assert(blocked_at(r, order, assigned, p, i, s));
        }
        if exists|p2: int|
            0 <= p2 < n && #[trigger] order[p2] == i && blocked_at(r, order, assigned, p2, i, s) {
            let p2 = choose|p2: int|
                0 <= p2 < n && #[trigger] order[p2] == i && blocked_at(
                    r,
                    order,
                    assigned,
                    p2,
                    i,
                    s,
                );
            let q = choose|q: int|
                #![trigger order[q]]
                0 <= q < p2 && assigned[order[q] as int] == s && r.clash(i, order[q] as int);
            assert(r.before(order[q] as int, order[p2] as int));
            assert(r.serves(order[q] as int));
        }
    }
    assert forall|i: int| #[trigger] r.serves(i) implies !r.blocked(a, i, a[i]->0) by {
        if r.blocked(a, i, a[i]->0) {
            let p = choose|p: int|
                0 <= p < n && #[trigger] order[p] == i && blocked_at(
                    r,
                    order,
                    assigned,
                    p,
                    i,
                    a[i]->0,
                );
            assert(false);
        }
    }
    assert forall|i: int, s: int|
        #[trigger] r.serves(i) && 0 <= s < a[i]->0 implies #[trigger] r.blocked(a, i, s) by {
        let p = choose|p: int|
            0 <= p < n && #[trigger] order[p] == i && a[i] == Some(assigned[i] as int);
        assert(blocked_at(r, order, assigned, p, order[p] as int, s));
    }
    assert forall|s: int| 0 <= s < widths.len() implies #[trigger] r.occupied(a, s, widths[s]) by {
        assert(opened_at(r, order, assigned, widths[s], n, s));
        let p = choose|p: int|
            0 <= p < n && assigned[#[trigger] order[p] as int] == s && r.sizes[order[p] as int]
                == widths[s];
        assert(r.serves(order[p] as int));
    }
}

/// First fit in placement order: the slot of each ordinal, and the width of each slot.
fn pack(sizes: &[usize], first: &[usize], last: &[usize], excluded: &[bool]) -> (res: (
    Vec<usize>,
    Vec<usize>,
))
    requires
        Requests::of(sizes, first, last, excluded).well_formed(),
    ensures
        Requests::of(sizes, first, last, excluded).first_fit(table(res.0@)),
        Requests::of(sizes, first, last, excluded).widths(table(res.0@), res.1@),
        res.0@.len() == sizes@.len(),
{
    let ghost r = Requests::of(sizes, first, last, excluded);
    let order = placement_order(sizes, first, last, excluded);
    let mut assigned: Vec<usize> = vec![NO_SLOT; sizes.len()];
    let mut widths: Vec<usize> = Vec::new();
    for k in 0..order.len()
        invariant
            r == Requests::of(sizes, first, last, excluded),
            r.well_formed(),
            forall|p: int| 0 <= p < order@.len() ==> r.serves(#[trigger] order@[p] as int),
            forall|p: int, q: int|
                0 <= p < q < order@.len() ==> r.before(
                    #[trigger] order@[p] as int,
                    #[trigger] order@[q] as int,
                ),
            placed(r, order@, assigned@, widths@, k as int),
    {
        let i: usize = order[k];
        assert(r.serves(i as int));
        let mut s: usize = 0;
        while s < widths.len() && is_blocked(
            sizes,
            first,
            last,
            excluded,
            &order,
            &assigned,
            k,
            s,
        )
            invariant
                r == Requests::of(sizes, first, last, excluded),
                r.well_formed(),
                forall|p: int| 0 <= p < order@.len() ==> r.serves(#[trigger] order@[p] as int),
                placed(r, order@, assigned@, widths@, k as int),
                k < order@.len(),
                i == order@[k as int],
                s <= widths@.len(),
                forall|t: int|
                    0 <= t < s ==> #[trigger] blocked_at(
                        r,
                        order@,
                        assigned@,
                        k as int,
                        i as int,
                        t,
                    ),
            decreases widths.len() - s,
        {
            s += 1;
        }
        let ghost assigned0 = assigned@;
        let ghost widths0 = widths@;
        if s < widths.len() {
            if sizes[i] > widths[s] {
                widths.set(s, sizes[i]);
            }
        } else {
            widths.push(sizes[i]);
        }
        assigned.set(i, s);
        proof {
            lemma_place(r, order@, assigned0, widths0, k as int, s as int, assigned@, widths@);
        }
    }
    proof {
        lemma_all_placed(r, order@, assigned@, widths@);
    }
    (assigned, widths)
}

impl Default for StepPlan {
    fn default() -> (p: Self)
        ensures
            p@ == (PlanView { slots: Seq::empty(), ordinals: Seq::empty() }),
    {
        StepPlan { slots: Vec::new(), by_ordinal: Vec::new() }
    }
}

impl StepPlan {
    /// Build a plan from the per-ordinal `(slot, size)` assignment.
    pub fn new(slots: Vec<Slot>, by_ordinal: Vec<(usize, usize)>) -> (p: Self)
        ensures
            p@ == (PlanView { slots: slots@, ordinals: by_ordinal@ }),
    {
        StepPlan { slots, by_ordinal }
    }

    /// Total bytes the arena must reserve.
    pub fn arena_bytes(&self) -> (n: usize)
        requires
            self@.ends_fit(),
        ensures
            n == self@.bytes(),
    {
        let mut n: usize = 0;
        for s in 0..self.slots.len()
            invariant
                self@.ends_fit(),
                n == slots_end(self@.slots.take(s as int)),
        {
            let end: usize = self.slots[s].offset + self.slots[s].size;
            assert(self@.slots.take(s + 1).drop_last() =~= self@.slots.take(s as int));
            if end >= n {
                n = end;
            }
        }
        assert(self@.slots.take(self@.slots.len() as int) =~= self@.slots);
        n
    }

    pub fn slots(&self) -> (s: &[Slot])
        ensures
            s@ == self@.slots,
    {
        self.slots.as_slice()
    }

    pub fn allocations(&self) -> (n: usize)
        ensures
            n == self@.ordinals.len(),
    {
        self.by_ordinal.len()
    }

    /// The slot that the ordinal is served from; `None` past the plan, and for an ordinal that
    /// the arena leaves alone.
    pub fn slot_of(&self, ordinal: usize) -> (s: Option<usize>)
        ensures
            s == (if ordinal < self@.ordinals.len() && self@.ordinals[ordinal as int].0 != NO_SLOT {
                Some(self@.ordinals[ordinal as int].0)
            } else {
                None
            }),
    {
        if ordinal < self.by_ordinal.len() && self.by_ordinal[ordinal].0 != NO_SLOT {
            Some(self.by_ordinal[ordinal].0)
        } else {
            None
        }
    }

    /// The offset of each ordinal, or `None` where the arena leaves it alone.
    pub fn expected_offsets(&self) -> (v: Vec<Option<usize>>)
        requires
            self@.in_range(),
        ensures
            v@.len() == self@.ordinals.len(),
            forall|i: int|
                0 <= i < v@.len() ==> match #[trigger] v@[i] {
                    Some(o) => self@.offset_of(i) == Some(o as int),
                    None => self@.offset_of(i) is None,
                },
    {
        let mut v: Vec<Option<usize>> = Vec::with_capacity(self.by_ordinal.len());
        for i in 0..self.by_ordinal.len()
            invariant
                self@.in_range(),
                v@.len() == i,
                forall|j: int|
                    0 <= j < i ==> match #[trigger] v@[j] {
                        Some(o) => self@.offset_of(j) == Some(o as int),
                        None => self@.offset_of(j) is None,
                    },
        {
            assert(self@.ordinals[i as int] == self.by_ordinal@[i as int]);
            match self.slot_of(i) {
                Some(s) => v.push(Some(self.slots[s].offset)),
                None => v.push(None),
            }
        }
        v
    }

    fn request_of(&self, i: usize) -> (n: usize)
        requires
            i < self@.ordinals.len(),
        ensures
            n == self@.request(i as int),
    {
        if self.by_ordinal[i].0 == NO_SLOT {
            0
        } else {
            self.by_ordinal[i].1
        }
    }

    /// What each ordinal asks of a bump allocator whose cursor is 32 bits wide.
    pub fn request_sizes(&self) -> (v: Vec<u32>)
        requires
            forall|i: int|
                0 <= i < self@.ordinals.len() ==> #[trigger] self@.request(i) <= u32::MAX,
        ensures
            v@.len() == self@.ordinals.len(),
            forall|i: int| 0 <= i < v@.len() ==> #[trigger] v@[i] == self@.request(i),
    {
        let mut v: Vec<u32> = Vec::with_capacity(self.by_ordinal.len());
        for i in 0..self.by_ordinal.len()
            invariant
                forall|j: int|
                    0 <= j < self@.ordinals.len() ==> #[trigger] self@.request(j) <= u32::MAX,
                v@.len() == i,
                forall|j: int| 0 <= j < i ==> #[trigger] v@[j] == self@.request(j),
        {
            assert(self@.request(i as int) <= u32::MAX);
            v.push(self.request_of(i) as u32);
        }
        v
    }

    /// The bytes a bump allocator needs to serve every ordinal of the plan. It pads the last
    /// request too, so this can exceed `arena_bytes`.
    pub fn bump_capacity(&self) -> (n: usize)
        requires
            padded_total(self@.requests()) <= usize::MAX,
        ensures
            n == padded_total(self@.requests()),
    {
        let ghost q = self@.requests();
        let mut cursor: usize = 0;
        for i in 0..self.by_ordinal.len()
            invariant
                q == self@.requests(),
                padded_total(q) <= usize::MAX,
                cursor == padded_total(q.take(i as int)),
        {
            proof {
                assert(q.take(i + 1).drop_last() =~= q.take(i as int));
                lemma_padded_total_take(q, i + 1);
                lemma_padded_total_is_padded(q.take(i as int));
            }
            cursor = align_up(cursor + self.request_of(i), ARENA_ALIGNMENT);
        }
        assert(q.take(q.len() as int) =~= q);
        cursor
    }

    /// Whether a forward-only cursor gives every ordinal the offset that the plan gives it.
    pub fn is_bump_reproducible(&self) -> (b: bool)
        requires
            self@.in_range(),
            padded_total(self@.requests()) <= usize::MAX,
        ensures
            b == self@.bump_reproducible(),
    {
        let ghost q = self@.requests();
        let mut cursor: usize = 0;
        for i in 0..self.by_ordinal.len()
            invariant
                self@.in_range(),
                q == self@.requests(),
                padded_total(q) <= usize::MAX,
                cursor == padded_total(q.take(i as int)),
                forall|j: int| 0 <= j < i ==> #[trigger] self@.offset_of(j) == self@.bumped(j),
        {
            let n: usize = self.request_of(i);
            assert(self@.ordinals[i as int] == self.by_ordinal@[i as int]);
            let same = match self.slot_of(i) {
                Some(s) => n != 0 && self.slots[s].offset == cursor,
                None => true,
            };
            assert(same == (self@.offset_of(i as int) == self@.bumped(i as int)));
            if !same {
                return false;
            }
            proof {
                assert(q.take(i + 1).drop_last() =~= q.take(i as int));
                lemma_padded_total_take(q, i + 1);
                lemma_padded_total_is_padded(q.take(i as int));
            }
            cursor = align_up(cursor + n, ARENA_ALIGNMENT);
        }
        true
    }

    fn push_range(&self, s: &mut String, i: usize)
        requires
            self@.ends_fit(),
            i < self@.slots.len(),
        ensures
            final(s)@ == old(s)@ + self@.range_text(i as int),
    {
        let slot = self.slots[i];
        text::push_usize(s, i);
        s.push_str(" (");
        text::push_usize(s, slot.offset);
        s.push_str("..");
        text::push_usize(s, slot.offset + slot.size);
        s.push_str(")");
        proof {
            assert(s@ =~= old(s)@ + self@.range_text(i as int));
        }
    }

    /// Every slot is aligned and no two slots overlap; otherwise the first fault, in words.
    pub fn check_disjoint(&self) -> (res: Result<(), String>)
        requires
            self@.ends_fit(),
        ensures
            res is Ok <==> self@.disjoint(),
            res matches Err(e) ==> self@.fault(e@),
    {
        for i in 0..self.slots.len()
            invariant
                self@.ends_fit(),
                forall|k: int| k < i ==> !#[trigger] self@.misaligned(k),
        {
            let offset: usize = self.slots[i].offset;
            if offset % ARENA_ALIGNMENT != 0 {
                let mut s = String::new();
                s.push_str("slot ");
                text::push_usize(&mut s, i);
                s.push_str(" at offset ");
                text::push_usize(&mut s, offset);
                s.push_str(" is not ");
                text::push_usize(&mut s, ARENA_ALIGNMENT);
                s.push_str(" B aligned");
                proof {
                    assert(self@.misaligned(i as int));
                    assert(s@ =~= self@.misaligned_text(i as int));
                }
                return Err(s);
            }
        }
        for i in 0..self.slots.len()
            invariant
                self@.ends_fit(),
                forall|k: int| !#[trigger] self@.misaligned(k),
                forall|k: int, l: int| k < i ==> !#[trigger] self@.overlap(k, l),
        {
            for j in i + 1..self.slots.len()
                invariant
                    self@.ends_fit(),
                    i < self@.slots.len(),
                    forall|k: int| !#[trigger] self@.misaligned(k),
                    forall|k: int, l: int|
                        k < i || k == i && l < j ==> !#[trigger] self@.overlap(k, l),
            {
                let a = self.slots[i];
                let b = self.slots[j];
                if a.offset < b.offset + b.size && b.offset < a.offset + a.size {
                    let mut s = String::new();
                    s.push_str("slots ");
                    self.push_range(&mut s, i);
                    s.push_str(" and ");
                    self.push_range(&mut s, j);
                    s.push_str(" overlap");
                    proof {
                        assert(self@.overlap(i as int, j as int));
                        assert(s@ =~= self@.overlap_text(i as int, j as int));
                    }
                    return Err(s);
                }
            }
        }
        Ok(())
    }
}

/// Lays slots of these widths one after another.
fn lay_out(widths: &Vec<usize>) -> (slots: Vec<Slot>)
    requires
        padded_total(widths@) <= usize::MAX,
    ensures
        slots@.map_values(|s: Slot| s.size) == widths@,
        forall|s: int|
            0 <= s < slots@.len() ==> (#[trigger] slots@[s]).offset == padded_total(
                widths@.take(s),
            ),
{
    let mut slots: Vec<Slot> = Vec::with_capacity(widths.len());
    let mut cursor: usize = 0;
    for i in 0..widths.len()
        invariant
            padded_total(widths@) <= usize::MAX,
            cursor == padded_total(widths@.take(i as int)),
            slots@.len() == i,
            forall|s: int|
                0 <= s < i ==> (#[trigger] slots@[s]).offset == padded_total(widths@.take(s))
                    && slots@[s].size == widths@[s],
    {
        let size: usize = widths[i];
        slots.push(Slot { offset: cursor, size });
        proof {
            assert(widths@.take(i + 1).drop_last() =~= widths@.take(i as int));
            lemma_padded_total_take(widths@, i + 1);
            lemma_padded_total_is_padded(widths@.take(i as int));
        }
        cursor = align_up(cursor + size, ARENA_ALIGNMENT);
    }
    assert(slots@.map_values(|s: Slot| s.size) =~= widths@);
    slots
}

proof fn lemma_padded_total_is_padded(sizes: Seq<usize>)
    ensures
        padded_total(sizes) >= 0,
        padded_total(sizes) % 128 == 0,
    decreases sizes.len(),
{
    if sizes.len() > 0 {
        lemma_padded_total_is_padded(sizes.drop_last());
    }
}

proof fn lemma_padded_total_take(sizes: Seq<usize>, n: int)
    requires
        0 <= n <= sizes.len(),
    ensures
        padded_total(sizes.take(n)) <= padded_total(sizes),
    decreases sizes.len(),
{
    if n == sizes.len() {
        assert(sizes.take(n) =~= sizes);
    } else {
        assert(sizes.drop_last().take(n) =~= sizes.take(n));
        lemma_padded_total_take(sizes.drop_last(), n);
    }
}

/// One slot per served value, in ordinal order: the slot of each ordinal, and the width of each
/// slot.
fn separate(sizes: &[usize], first: &[usize], last: &[usize], excluded: &[bool]) -> (res: (
    Vec<usize>,
    Vec<usize>,
))
    requires
        Requests::of(sizes, first, last, excluded).well_formed(),
    ensures
        Requests::of(sizes, first, last, excluded).one_each(table(res.0@)),
        Requests::of(sizes, first, last, excluded).widths(table(res.0@), res.1@),
        res.0@.len() == sizes@.len(),
{
    let ghost r = Requests::of(sizes, first, last, excluded);
    let mut assigned: Vec<usize> = Vec::with_capacity(sizes.len());
    let mut widths: Vec<usize> = Vec::with_capacity(sizes.len());
    for i in 0..sizes.len()
        invariant
            r == Requests::of(sizes, first, last, excluded),
            r.well_formed(),
            assigned@.len() == i,
            widths@.len() == r.served_before(i as int),
            widths@.len() <= i,
            forall|j: int|
                0 <= j < i ==> #[trigger] assigned@[j] == (if r.excluded[j] {
                    NO_SLOT as int
                } else {
                    r.served_before(j)
                }),
            forall|j: int|
                0 <= j < i && !r.excluded[j] ==> (#[trigger] assigned@[j]) < widths@.len()
                    && widths@[assigned@[j] as int] == r.sizes[j],
            forall|s: int|
                0 <= s < widths@.len() ==> #[trigger] separated_at(r, assigned@, s, widths@[s]),
    {
        let ghost assigned0 = assigned@;
        let ghost widths0 = widths@;
        if excluded[i] {
            assigned.push(NO_SLOT);
        } else {
            assigned.push(widths.len());
            widths.push(sizes[i]);
        }
        proof {
            assert forall|s: int| 0 <= s < widths@.len() implies #[trigger] separated_at(
                r,
                assigned@,
                s,
                widths@[s],
            ) by {
                if s < widths0.len() {
                    assert(separated_at(r, assigned0, s, widths0[s]));
                    let j = choose|j: int|
                        0 <= j < assigned0.len() && #[trigger] assigned0[j] == s && r.sizes[j]
                            == widths0[s] && !r.excluded[j];
                    assert(assigned@[j] == s);
                } else {
                    assert(assigned@[i as int] == s);
                }
            }
        }
    }
    proof {
        let a = table(assigned@);
        assert forall|s: int| 0 <= s < widths@.len() implies #[trigger] r.occupied(
            a,
            s,
            widths@[s],
        ) by {
            assert(separated_at(r, assigned@, s, widths@[s]));
            let j = choose|j: int|
                0 <= j < assigned@.len() && #[trigger] assigned@[j] == s && r.sizes[j]
                    == widths@[s] && !r.excluded[j];
            assert(r.serves(j));
        }
        assert forall|i: int| 0 <= i < a.len() implies (#[trigger] a[i] is Some
            <==> !r.excluded[i]) && (a[i] is Some ==> a[i]->0 >= 0) by {
            assert(assigned@[i] == (if r.excluded[i] {
                NO_SLOT as int
            } else {
                r.served_before(i)
            }));
        }
        assert forall|i: int| #[trigger] r.serves(i) implies a[i] == Some(r.served_before(i))
            && a[i]->0 < widths@.len() && r.sizes[i] <= widths@[a[i]->0] by {
            assert(assigned@[i] == r.served_before(i));
        }
    }
    (assigned, widths)
}

/// A served value of `width` bytes has been given slot `s`.
spec fn separated_at(r: Requests, assigned: Seq<usize>, s: int, width: usize) -> bool {
    exists|j: int|
        0 <= j < assigned.len() && #[trigger] assigned[j] == s && r.sizes[j] == width
            && !r.excluded[j]
}

/// Build a plan from the activation allocations of a decode step.
///
/// `sizes[i]` is the byte size of the i-th allocation, `first[i]` and `last[i]` are the ordinals
/// between which it is live, both included, and `excluded[i]` keeps it out of the arena without
/// renumbering the ordinals after it.
///
/// Packing assigns slots in order of size, largest first. Start order would let a large value
/// widen a slot that a small one opened.
pub fn plan_from_intervals(
    sizes: &[usize],
    first: &[usize],
    last: &[usize],
    excluded: &[bool],
    layout: ArenaLayout,
) -> (plan: StepPlan)
    requires
        Requests::of(sizes, first, last, excluded).well_formed(),
        Requests::of(sizes, first, last, excluded).addressable(layout),
    ensures
        plan@.plans(Requests::of(sizes, first, last, excluded), layout),
{
    let ghost r = Requests::of(sizes, first, last, excluded);
    let (assigned, widths) = match layout {
        ArenaLayout::Packed => pack(sizes, first, last, excluded),
        ArenaLayout::NonAliasing => separate(sizes, first, last, excluded),
    };
    assert(r.assigned(table(assigned@), layout));
    let slots = lay_out(&widths);
    let mut by_ordinal: Vec<(usize, usize)> = Vec::with_capacity(sizes.len());
    for i in 0..sizes.len()
        invariant
            assigned@.len() == sizes@.len(),
            by_ordinal@.len() == i,
            forall|j: int|
                0 <= j < i ==> #[trigger] by_ordinal@[j] == (assigned@[j], sizes@[j]),
    {
        by_ordinal.push((assigned[i], sizes[i]));
    }
    let plan = StepPlan::new(slots, by_ordinal);
    assert(plan@.assignment() =~= table(assigned@));
    plan
}

/// Build a plan from a recorded sequence of activation allocation sizes.
///
/// `sizes[i]` is the byte size of the i-th allocation in a decode step, and `last_use[i]` is the
/// ordinal of the last allocation that may still be reading it. Each value is live from its own
/// ordinal on.
pub fn plan_from_sizes(sizes: &[usize], last_use: &[usize], layout: ArenaLayout) -> (plan: StepPlan)
    requires
        sizes@.len() == last_use@.len(),
        Requests::from_sizes(sizes@, last_use@).addressable(layout),
    ensures
        plan@.plans(Requests::from_sizes(sizes@, last_use@), layout),
{
    let mut first: Vec<usize> = Vec::with_capacity(sizes.len());
    let mut excluded: Vec<bool> = Vec::with_capacity(sizes.len());
    for i in 0..sizes.len()
        invariant
            first@.len() == i,
            excluded@.len() == i,
            forall|j: int| 0 <= j < i ==> #[trigger] first@[j] == j,
            forall|j: int| 0 <= j < i ==> !#[trigger] excluded@[j],
    {
        first.push(i);
        excluded.push(false);
    }
    proof {
        assert(first@ =~= Seq::new(sizes@.len(), |i: int| i as usize));
        assert(excluded@ =~= Seq::new(sizes@.len(), |i: int| false));
    }
    plan_from_intervals(sizes, first.as_slice(), last_use, excluded.as_slice(), layout)
}

/// What an `ArenaRecorder` has observed, as mathematical values.
pub struct RecorderView {
    /// Size of each allocation, in ordinal order.
    pub sizes: Seq<usize>,
    /// Ordinal at which each allocation was released, while it is not live any more.
    pub freed_at: Seq<Option<usize>>,
    /// The tag and the ordinal of each live value, oldest first.
    pub live: Seq<(u64, usize)>,
}

impl RecorderView {
    /// Every live value is one that was recorded and not freed, and stands in the list once.
    pub open spec fn well_formed(self) -> bool {
        &&& self.freed_at.len() == self.sizes.len()
        &&& forall|p: int|
            0 <= p < self.live.len() ==> (#[trigger] self.live[p]).1 < self.sizes.len()
                && self.freed_at[self.live[p].1 as int] is None
        &&& forall|p: int, q: int|
            0 <= p < q < self.live.len() ==> (#[trigger] self.live[p]).1 != (
            #[trigger] self.live[q]).1
        &&& forall|i: int|
            0 <= i < self.sizes.len() && (#[trigger] self.freed_at[i]) is Some ==> i
                <= self.freed_at[i]->0 < self.sizes.len()
    }

    /// The live value that was tagged `token` last stands at `p`.
    pub open spec fn newest(self, token: u64, p: int) -> bool {
        &&& 0 <= p < self.live.len()
        &&& self.live[p].0 == token
        &&& forall|q: int| p < q < self.live.len() ==> (#[trigger] self.live[q]).0 != token
    }

    pub open spec fn is_live(self, token: u64) -> bool {
        exists|p: int| 0 <= p < self.live.len() && (#[trigger] self.live[p]).0 == token
    }

    /// The state after one more allocation.
    pub open spec fn allocated(self, token: u64, size: usize) -> Self {
        RecorderView {
            sizes: self.sizes.push(size),
            freed_at: self.freed_at.push(None),
            live: self.live.push((token, self.sizes.len() as usize)),
        }
    }

    /// The state after the live value at `p` is released: its interval ends at the last ordinal
    /// issued so far.
    pub open spec fn freed(self, p: int) -> Self {
        RecorderView {
            sizes: self.sizes,
            freed_at: self.freed_at.update(
                self.live[p].1 as int,
                Some((self.sizes.len() - 1) as usize),
            ),
            live: self.live.remove(p),
        }
    }

    /// The last ordinal at which value `i` is live: the end of the step where it was not freed.
    pub open spec fn last_use(self, i: int) -> usize {
        match self.freed_at[i] {
            Some(at) => at,
            None => (self.sizes.len() - 1) as usize,
        }
    }

    pub open spec fn requests(self) -> Requests {
        Requests::from_sizes(self.sizes, Seq::new(self.sizes.len(), |i: int| self.last_use(i)))
    }
}

/// Observes one decode step and derives the plan from it.
///
/// A value is one allocation event, from `record_alloc` to the matching `record_free`. Buffer
/// identity is never consulted, so a buffer that is reused for a later value cannot merge the
/// two lifetimes.
#[derive(Debug)]
pub struct ArenaRecorder {
    sizes: Vec<usize>,
    freed_at: Vec<Option<usize>>,
    live: Vec<(u64, usize)>,
}

impl View for ArenaRecorder {
    type V = RecorderView;

    closed spec fn view(&self) -> RecorderView {
        RecorderView { sizes: self.sizes@, freed_at: self.freed_at@, live: self.live@ }
    }
}

impl Default for ArenaRecorder {
    fn default() -> (r: Self)
        ensures
            r@ == (RecorderView {
                sizes: Seq::empty(),
                freed_at: Seq::empty(),
                live: Seq::empty(),
            }),
    {
        ArenaRecorder { sizes: Vec::new(), freed_at: Vec::new(), live: Vec::new() }
    }
}

impl ArenaRecorder {
    pub fn new() -> (r: Self)
        ensures
            r@ == (RecorderView {
                sizes: Seq::empty(),
                freed_at: Seq::empty(),
                live: Seq::empty(),
            }),
            r@.well_formed(),
    {
        ArenaRecorder { sizes: Vec::new(), freed_at: Vec::new(), live: Vec::new() }
    }

    /// Record an allocation of `size` bytes, tagged with a `token` of the caller's choice that
    /// `record_free` will use to close it.
    pub fn record_alloc(&mut self, token: u64, size: usize)
        requires
            old(self)@.well_formed(),
        ensures
            final(self)@.well_formed(),
            final(self)@ == old(self)@.allocated(token, size),
    {
        let ordinal: usize = self.sizes.len();
        self.sizes.push(size);
        self.freed_at.push(None);
        self.live.push((token, ordinal));
    }

    /// Record that the value tagged `token` has been released. A tag that no live value carries
    /// changes nothing; where several carry it, the newest is the one released.
    pub fn record_free(&mut self, token: u64)
        requires
            old(self)@.well_formed(),
        ensures
            final(self)@.well_formed(),
            !old(self)@.is_live(token) ==> final(self)@ == old(self)@,
            old(self)@.is_live(token) ==> exists|p: int| #[trigger]
                old(self)@.newest(token, p) && final(self)@ == old(self)@.freed(p),
    {
        let mut end: usize = self.live.len();
        while end > 0
            invariant
                self@ == old(self)@,
                self@.well_formed(),
                end <= self@.live.len(),
                forall|q: int| end <= q < self@.live.len() ==> (#[trigger] self@.live[q]).0 != token,
            decreases end,
        {
            let p: usize = end - 1;
            if self.live[p].0 == token {
                assert(self@.live[p as int] == self.live@[p as int]);
                let (_, ordinal) = self.live.remove(p);
                let at: usize = self.sizes.len() - 1;
                self.freed_at.set(ordinal, Some(at));
                proof {
                    assert(old(self)@.newest(token, p as int));
                    assert(self@ == old(self)@.freed(p as int));
                }
                return;
            }
            end = p;
        }
    }

    /// Allocations recorded so far.
    pub fn len(&self) -> (n: usize)
        ensures
            n == self@.sizes.len(),
    {
        self.sizes.len()
    }

    pub fn is_empty(&self) -> (b: bool)
        ensures
            b == (self@.sizes.len() == 0),
    {
        self.sizes.is_empty()
    }

    /// Build a plan from what was observed.
    ///
    /// A value never freed is live to the end of the step.
    pub fn plan(&self, layout: ArenaLayout) -> (plan: StepPlan)
        requires
            self@.well_formed(),
            self@.requests().addressable(layout),
        ensures
            plan@.plans(self@.requests(), layout),
    {
        let mut last_use: Vec<usize> = Vec::with_capacity(self.sizes.len());
        for i in 0..self.sizes.len()
            invariant
                self@.well_formed(),
                last_use@.len() == i,
                forall|j: int| 0 <= j < i ==> #[trigger] last_use@[j] == self@.last_use(j),
        {
            let end: usize = self.sizes.len() - 1;
            assert(self@.freed_at[i as int] == self.freed_at@[i as int]);
            last_use.push(match self.freed_at[i] {
                Some(at) => at,
                None => end,
            });
        }
        assert(last_use@ =~= self@.requests().last);
        plan_from_sizes(self.sizes.as_slice(), last_use.as_slice(), layout)
    }

    /// Forget everything, to record a fresh step.
    pub fn reset(&mut self)
        ensures
            final(self)@ == (RecorderView {
                sizes: Seq::empty(),
                freed_at: Seq::empty(),
                live: Seq::empty(),
            }),
            final(self)@.well_formed(),
    {
        self.sizes.clear();
        self.freed_at.clear();
        self.live.clear();
    }
}

proof fn lemma_padded_covers(x: int)
    requires
        x >= 0,
    ensures
        padded(x) >= x,
        padded(x) % 128 == 0,
{
}

proof fn lemma_slot_ends(p: PlanView, s: int)
    requires
        p.laid_out(),
        0 <= s < p.slots.len(),
    ensures
        p.slots[s].offset % 128 == 0,
        p.slots[s].offset + p.slots[s].size <= padded_total(p.widths().take(s + 1)),
{
    let w = p.widths();
    assert(w.take(s + 1).drop_last() =~= w.take(s));
    assert(w.take(s + 1).last() == p.slots[s].size);
    lemma_padded_total_is_padded(w.take(s));
    lemma_padded_covers(p.slots[s].size as int);
}

proof fn lemma_slots_in_order(p: PlanView, s: int, t: int)
    requires
        p.laid_out(),
        0 <= s < t < p.slots.len(),
    ensures
        p.slots[s].offset + p.slots[s].size <= p.slots[t].offset,
{
    let w = p.widths();
    lemma_slot_ends(p, s);
    assert(w.take(t).take(s + 1) =~= w.take(s + 1));
    lemma_padded_total_take(w.take(t), s + 1);
}

/// Every plan that the planner makes passes `check_disjoint`: its slots are aligned, none
/// overlaps another, and each ends within what a `usize` can count.
pub proof fn law_planned_slots_are_disjoint(p: PlanView, r: Requests, layout: ArenaLayout)
    requires
        r.well_formed(),
        r.addressable(layout),
        p.plans(r, layout),
    ensures
        p.ends_fit(),
        p.disjoint(),
        p.in_range(),
{
    assert forall|s: int| 0 <= s < p.slots.len() implies (#[trigger] p.slots[s]).offset
        + p.slots[s].size <= usize::MAX && p.slots[s].offset % 128 == 0 by {
        lemma_slot_ends(p, s);
        lemma_padded_total_take(p.widths(), s + 1);
    }
    assert forall|i: int, j: int| !#[trigger] p.overlap(i, j) by {
        if 0 <= i < j < p.slots.len() {
            lemma_slots_in_order(p, i, j);
        }
    }
    assert forall|i: int| 0 <= i < p.ordinals.len() implies (#[trigger] p.ordinals[i]).0 == NO_SLOT
        || p.ordinals[i].0 < p.slots.len() by {
        if p.ordinals[i].0 != NO_SLOT {
            assert(p.assignment()[i] == p.slot_of(i));
            assert(r.serves(i));
        }
    }
}

/// Every served value fits in the slot it is given.
pub proof fn law_values_fit_their_slots(p: PlanView, r: Requests, layout: ArenaLayout, i: int)
    requires
        p.plans(r, layout),
        r.serves(i),
    ensures
        p.slot_of(i) matches Some(s) && 0 <= s < p.slots.len() && r.sizes[i] <= p.slots[s].size,
{
    let a = p.assignment();
    assert(a[i] == p.slot_of(i));
    assert(a[i] is Some);
    assert(p.widths()[a[i]->0] == p.slots[a[i]->0].size);
}

/// Two values that are live together are never given a byte in common, in either layout.
pub proof fn law_live_values_never_share_bytes(
    p: PlanView,
    r: Requests,
    layout: ArenaLayout,
    i: int,
    j: int,
)
    requires
        r.well_formed(),
        p.plans(r, layout),
        r.serves(i),
        r.serves(j),
        i != j,
        r.clash(i, j),
    ensures
        p.slot_of(i) != p.slot_of(j),
        p.offset_of(i)->0 + r.sizes[i] <= p.offset_of(j)->0 || p.offset_of(j)->0 + r.sizes[j]
            <= p.offset_of(i)->0,
{
    let a = p.assignment();
    law_values_fit_their_slots(p, r, layout, i);
    law_values_fit_their_slots(p, r, layout, j);
    assert(a[i] == p.slot_of(i) && a[j] == p.slot_of(j));
    if layout == ArenaLayout::Packed {
        lemma_before_is_total(r, i, j);
        if a[i] == a[j] {
            if r.before(i, j) {
                assert(r.clash(j, i));
                assert(r.blocked(a, j, a[j]->0));
            } else {
                assert(r.blocked(a, i, a[i]->0));
            }
        }
    } else {
        lemma_served_before_is_strict(r, i, j);
    }
    let s = a[i]->0;
    let t = a[j]->0;
    if s < t {
        lemma_slots_in_order(p, s, t);
    } else {
        lemma_slots_in_order(p, t, s);
    }
}

proof fn lemma_served_before_is_monotone(r: Requests, i: int, j: int)
    requires
        r.well_formed(),
        0 <= i <= j <= r.len(),
    ensures
        0 <= r.served_before(i) <= r.served_before(j) <= j,
    decreases j,
{
    if j > 0 {
        if i < j {
            lemma_served_before_is_monotone(r, i, j - 1);
        } else {
            lemma_served_before_is_monotone(r, i - 1, j - 1);
        }
    }
}

proof fn lemma_served_before_is_strict(r: Requests, i: int, j: int)
    requires
        r.well_formed(),
        r.serves(i),
        r.serves(j),
        i != j,
    ensures
        r.served_before(i) != r.served_before(j),
        i < j ==> r.served_before(i) < r.served_before(j),
{
    if i < j {
        lemma_served_before_is_monotone(r, i + 1, j);
    } else {
        lemma_served_before_is_monotone(r, j + 1, i);
    }
}

/// In the reference layout no two values share a byte, whatever their lifetimes.
pub proof fn law_reference_never_aliases(p: PlanView, r: Requests, i: int, j: int)
    requires
        r.well_formed(),
        p.plans(r, ArenaLayout::NonAliasing),
        r.serves(i),
        r.serves(j),
        i < j,
    ensures
        p.slot_of(i) != p.slot_of(j),
        p.offset_of(i)->0 + r.sizes[i] <= p.offset_of(j)->0,
{
    let a = p.assignment();
    law_values_fit_their_slots(p, r, ArenaLayout::NonAliasing, i);
    law_values_fit_their_slots(p, r, ArenaLayout::NonAliasing, j);
    assert(a[i] == p.slot_of(i) && a[j] == p.slot_of(j));
    lemma_served_before_is_strict(r, i, j);
    lemma_slots_in_order(p, a[i]->0, a[j]->0);
}

/// The padded bytes of the values among the first `n` whose slot is below `s`.
spec fn held_below(r: Requests, a: Seq<Option<int>>, s: int, n: int) -> int
    decreases n,
{
    if n <= 0 {
        0
    } else {
        held_below(r, a, s, n - 1) + if a[n - 1] is Some && a[n - 1]->0 < s {
            padded(r.sizes[n - 1] as int)
        } else {
            0
        }
    }
}

proof fn lemma_held_below_grows(r: Requests, a: Seq<Option<int>>, s: int, n: int, i: int)
    requires
        0 <= n <= r.len(),
        a.len() == r.len(),
        0 <= i < r.len(),
        a[i] == Some(s),
    ensures
        held_below(r, a, s + 1, n) >= held_below(r, a, s, n) + (if i < n {
            padded(r.sizes[i] as int)
        } else {
            0
        }),
    decreases n,
{
    if n > 0 {
        lemma_held_below_grows(r, a, s, n - 1, i);
        lemma_padded_covers(r.sizes[n - 1] as int);
    }
}

proof fn lemma_held_below_bound(r: Requests, a: Seq<Option<int>>, s: int, n: int)
    requires
        0 <= n <= r.len(),
    ensures
        0 <= held_below(r, a, s, n) <= padded_total(r.sizes.take(n)),
    decreases n,
{
    if n > 0 {
        lemma_held_below_bound(r, a, s, n - 1);
        assert(r.sizes.take(n).drop_last() =~= r.sizes.take(n - 1));
        lemma_padded_covers(r.sizes[n - 1] as int);
    }
}

proof fn lemma_widths_within_held(
    r: Requests,
    a: Seq<Option<int>>,
    w: Seq<usize>,
    s: int,
)
    requires
        a.len() == r.len(),
        forall|t: int| 0 <= t < w.len() ==> #[trigger] r.occupied(a, t, w[t]),
        0 <= s <= w.len(),
    ensures
        padded_total(w.take(s)) <= held_below(r, a, s, r.len() as int),
    decreases s,
{
    if s == 0 {
        lemma_held_below_bound(r, a, 0, r.len() as int);
    } else {
        lemma_widths_within_held(r, a, w, s - 1);
        assert(w.take(s).drop_last() =~= w.take(s - 1));
        assert(r.occupied(a, s - 1, w[s - 1]));
        let i = choose|i: int| #[trigger]
            r.serves(i) && a[i] == Some(s - 1) && r.sizes[i] == w[s - 1];
        lemma_held_below_grows(r, a, s - 1, r.len() as int, i);
    }
}

/// Neither layout takes more padded bytes than giving every value its own place, so a step whose
/// padded sizes can be counted can be laid out.
pub proof fn law_layouts_are_bounded(r: Requests, layout: ArenaLayout)
    requires
        r.well_formed(),
    ensures
        forall|a: Seq<Option<int>>, w: Seq<usize>|
            #[trigger] r.assigned(a, layout) && #[trigger] r.widths(a, w) ==> padded_total(w)
                <= padded_total(r.sizes),
        padded_total(r.sizes) <= usize::MAX ==> r.addressable(layout),
{
    assert forall|a: Seq<Option<int>>, w: Seq<usize>|
        #[trigger] r.assigned(a, layout) && #[trigger] r.widths(a, w) implies padded_total(w)
        <= padded_total(r.sizes) by {
        lemma_widths_within_held(r, a, w, w.len() as int);
        lemma_held_below_bound(r, a, w.len() as int, r.len() as int);
        assert(w.take(w.len() as int) =~= w);
        assert(r.sizes.take(r.len() as int) =~= r.sizes);
    }
}

proof fn lemma_reference_width(p: PlanView, r: Requests, i: int)
    requires
        r.well_formed(),
        p.plans(r, ArenaLayout::NonAliasing),
        r.serves(i),
    ensures
        p.slot_of(i) == Some(r.served_before(i)),
        0 <= r.served_before(i) < p.slots.len(),
        p.slots[r.served_before(i)].size == r.sizes[i],
{
    let a = p.assignment();
    let s = r.served_before(i);
    assert(a[i] == p.slot_of(i));
    law_values_fit_their_slots(p, r, ArenaLayout::NonAliasing, i);
    assert(r.occupied(a, s, p.widths()[s]));
    let j = choose|j: int| #[trigger]
        r.serves(j) && a[j] == Some(s) && r.sizes[j] == p.widths()[s];
    if j != i {
        lemma_served_before_is_strict(r, i, j);
    }
}

proof fn lemma_reference_slot_count(p: PlanView, r: Requests)
    requires
        r.well_formed(),
        p.plans(r, ArenaLayout::NonAliasing),
    ensures
        p.slots.len() == r.served_before(r.len() as int),
{
    let n = r.len() as int;
    let a = p.assignment();
    let k = r.served_before(n);
    lemma_served_before_is_monotone(r, 0, n);
    if p.slots.len() > k {
        assert(r.occupied(a, k, p.widths()[k]));
        let j = choose|j: int| #[trigger]
            r.serves(j) && a[j] == Some(k) && r.sizes[j] == p.widths()[k];
        lemma_served_before_is_monotone(r, j + 1, n);
    } else if p.slots.len() < k {
        lemma_last_served(r, n);
        let i = choose|i: int| #[trigger] r.serves(i) && r.served_before(i) == k - 1;
        lemma_reference_width(p, r, i);
    }
}

proof fn lemma_last_served(r: Requests, n: int)
    requires
        r.well_formed(),
        0 <= n <= r.len(),
        r.served_before(n) > 0,
    ensures
        exists|i: int| #[trigger] r.serves(i) && r.served_before(i) == r.served_before(n) - 1,
    decreases n,
{
    if r.excluded[n - 1] {
        lemma_last_served(r, n - 1);
        let i = choose|i: int| #[trigger]
            r.serves(i) && r.served_before(i) == r.served_before(n - 1) - 1;
        assert(r.serves(i));
    } else {
        assert(r.serves(n - 1));
    }
}

proof fn lemma_reference_cursor(p: PlanView, r: Requests, i: int)
    requires
        r.well_formed(),
        p.plans(r, ArenaLayout::NonAliasing),
        0 <= i <= r.len(),
    ensures
        0 <= r.served_before(i) <= p.slots.len(),
        padded_total(p.widths().take(r.served_before(i))) == p.cursor_at(i),
    decreases i,
{
    lemma_reference_slot_count(p, r);
    lemma_served_before_is_monotone(r, i, r.len() as int);
    if i > 0 {
        let s = r.served_before(i - 1);
        lemma_reference_cursor(p, r, i - 1);
        assert(p.requests().take(i).drop_last() =~= p.requests().take(i - 1));
        assert(p.assignment()[i - 1] == p.slot_of(i - 1));
        if !r.excluded[i - 1] {
            assert(r.serves(i - 1));
            lemma_reference_width(p, r, i - 1);
            assert(p.widths().take(s + 1).drop_last() =~= p.widths().take(s));
            assert(p.ordinals[i - 1].1 == r.sizes[i - 1]);
        }
    }
}

/// A forward-only cursor reproduces the reference layout: every ordinal that is served, and asks
/// for at least one byte, gets from the cursor the offset that the plan gives it.
pub proof fn law_reference_is_bump_reproducible(p: PlanView, r: Requests)
    requires
        r.well_formed(),
        p.plans(r, ArenaLayout::NonAliasing),
        forall|i: int| #[trigger] r.serves(i) ==> r.sizes[i] > 0,
    ensures
        p.bump_reproducible(),
        padded_total(p.requests()) == padded_total(p.widths()),
        p.bytes() <= padded_total(p.requests()),
{
    let n = r.len() as int;
    assert forall|i: int| 0 <= i < p.ordinals.len() implies #[trigger] p.offset_of(i) == p.bumped(
        i,
    ) by {
        assert(p.assignment()[i] == p.slot_of(i));
        assert(p.ordinals[i].1 == r.sizes[i]);
        if !r.excluded[i] {
            assert(r.serves(i));
            lemma_reference_width(p, r, i);
            lemma_reference_cursor(p, r, i);
        }
    }
    lemma_reference_cursor(p, r, n);
    lemma_reference_slot_count(p, r);
    assert(p.requests().take(n) =~= p.requests());
    assert(p.widths().take(p.slots.len() as int) =~= p.widths());
    lemma_bytes_within_total(p, p.slots.len() as int);
    assert(p.slots.take(p.slots.len() as int) =~= p.slots);
}

proof fn lemma_bytes_within_total(p: PlanView, s: int)
    requires
        p.laid_out(),
        0 <= s <= p.slots.len(),
    ensures
        slots_end(p.slots.take(s)) <= padded_total(p.widths().take(s)),
    decreases s,
{
    if s > 0 {
        lemma_bytes_within_total(p, s - 1);
        lemma_slot_ends(p, s - 1);
        assert(p.slots.take(s).drop_last() =~= p.slots.take(s - 1));
        assert(p.widths().take(s).take(s - 1) =~= p.widths().take(s - 1));
        lemma_padded_total_take(p.widths().take(s), s - 1);
    }
}

proof fn lemma_held_below_reference(p: PlanView, r: Requests, a: Seq<Option<int>>, s: int, n: int)
    requires
        r.well_formed(),
        p.plans(r, ArenaLayout::NonAliasing),
        r.covers(a),
        0 <= n <= r.len(),
    ensures
        held_below(r, a, s, n) <= p.cursor_at(n),
    decreases n,
{
    if n > 0 {
        lemma_held_below_reference(p, r, a, s, n - 1);
        assert(p.requests().take(n).drop_last() =~= p.requests().take(n - 1));
        assert(p.assignment()[n - 1] == p.slot_of(n - 1));
        assert(p.ordinals[n - 1].1 == r.sizes[n - 1]);
        assert(a[n - 1] is Some <==> !r.excluded[n - 1]);
        lemma_padded_covers(r.sizes[n - 1] as int);
    }
}

/// Packing never takes more padded bytes than the reference layout of the same step.
pub proof fn law_packing_never_exceeds_the_reference(packed: PlanView, reference: PlanView, r: Requests)
    requires
        r.well_formed(),
        packed.plans(r, ArenaLayout::Packed),
        reference.plans(r, ArenaLayout::NonAliasing),
    ensures
        padded_total(packed.widths()) <= padded_total(reference.widths()),
        packed.bytes() <= padded_total(reference.widths()),
{
    let n = r.len() as int;
    let a = packed.assignment();
    let w = packed.widths();
    lemma_widths_within_held(r, a, w, w.len() as int);
    lemma_held_below_reference(reference, r, a, w.len() as int, n);
    lemma_reference_cursor(reference, r, n);
    lemma_reference_slot_count(reference, r);
    assert(w.take(w.len() as int) =~= w);
    assert(reference.widths().take(reference.slots.len() as int) =~= reference.widths());
    lemma_bytes_within_total(packed, packed.slots.len() as int);
    assert(packed.slots.take(packed.slots.len() as int) =~= packed.slots);
}

proof fn lemma_held_below_without(r: Requests, a: Seq<Option<int>>, v: int, s: int, n: int)
    requires
        a.len() == r.len(),
        0 <= v < r.len(),
        a[v] is Some && a[v]->0 < s,
        0 <= n <= r.len(),
    ensures
        held_below(r, a, s, n) == held_below(r, a.update(v, None), s, n) + (if v < n {
            padded(r.sizes[v] as int)
        } else {
            0
        }),
    decreases n,
{
    if n > 0 {
        lemma_held_below_without(r, a, v, s, n - 1);
    }
}

/// Where value `v` shares its slot with value `k`, which is as wide as the slot, every slot has an
/// occupant without `v`.
proof fn lemma_occupied_without(
    r: Requests,
    a: Seq<Option<int>>,
    w: Seq<usize>,
    k: int,
    v: int,
)
    requires
        r.covers(a),
        r.widths(a, w),
        r.serves(k),
        r.serves(v),
        k != v,
        a[k] == a[v],
        r.sizes[k] == w[a[k]->0],
    ensures
        forall|s: int| 0 <= s < w.len() ==> #[trigger] r.occupied(a.update(v, None), s, w[s]),
{
    let b = a.update(v, None);
    assert forall|s: int| 0 <= s < w.len() implies #[trigger] r.occupied(b, s, w[s]) by {
        if Some(s) == a[v] {
            assert(r.serves(k) && b[k] == Some(s) && r.sizes[k] == w[s]);
        } else {
            assert(r.occupied(a, s, w[s]));
            let l = choose|l: int| #[trigger]
                r.serves(l) && a[l] == Some(s) && r.sizes[l] == w[s];
            assert(r.serves(l) && b[l] == Some(s));
        }
    }
}

/// A value that shares its slot with another is saved in full, or the other is.
proof fn lemma_sharing_saves(p: PlanView, r: Requests, i: int, j: int)
    requires
        r.well_formed(),
        p.plans(r, ArenaLayout::Packed),
        r.serves(i),
        r.serves(j),
        i != j,
        p.slot_of(i) == p.slot_of(j),
        r.sizes[i] > 0,
        r.sizes[j] > 0,
    ensures
        padded_total(p.widths()) + 128 <= held_below(
            r,
            p.assignment(),
            p.slots.len() as int,
            r.len() as int,
        ),
{
    let n = r.len() as int;
    let a = p.assignment();
    let w = p.widths();
    law_values_fit_their_slots(p, r, ArenaLayout::Packed, i);
    assert(a[i] == p.slot_of(i) && a[j] == p.slot_of(j));
    let t = a[i]->0;
    assert(r.occupied(a, t, w[t]));
    let k = choose|k: int| #[trigger] r.serves(k) && a[k] == Some(t) && r.sizes[k] == w[t];
    let v = if k == i {
        j
    } else {
        i
    };
    lemma_occupied_without(r, a, w, k, v);
    lemma_widths_within_held(r, a.update(v, None), w, w.len() as int);
    lemma_held_below_without(r, a, v, w.len() as int, n);
    assert(w.take(w.len() as int) =~= w);
    assert(padded(r.sizes[v] as int) >= 128);
}

/// What is laid out ends within one aligned unit of what it takes with padding.
proof fn lemma_end_is_near(p: PlanView)
    requires
        p.laid_out(),
        p.slots.len() > 0,
    ensures
        padded_total(p.widths()) < p.bytes() + 128,
{
    let w = p.widths();
    let m = p.slots.len() as int;
    assert(p.slots[m - 1].offset == padded_total(w.take(m - 1)));
    assert(w.drop_last() =~= w.take(m - 1));
    assert(w[m - 1] == p.slots[m - 1].size);
    assert(padded(w[m - 1] as int) < w[m - 1] + 128);
}

/// The reference layout is strictly larger wherever packing does anything: where two values of at
/// least one byte share a slot, packing saves an aligned unit at least in padded bytes, and its
/// last byte ends earlier.
pub proof fn law_packing_beats_the_reference(
    packed: PlanView,
    reference: PlanView,
    r: Requests,
    i: int,
    j: int,
)
    requires
        r.well_formed(),
        packed.plans(r, ArenaLayout::Packed),
        reference.plans(r, ArenaLayout::NonAliasing),
        r.serves(i),
        r.serves(j),
        i != j,
        packed.slot_of(i) == packed.slot_of(j),
        r.sizes[i] > 0,
        r.sizes[j] > 0,
    ensures
        padded_total(packed.widths()) + 128 <= padded_total(reference.widths()),
        packed.bytes() < reference.bytes(),
{
    let n = r.len() as int;
    lemma_sharing_saves(packed, r, i, j);
    lemma_held_below_reference(reference, r, packed.assignment(), packed.slots.len() as int, n);
    lemma_reference_cursor(reference, r, n);
    lemma_reference_slot_count(reference, r);
    assert(reference.widths().take(reference.slots.len() as int) =~= reference.widths());
    lemma_bytes_within_total(packed, packed.slots.len() as int);
    assert(packed.slots.take(packed.slots.len() as int) =~= packed.slots);
    assert(packed.widths().take(packed.slots.len() as int) =~= packed.widths());
    lemma_reference_width(reference, r, i);
    lemma_end_is_near(reference);
}

/// The served values that are placed before `i`.
spec fn earlier(r: Requests, i: int) -> Set<int> {
    vstd::set_lib::set_int_range(0, r.len() as int).filter(|j: int| r.serves(j) && r.before(j, i))
}

proof fn lemma_earlier_shrinks(r: Requests, i: int, j: int)
    requires
        r.serves(j),
        r.before(j, i),
    ensures
        earlier(r, j).len() < earlier(r, i).len(),
{
    vstd::set_lib::lemma_int_range(0, r.len() as int);
    assert(earlier(r, j).subset_of(earlier(r, i).remove(j))) by {
        assert forall|k: int| earlier(r, j).contains(k) implies earlier(r, i).remove(j).contains(
            k,
        ) by {
            lemma_before_is_transitive(r, k, j, i);
        }
    }
    vstd::set_lib::lemma_len_subset(earlier(r, j), earlier(r, i).remove(j));
}

proof fn lemma_first_fit_is_unique(r: Requests, a: Seq<Option<int>>, b: Seq<Option<int>>, i: int)
    requires
        r.well_formed(),
        r.first_fit(a),
        r.first_fit(b),
        r.serves(i),
    ensures
        a[i] == b[i],
    decreases earlier(r, i).len(),
{
    assert forall|j: int| #[trigger] r.serves(j) && r.before(j, i) implies a[j] == b[j] by {
        lemma_earlier_shrinks(r, i, j);
        lemma_first_fit_is_unique(r, a, b, j);
    }
    assert forall|s: int| r.blocked(a, i, s) == r.blocked(b, i, s) by {
        if r.blocked(a, i, s) {
            let j = choose|j: int|
                #![trigger r.serves(j)]
                r.serves(j) && r.before(j, i) && a[j] == Some(s) && r.clash(i, j);
            assert(r.serves(j) && b[j] == Some(s));
        }
        if r.blocked(b, i, s) {
            let j = choose|j: int|
                #![trigger r.serves(j)]
                r.serves(j) && r.before(j, i) && b[j] == Some(s) && r.clash(i, j);
            assert(r.serves(j) && a[j] == Some(s));
        }
    }
    if a[i]->0 < b[i]->0 {
        assert(r.blocked(b, i, a[i]->0));
        assert(r.blocked(a, i, a[i]->0));
    } else if b[i]->0 < a[i]->0 {
        assert(r.blocked(a, i, b[i]->0));
        assert(r.blocked(b, i, b[i]->0));
    }
}

/// A recorded step has one plan per layout: the planner's result is a function of its arguments.
pub proof fn law_plan_is_determined(p: PlanView, q: PlanView, r: Requests, layout: ArenaLayout)
    requires
        r.well_formed(),
        p.plans(r, layout),
        q.plans(r, layout),
    ensures
        p == q,
{
    let a = p.assignment();
    let b = q.assignment();
    assert(a =~= b) by {
        assert forall|i: int| 0 <= i < a.len() implies a[i] == b[i] by {
            if r.excluded[i] {
                assert(a[i] is None && b[i] is None);
            } else {
                assert(r.serves(i));
                if layout == ArenaLayout::Packed {
                    lemma_first_fit_is_unique(r, a, b, i);
                }
            }
        }
    }
    lemma_widths_are_unique(r, a, p.widths(), q.widths());
    assert(p.slots =~= q.slots) by {
        assert forall|s: int| 0 <= s < p.slots.len() implies p.slots[s] == q.slots[s] by {
            assert(p.widths()[s] == p.slots[s].size);
            assert(q.widths()[s] == q.slots[s].size);
        }
    }
    assert(p.ordinals =~= q.ordinals) by {
        assert forall|i: int| 0 <= i < p.ordinals.len() implies p.ordinals[i] == q.ordinals[i] by {
            assert(a[i] == p.slot_of(i) && b[i] == q.slot_of(i));
            assert(p.ordinals[i].1 == r.sizes[i]);
            assert(q.ordinals[i].1 == r.sizes[i]);
        }
    }
}

proof fn lemma_width_within(r: Requests, a: Seq<Option<int>>, v: Seq<usize>, w: Seq<usize>, s: int)
    requires
        r.widths(a, v),
        r.widths(a, w),
        0 <= s < v.len(),
    ensures
        s < w.len(),
        v[s] <= w[s],
{
    assert(r.occupied(a, s, v[s]));
    let i = choose|i: int| #[trigger] r.serves(i) && a[i] == Some(s) && r.sizes[i] == v[s];
    assert(r.serves(i));
}

proof fn lemma_widths_are_unique(r: Requests, a: Seq<Option<int>>, v: Seq<usize>, w: Seq<usize>)
    requires
        r.widths(a, v),
        r.widths(a, w),
    ensures
        v == w,
{
    if v.len() < w.len() {
        lemma_width_within(r, a, w, v, v.len() as int);
    } else if w.len() < v.len() {
        lemma_width_within(r, a, v, w, w.len() as int);
    }
    assert forall|s: int| 0 <= s < v.len() implies v[s] == w[s] by {
        lemma_width_within(r, a, v, w, s);
        lemma_width_within(r, a, w, v, s);
    }
    assert(v =~= w);
}

/// A recorded value is live together with a later one exactly when it was not freed before the
/// later one was allocated. So a value that is never freed clashes with every later value, and a
/// buffer that is freed and handed out again carries two values that do not clash.
pub proof fn law_recorded_liveness(v: RecorderView, i: int, j: int)
    requires
        v.well_formed(),
        0 <= i < j < v.sizes.len(),
        v.sizes.len() <= usize::MAX,
    ensures
        v.requests().clash(i, j) <==> v.last_use(i) >= j,
        v.freed_at[i] is None ==> v.requests().clash(i, j),
        v.freed_at[i] matches Some(at) ==> (v.requests().clash(i, j) <==> at >= j),
{
    assert(v.freed_at[j] is Some ==> v.freed_at[j]->0 >= j);
}

/// What an arena has done.
#[derive(Debug, Clone, Copy, PartialEq, Eq, Structural)]
pub struct ArenaCounters {
    /// Allocation requests offered to the arena.
    pub offers: u64,
    /// Requests served from a slot.
    pub hits: u64,
    /// Requests declined because the size did not match the ordinal's slot, or because the
    /// ordinal has none.
    pub declined_size: u64,
    /// Requests past the end of the plan.
    pub declined_exhausted: u64,
    /// Decode steps begun.
    pub steps: u64,
}

impl Default for ArenaCounters {
    fn default() -> (c: Self)
        ensures
            c == (ArenaCounters {
                offers: 0,
                hits: 0,
                declined_size: 0,
                declined_exhausted: 0,
                steps: 0,
            }),
    {
        ArenaCounters { offers: 0, hits: 0, declined_size: 0, declined_exhausted: 0, steps: 0 }
    }
}

/// The region of `base` that a slot is.
pub open spec fn region(base: Buffer, slot: Slot) -> Buffer {
    Buffer {
        raw: base.raw,
        raw_length: base.raw_length,
        raw_contents: base.raw_contents,
        base_offset: (base.base_offset + slot.offset) as usize,
        view_length: Some(slot.size),
    }
}

/// An arena as mathematical values.
pub struct ArenaView {
    pub base: Buffer,
    pub plan: PlanView,
    pub layout: ArenaLayout,
    /// What the pool handed out for the slots.
    pub handles: Seq<PooledBuffer>,
    pub counters: ArenaCounters,
    /// Allocation ordinal within the current step.
    pub ordinal: usize,
    /// A step is open.
    pub active: bool,
}

/// What becomes of a request.
pub enum Offer {
    /// No step is open: the arena does not even count it.
    Closed,
    /// The step is longer than the plan.
    Exhausted,
    /// The plan has another size for this ordinal, or no slot.
    Mismatch,
    /// The request is served from this slot.
    Served(int),
}

impl ArenaView {
    /// There is a handle of the pool for each slot, which addresses the region that the slot is.
    pub open spec fn holds_its_slots(self) -> bool {
        &&& self.handles.len() == self.plan.slots.len()
        &&& forall|s: int|
            0 <= s < self.handles.len() ==> (#[trigger] self.handles[s]).is_pooled()
                && self.handles[s].spec_buffer() == region(self.base, self.plan.slots[s])
                && self.handles[s].spec_size() == self.plan.slots[s].size
    }

    /// What becomes of a request of `size` bytes.
    pub open spec fn offer(self, size: usize) -> Offer {
        if !self.active {
            Offer::Closed
        } else if self.ordinal >= self.plan.ordinals.len() {
            Offer::Exhausted
        } else if self.plan.ordinals[self.ordinal as int].1 != size || self.plan.slot_of(
            self.ordinal as int,
        ) is None {
            Offer::Mismatch
        } else {
            Offer::Served(self.plan.slot_of(self.ordinal as int)->0)
        }
    }

    /// The arena after a request of `size` bytes.
    pub open spec fn offered(self, size: usize) -> Self {
        if !self.active {
            self
        } else {
            let c = self.counters;
            ArenaView {
                ordinal: if self.ordinal == usize::MAX {
                    0
                } else {
                    (self.ordinal + 1) as usize
                },
                counters: ArenaCounters {
                    offers: (c.offers + 1) as u64,
                    hits: (c.hits + if self.offer(size) is Served {
                        1int
                    } else {
                        0int
                    }) as u64,
                    declined_size: (c.declined_size + if self.offer(size) is Mismatch {
                        1int
                    } else {
                        0int
                    }) as u64,
                    declined_exhausted: (c.declined_exhausted + if self.offer(size) is Exhausted {
                        1int
                    } else {
                        0int
                    }) as u64,
                    steps: c.steps,
                },
                ..self
            }
        }
    }
}

/// The activation arena.
///
/// Its slot handles are taken from the pool once and held for good, so no free list ever sees
/// them.
#[derive(Debug)]
pub struct Arena {
    base: Buffer,
    plan: StepPlan,
    layout: ArenaLayout,
    slot_handles: Vec<PooledBuffer>,
    counters: ArenaCounters,
    ordinal: usize,
    active: bool,
}

impl View for Arena {
    type V = ArenaView;

    closed spec fn view(&self) -> ArenaView {
        ArenaView {
            base: self.base,
            plan: self.plan@,
            layout: self.layout,
            handles: self.slot_handles@,
            counters: self.counters,
            ordinal: self.ordinal,
            active: self.active,
        }
    }
}

/// The bytes that the slots reserve between them.
pub open spec fn reserved(slots: Seq<Slot>) -> int {
    sums::total(slots, |s: Slot| s.size as int)
}

proof fn lemma_reserved_take(slots: Seq<Slot>, i: int)
    requires
        0 <= i < slots.len(),
    ensures
        0 <= reserved(slots.take(i)),
        reserved(slots.take(i + 1)) == reserved(slots.take(i)) + slots[i].size,
        reserved(slots.take(i + 1)) <= reserved(slots),
{
    let f = |s: Slot| s.size as int;
    assert(slots.take(i + 1).drop_last() =~= slots.take(i));
    assert(slots =~= slots.take(i + 1) + slots.skip(i + 1));
    sums::lemma_total_add(slots.take(i + 1), slots.skip(i + 1), f);
    sums::lemma_total_bounds(slots.skip(i + 1), f);
    sums::lemma_total_bounds(slots.take(i), f);
}

proof fn lemma_slots_end_bounds(slots: Seq<Slot>, i: int)
    requires
        0 <= i < slots.len(),
    ensures
        slots[i].offset + slots[i].size <= slots_end(slots),
    decreases slots.len(),
{
    if i < slots.len() - 1 {
        assert(slots.drop_last()[i] == slots[i]);
        lemma_slots_end_bounds(slots.drop_last(), i);
    }
}

impl Arena {
    pub open spec fn well_formed(self) -> bool {
        self@.holds_its_slots()
    }

    /// What is said of a base buffer that is too short.
    pub open spec fn short_text(length: usize, needed: int) -> Seq<char> {
        "arena buffer is "@ + text::decimal(length as nat) + " B, plan needs "@ + text::decimal(
            needed as nat,
        ) + " B"@
    }

    /// Cuts the slots of `plan` out of `base`, one pool handle each.
    ///
    /// Refuses a plan whose slots are not aligned or overlap, and a base that is too short.
    pub fn new(pool: &mut BufferPool, base: Buffer, plan: StepPlan, layout: ArenaLayout) -> (res:
        Result<Arena, String>)
        requires
            old(pool).well_formed(),
            base.well_formed(),
            plan@.ends_fit(),
            old(pool)@.held_bytes() + reserved(plan@.slots) <= usize::MAX,
            old(pool)@.held_buffers() + plan@.slots.len() <= usize::MAX,
            old(pool)@.counters.allocations + plan@.slots.len() <= u64::MAX,
            old(pool)@.counters.allocated_bytes + reserved(plan@.slots) <= u64::MAX,
        ensures
            final(pool).well_formed(),
            res is Ok <==> plan@.disjoint() && plan@.bytes() <= base.spec_length(),
            res matches Err(e) ==> final(pool)@ == old(pool)@ && (if plan@.disjoint() {
                e@ == Self::short_text(base.spec_length(), plan@.bytes())
            } else {
                plan@.fault(e@)
            }),
            res matches Ok(a) ==> {
                &&& a.well_formed()
                &&& a@ == (ArenaView {
                    base,
                    plan: plan@,
                    layout,
                    handles: a@.handles,
                    counters: ArenaCounters {
                        offers: 0,
                        hits: 0,
                        declined_size: 0,
                        declined_exhausted: 0,
                        steps: 0,
                    },
                    ordinal: 0,
                    active: false,
                })
                &&& final(pool)@ == (PoolView {
                    live_buffers: (old(pool)@.live_buffers + plan@.slots.len()) as usize,
                    live_bytes: (old(pool)@.live_bytes + reserved(plan@.slots)) as usize,
                    counters: PoolCounters {
                        allocations: (old(pool)@.counters.allocations + plan@.slots.len()) as u64,
                        allocated_bytes: (old(pool)@.counters.allocated_bytes + reserved(
                            plan@.slots,
                        )) as u64,
                        ..old(pool)@.counters
                    },
                    ..old(pool)@
                })
            },
    {
        match plan.check_disjoint() {
            Err(e) => {
                return Err(e);
            },
            Ok(()) => {},
        }
        let needed: usize = plan.arena_bytes();
        if base.length() < needed {
            let mut s = String::new();
            s.push_str("arena buffer is ");
            text::push_usize(&mut s, base.length());
            s.push_str(" B, plan needs ");
            text::push_usize(&mut s, needed);
            s.push_str(" B");
            proof {
                assert(s@ =~= Self::short_text(base.spec_length(), plan@.bytes()));
            }
            return Err(s);
        }
        let mut slot_handles: Vec<PooledBuffer> = Vec::with_capacity(plan.slots.len());
        let n: usize = plan.slots.len();
        let ghost before = pool@;
        proof {
            buffer_pool::lemma_held_covers_live(before);
        }
        for i in 0..n
            invariant
                n == plan@.slots.len(),
                n == plan.slots@.len(),
                plan@.slots == plan.slots@,
                base.well_formed(),
                plan@.bytes() <= base.spec_length(),
                pool.well_formed(),
                before.live_bytes <= before.held_bytes(),
                before.live_buffers <= before.held_buffers(),
                before.held_bytes() + reserved(plan@.slots) <= usize::MAX,
                before.held_buffers() + plan@.slots.len() <= usize::MAX,
                before.counters.allocations + plan@.slots.len() <= u64::MAX,
                before.counters.allocated_bytes + reserved(plan@.slots) <= u64::MAX,
                pool@.live_buffers == before.live_buffers + i,
                pool@.live_bytes == before.live_bytes + reserved(plan@.slots.take(i as int)),
                pool@ == (PoolView {
                    live_buffers: pool@.live_buffers,
                    live_bytes: pool@.live_bytes,
                    counters: PoolCounters {
                        allocations: (before.counters.allocations + i) as u64,
                        allocated_bytes: (before.counters.allocated_bytes + reserved(
                            plan@.slots.take(i as int),
                        )) as u64,
                        ..before.counters
                    },
                    ..before
                }),
                slot_handles@.len() == i,
                forall|s: int|
                    0 <= s < i ==> (#[trigger] slot_handles@[s]).is_pooled()
                        && slot_handles@[s].spec_buffer() == region(base, plan@.slots[s])
                        && slot_handles@[s].spec_size() == plan@.slots[s].size,
        {
            proof {
                lemma_reserved_take(plan@.slots, i as int);
                lemma_slots_end_bounds(plan@.slots, i as int);
            }
            let slot = plan.slots[i];
            let view = base.view(slot.offset, slot.size);
            slot_handles.push(pool.adopt(view, slot.size));
        }
        proof {
            assert(plan@.slots.take(n as int) =~= plan@.slots);
        }
        Ok(
            Arena {
                base,
                plan,
                layout,
                slot_handles,
                counters: ArenaCounters::default(),
                ordinal: 0,
                active: false,
            },
        )
    }

    /// The one allocation that the slots are cut out of.
    pub fn base(&self) -> (b: &Buffer)
        ensures
            *b == self@.base,
    {
        &self.base
    }

    pub fn layout(&self) -> (l: ArenaLayout)
        ensures
            l == self@.layout,
    {
        self.layout
    }

    /// Opens a decode step: the ordinals start again from 0.
    pub fn begin_step(&mut self)
        requires
            old(self)@.counters.steps < u64::MAX,
        ensures
            old(self).well_formed() ==> final(self).well_formed(),
            final(self)@ == (ArenaView {
                ordinal: 0,
                active: true,
                counters: ArenaCounters {
                    steps: (old(self)@.counters.steps + 1) as u64,
                    ..old(self)@.counters
                },
                ..old(self)@
            }),
    {
        self.ordinal = 0;
        self.active = true;
        self.counters.steps = self.counters.steps + 1;
    }

    /// Closes the current step. Allocations outside a step go to the pool.
    pub fn end_step(&mut self)
        ensures
            old(self).well_formed() ==> final(self).well_formed(),
            final(self)@ == (ArenaView { active: false, ..old(self)@ }),
    {
        self.active = false;
    }

    pub fn is_active(&self) -> (b: bool)
        ensures
            b == self@.active,
    {
        self.active
    }

    /// Offers an allocation of `size` bytes to the arena. `None` means that the caller should
    /// allocate from the pool, and is a normal outcome.
    ///
    /// The slot is chosen by where the allocation falls in the step. A request is served only if
    /// its size is the one the plan has for that ordinal, so a value that grows from step to step
    /// is declined on every one.
    pub fn acquire(&mut self, size: usize) -> (res: Option<Buffer>)
        requires
            old(self).well_formed(),
            old(self)@.plan.in_range(),
            old(self)@.active ==> {
                &&& old(self)@.counters.offers < u64::MAX
                &&& old(self)@.counters.hits < u64::MAX
                &&& old(self)@.counters.declined_size < u64::MAX
                &&& old(self)@.counters.declined_exhausted < u64::MAX
            },
        ensures
            final(self).well_formed(),
            final(self)@ == old(self)@.offered(size),
            match old(self)@.offer(size) {
                Offer::Served(s) => res == Some(
                    region(old(self)@.base, old(self)@.plan.slots[s]),
                ),
                _ => res is None,
            },
    {
        if !self.active {
            return None;
        }
        let ordinal: usize = self.ordinal;
        self.ordinal = ordinal.wrapping_add(1);
        self.counters.offers = self.counters.offers + 1;
        if ordinal >= self.plan.by_ordinal.len() {
            self.counters.declined_exhausted = self.counters.declined_exhausted + 1;
            return None;
        }
        let (slot, want) = self.plan.by_ordinal[ordinal];
        assert(self.plan@.ordinals[ordinal as int] == self.plan.by_ordinal@[ordinal as int]);
        if size != want || slot == NO_SLOT {
            self.counters.declined_size = self.counters.declined_size + 1;
            return None;
        }
        self.counters.hits = self.counters.hits + 1;
        Some(*self.slot_handles[slot].buffer())
    }

    pub fn counters(&self) -> (c: ArenaCounters)
        ensures
            c == self@.counters,
    {
        self.counters
    }

    pub fn reset_counters(&mut self)
        ensures
            old(self).well_formed() ==> final(self).well_formed(),
            final(self)@ == (ArenaView {
                counters: ArenaCounters {
                    offers: 0,
                    hits: 0,
                    declined_size: 0,
                    declined_exhausted: 0,
                    steps: 0,
                },
                ..old(self)@
            }),
    {
        self.counters = ArenaCounters::default();
    }

    /// Slots, for reporting and for the layout checks.
    pub fn slots(&self) -> (v: Vec<Slot>)
        ensures
            v@ == self@.plan.slots,
    {
        let mut v: Vec<Slot> = Vec::with_capacity(self.plan.slots.len());
        for i in 0..self.plan.slots.len()
            invariant
                v@ == self@.plan.slots.take(i as int),
        {
            v.push(self.plan.slots[i]);
            assert(v@ =~= self@.plan.slots.take(i + 1));
        }
        assert(self@.plan.slots.take(self@.plan.slots.len() as int) =~= self@.plan.slots);
        v
    }
}

/// The same ordinal is served from the same region in every step: what a request gets depends on
/// the plan, the base and its place in the step, and nothing else that an arena remembers.
pub proof fn law_same_ordinal_same_region(a: ArenaView, b: ArenaView, size: usize)
    requires
        a.plan == b.plan,
        a.base == b.base,
        a.ordinal == b.ordinal,
        a.active == b.active,
    ensures
        a.offer(size) == b.offer(size),
        a.offer(size) matches Offer::Served(s) ==> region(a.base, a.plan.slots[s]) == region(
            b.base,
            b.plan.slots[s],
        ),
{
}

proof fn lemma_regions_are_disjoint(base: Buffer, p: PlanView, s: int, t: int)
    requires
        p.laid_out(),
        base.well_formed(),
        p.bytes() <= base.spec_length(),
        0 <= s < p.slots.len(),
        0 <= t < p.slots.len(),
        s != t,
    ensures
        ({
            let a = region(base, p.slots[s]);
            let b = region(base, p.slots[t]);
            a.base_offset + a.spec_length() <= b.base_offset || b.base_offset + b.spec_length()
                <= a.base_offset
        }),
{
    lemma_slots_end_bounds(p.slots, s);
    lemma_slots_end_bounds(p.slots, t);
    if s < t {
        lemma_slots_in_order(p, s, t);
    } else {
        lemma_slots_in_order(p, t, s);
    }
}

/// In an arena over a plan that the planner made, two requests whose values are live together are
/// never served a byte in common.
pub proof fn law_arena_never_aliases_live_values(
    base: Buffer,
    p: PlanView,
    r: Requests,
    layout: ArenaLayout,
    i: int,
    j: int,
)
    requires
        r.well_formed(),
        p.plans(r, layout),
        base.well_formed(),
        p.bytes() <= base.spec_length(),
        r.serves(i),
        r.serves(j),
        i != j,
        r.clash(i, j),
    ensures
        ({
            let a = region(base, p.slots[p.slot_of(i)->0]);
            let b = region(base, p.slots[p.slot_of(j)->0]);
            &&& r.sizes[i] <= a.spec_length()
            &&& r.sizes[j] <= b.spec_length()
            &&& a.base_offset + a.spec_length() <= b.base_offset || b.base_offset + b.spec_length()
                <= a.base_offset
        }),
{
    let s = p.slot_of(i)->0;
    let t = p.slot_of(j)->0;
    assert(s != t) by {
        law_live_values_never_share_bytes(p, r, layout, i, j);
        law_values_fit_their_slots(p, r, layout, i);
        law_values_fit_their_slots(p, r, layout, j);
    }
    assert(0 <= s < p.slots.len() && r.sizes[i] <= p.slots[s].size) by {
        law_values_fit_their_slots(p, r, layout, i);
    }
    assert(0 <= t < p.slots.len() && r.sizes[j] <= p.slots[t].size) by {
        law_values_fit_their_slots(p, r, layout, j);
    }
    lemma_regions_are_disjoint(base, p, s, t);
}

/// Two values clash where there is an ordinal at which both are live, and nowhere else.
pub proof fn law_values_clash_at_an_ordinal(r: Requests, i: int, j: int)
    requires
        r.first[i] <= r.last[i],
        r.first[j] <= r.last[j],
    ensures
        r.clash(i, j) <==> exists|t: int|
            r.first[i] <= t && t <= r.last[i] && r.first[j] <= t && #[trigger] (t - r.last[j])
                <= 0,
        r.clash(i, j) <==> r.clash(j, i),
{
    if r.clash(i, j) {
        let t = if r.first[i] >= r.first[j] {
            r.first[i] as int
        } else {
            r.first[j] as int
        };
        assert(t - r.last[j] <= 0);
    }
}

/// Of two values that are live at ordinal `t`, no byte `x` belongs to both, whichever way the step
/// is laid out; and only values that the arena leaves alone have no bytes of it.
pub proof fn law_no_byte_is_in_two_live_values(
    p: PlanView,
    r: Requests,
    layout: ArenaLayout,
    i: int,
    j: int,
    t: int,
    x: int,
)
    requires
        r.well_formed(),
        p.plans(r, layout),
        0 <= i < r.sizes.len(),
        0 <= j < r.sizes.len(),
        i != j,
        !r.excluded[i] && !r.excluded[j],
        r.first[i] <= t <= r.last[i],
        r.first[j] <= t <= r.last[j],
    ensures
        p.ordinals[i].0 < p.slots.len(),
        p.ordinals[j].0 < p.slots.len(),
        ({
            let a = p.slots[p.ordinals[i].0 as int].offset;
            let b = p.slots[p.ordinals[j].0 as int].offset;
            !(a <= x < a + r.sizes[i] && b <= x < b + r.sizes[j])
        }),
{
    assert(r.serves(i) && r.serves(j));
    assert(t - r.last[j] <= 0);
    law_values_clash_at_an_ordinal(r, i, j);
    law_live_values_never_share_bytes(p, r, layout, i, j);
    law_values_fit_their_slots(p, r, layout, i);
    law_values_fit_their_slots(p, r, layout, j);
}

/// An ordinal has a slot unless it is excluded, keeps the size that was asked for, and finds room for
/// it there. A slot is no wider than its widest value, so none is wider than need be.
pub proof fn law_slots_are_as_wide_as_their_widest_value(
    p: PlanView,
    r: Requests,
    layout: ArenaLayout,
    i: int,
    s: int,
)
    requires
        r.well_formed(),
        p.plans(r, layout),
        0 <= i < r.sizes.len(),
        0 <= s < p.slots.len(),
    ensures
        p.ordinals.len() == r.sizes.len(),
        p.ordinals[i].1 == r.sizes[i],
        r.excluded[i] <==> p.ordinals[i].0 == usize::MAX,
        !r.excluded[i] ==> p.ordinals[i].0 < p.slots.len() && r.sizes[i]
            <= p.slots[p.ordinals[i].0 as int].size,
        exists|j: int|
            0 <= j < r.sizes.len() && !r.excluded[j] && (#[trigger] p.ordinals[j]).0 == s
                && r.sizes[j] == p.slots[s].size,
{
    let a = p.assignment();
    assert(a[i] == p.slot_of(i));
    if r.serves(i) {
        law_values_fit_their_slots(p, r, layout, i);
    }
    assert(p.widths()[s] == p.slots[s].size);
    assert(r.occupied(a, s, p.widths()[s]));
    let j = choose|j: int| #[trigger] r.serves(j) && a[j] == Some(s) && r.sizes[j] == p.widths()[s];
    assert(a[j] == p.slot_of(j));
    assert(p.ordinals[j].0 == s);
}

/// Value `j` is placed no later than value `i`: it is larger; or as large and begins earlier; or
/// begins together with it and ends later; or ends together with it and has the lower ordinal.
pub open spec fn no_later(r: Requests, j: int, i: int) -> bool {
    if r.sizes[j] != r.sizes[i] {
        r.sizes[j] > r.sizes[i]
    } else if r.first[j] != r.first[i] {
        r.first[j] < r.first[i]
    } else if r.last[j] != r.last[i] {
        r.last[j] > r.last[i]
    } else {
        j <= i
    }
}

/// Packing gives every value the lowest slot it can: each slot below its own holds a value that was
/// placed before it and is live at an ordinal at which it is.
pub proof fn law_packing_takes_the_lowest_free_slot(p: PlanView, r: Requests, i: int, s: int)
    requires
        r.well_formed(),
        p.plans(r, ArenaLayout::Packed),
        forall|k: int| 0 <= k < r.sizes.len() ==> (#[trigger] r.first[k]) <= r.last[k],
        0 <= i < r.sizes.len(),
        !r.excluded[i],
        0 <= s < p.ordinals[i].0,
    ensures
        exists|j: int|
            0 <= j < r.sizes.len() && !r.excluded[j] && (#[trigger] p.ordinals[j]).0 == s
                && no_later(r, j, i) && r.first[j] <= r.last[i] && r.first[i] <= r.last[j],
{
    let a = p.assignment();
    assert(r.serves(i));
    assert(a[i] == p.slot_of(i));
    assert(a[i] is Some);
    assert(r.blocked(a, i, s));
    let j = choose|j: int|
        #![trigger r.serves(j)]
        r.serves(j) && r.before(j, i) && a[j] == Some(s) && r.clash(i, j);
    assert(a[j] == p.slot_of(j));
    assert(p.ordinals[j].0 == s);
    assert(r.first[j] <= r.last[j] && r.first[i] <= r.last[i]);
}

/// Slots follow one another from the first byte on: each starts at the first multiple of the
/// alignment that is not inside the one before.
pub proof fn law_slots_leave_no_room_between(p: PlanView, r: Requests, layout: ArenaLayout, s: int)
    requires
        p.plans(r, layout),
        0 <= s < p.slots.len(),
    ensures
        s == 0 ==> p.slots[s].offset == 0,
        p.slots[s].offset % 128 == 0,
        s + 1 < p.slots.len() ==> p.slots[s].offset + p.slots[s].size <= p.slots[s + 1].offset
            && p.slots[s + 1].offset < p.slots[s].offset + p.slots[s].size + 128,
{
    let w = p.widths();
    lemma_padded_total_is_padded(w.take(s));
    if s == 0 {
        assert(w.take(0).len() == 0);
    }
    if s + 1 < p.slots.len() {
        assert(w.take(s + 1).drop_last() =~= w.take(s));
        assert(w.take(s + 1).last() == p.slots[s].size);
        assert(p.slots[s + 1].offset == padded_total(w.take(s + 1)));
    }
}

/// A plan needs as many bytes as its last slot ends at, and not one more.
pub proof fn law_a_plan_ends_with_its_last_slot(p: PlanView, s: int)
    ensures
        0 <= s < p.slots.len() ==> p.slots[s].offset + p.slots[s].size <= p.bytes(),
        p.slots.len() > 0 ==> exists|t: int|
            0 <= t < p.slots.len() && (#[trigger] p.slots[t]).offset + p.slots[t].size == p.bytes(),
        p.slots.len() == 0 ==> p.bytes() == 0,
{
    if 0 <= s < p.slots.len() {
        lemma_slots_end_bounds(p.slots, s);
    }
    if p.slots.len() > 0 {
        let t = lemma_slots_end_reached(p.slots);
        assert(p.slots[t].offset + p.slots[t].size == p.bytes());
    }
}

proof fn lemma_slots_end_reached(slots: Seq<Slot>) -> (t: int)
    requires
        slots.len() > 0,
    ensures
        0 <= t < slots.len(),
        slots[t].offset + slots[t].size == slots_end(slots),
    decreases slots.len(),
{
    let rest = slots.drop_last();
    if slots_end(rest) > slots.last().offset + slots.last().size {
        lemma_slots_end_reached(rest)
    } else {
        slots.len() - 1
    }
}

/// A plan passes where every slot starts at a multiple of the alignment and no byte is in two of
/// them; where one does not, or a byte is in two, it fails.
pub proof fn law_a_plan_passes_where_no_byte_is_in_two_slots(p: PlanView, i: int, j: int, x: int)
    requires
        0 <= i < j < p.slots.len(),
    ensures
        p.disjoint() ==> p.slots[i].offset % 128 == 0 && p.slots[j].offset % 128 == 0,
        p.disjoint() ==> !(p.slots[i].offset <= x < p.slots[i].offset + p.slots[i].size
            && p.slots[j].offset <= x < p.slots[j].offset + p.slots[j].size),
        p.overlap(i, j) && p.slots[i].size > 0 && p.slots[j].size > 0 ==> exists|y: int|
            p.slots[i].offset <= y && y < p.slots[i].offset + p.slots[i].size && p.slots[j].offset
                <= y && #[trigger] (y - p.slots[j].offset) < p.slots[j].size,
{
    if p.disjoint() {
        assert(!p.misaligned(i));
        assert(!p.misaligned(j));
        assert(!p.overlap(i, j));
    }
    if p.overlap(i, j) && p.slots[i].size > 0 && p.slots[j].size > 0 {
        let y = if p.slots[i].offset >= p.slots[j].offset {
            p.slots[i].offset as int
        } else {
            p.slots[j].offset as int
        };
        assert(y - p.slots[j].offset < p.slots[j].size);
    }
}

/// Only a plan that does not pass has a fault.
pub proof fn law_only_a_faulty_plan_is_refused(p: PlanView, message: Seq<char>)
    requires
        p.fault(message),
    ensures
        !p.disjoint(),
{
    if exists|i: int| #[trigger]
        p.misaligned(i) && message == p.misaligned_text(i) && forall|k: int|
            k < i ==> !#[trigger] p.misaligned(k) {
        let i = choose|i: int| #[trigger]
            p.misaligned(i) && message == p.misaligned_text(i) && forall|k: int|
                k < i ==> !#[trigger] p.misaligned(k);
        assert(p.misaligned(i));
    } else {
        let (i, j) = choose|i: int, j: int| #[trigger]
            p.overlap(i, j) && message == p.overlap_text(i, j) && forall|k: int, l: int|
                k < i || k == i && l < j ==> !#[trigger] p.overlap(k, l);
        assert(p.overlap(i, j));
    }
}

/// Rounding up gives the first multiple that is not below.
pub proof fn law_rounding_up_gives_the_next_multiple(x: int, a: int)
    requires
        a > 0,
        x >= 0,
    ensures
        aligned_to(x, a) % a == 0,
        x <= aligned_to(x, a) < x + a,
        x <= padded(x) < x + 128,
        padded(x) % 128 == 0,
{
    let q = (x + a - 1) / a;
    vstd::arithmetic::div_mod::lemma_fundamental_div_mod(x + a - 1, a);
    vstd::arithmetic::div_mod::lemma_mod_bound(x + a - 1, a);
    vstd::arithmetic::div_mod::lemma_mod_multiples_basic(q, a);
    assert(q * a == a * q) by (nonlinear_arith);
}

/// The cursor that reproduces a plan starts at the first byte, passes over every request that it
/// serves and stops at the next multiple of the alignment; a request of nothing does not move it and
/// gets nothing.
pub proof fn law_a_cursor_moves_past_each_request(p: PlanView, i: int)
    requires
        0 <= i < p.ordinals.len(),
    ensures
        p.cursor_at(0) == 0,
        p.cursor_at(i) % 128 == 0,
        p.cursor_at(i) + p.request(i) <= p.cursor_at(i + 1),
        p.cursor_at(i + 1) < p.cursor_at(i) + p.request(i) + 128,
        p.request(i) == 0 ==> p.cursor_at(i + 1) == p.cursor_at(i) && p.bumped(i) is None,
        p.request(i) > 0 ==> p.bumped(i) == Some(p.cursor_at(i)),
        p.ordinals[i].0 == usize::MAX ==> p.request(i) == 0,
        p.ordinals[i].0 != usize::MAX ==> p.request(i) == p.ordinals[i].1,
{
    let all = p.requests();
    assert(all.take(0).len() == 0);
    assert(all.take(i + 1).drop_last() =~= all.take(i));
    assert(all.take(i + 1).last() == p.request(i));
    lemma_padded_total_is_padded(all.take(i));
}

/// A step that was recorded asks for every value it recorded: each begins at its own ordinal, and
/// the arena leaves none alone.
pub proof fn law_a_recorded_step_asks_for_every_value(v: RecorderView, i: int)
    requires
        v.well_formed(),
        0 <= i < v.sizes.len() <= usize::MAX,
    ensures
        v.requests().well_formed(),
        v.requests().sizes == v.sizes,
        v.requests().first[i] == i,
        v.requests().excluded[i] == false,
        v.freed_at[i] is None ==> v.requests().last[i] == v.sizes.len() - 1,
        v.freed_at[i] is Some ==> v.requests().last[i] == v.freed_at[i]->0,
        v.requests().first[i] <= v.requests().last[i],
{
}

/// An allocation is recorded as one more live value under the next ordinal. A release ends the life
/// of one live value at the last ordinal issued, and touches no other.
pub proof fn law_recording_touches_one_value(
    v: RecorderView,
    token: u64,
    size: usize,
    at: int,
    i: int,
)
    requires
        v.well_formed(),
        v.sizes.len() < usize::MAX,
        0 <= i < v.sizes.len(),
        0 <= at < v.live.len(),
    ensures
        ({
            let w = v.allocated(token, size);
            let n = v.sizes.len() as int;
            &&& w.well_formed()
            &&& w.sizes == v.sizes.push(size)
            &&& w.freed_at[n] is None
            &&& w.freed_at[i] == v.freed_at[i]
            &&& w.live.len() == v.live.len() + 1
            &&& w.live.last().0 == token
            &&& w.live.last().1 == n
            &&& w.newest(token, w.live.len() - 1)
        }),
        ({
            let w = v.freed(at);
            let gone = v.live[at].1 as int;
            &&& w.well_formed()
            &&& w.sizes == v.sizes
            &&& w.freed_at[gone] == Some((v.sizes.len() - 1) as usize)
            &&& i != gone ==> w.freed_at[i] == v.freed_at[i]
            &&& w.live.len() == v.live.len() - 1
            &&& forall|q: int| 0 <= q < at ==> w.live[q] == v.live[q]
            &&& forall|q: int| at <= q < w.live.len() ==> w.live[q] == v.live[q + 1]
        }),
{
    let w = v.allocated(token, size);
    assert forall|p: int| 0 <= p < w.live.len() implies (#[trigger] w.live[p]).1 < w.sizes.len()
        && w.freed_at[w.live[p].1 as int] is None by {
        if p < v.live.len() {
            assert(v.live[p].1 < v.sizes.len());
        }
    }
    assert forall|p: int, q: int| 0 <= p < q < w.live.len() implies (#[trigger] w.live[p]).1 != (
    #[trigger] w.live[q]).1 by {
        assert(v.live[p].1 < v.sizes.len());
        if q < v.live.len() {
            assert(v.live[p].1 != v.live[q].1);
        }
    }
    assert forall|k: int| 0 <= k < w.sizes.len() && (#[trigger] w.freed_at[k]) is Some implies k
        <= w.freed_at[k]->0 < w.sizes.len() by {
        assert(v.freed_at[k] is Some);
    }
    let f = v.freed(at);
    let gone = v.live[at].1 as int;
    assert(gone < v.sizes.len());
    assert forall|p: int| 0 <= p < f.live.len() implies (#[trigger] f.live[p]).1 < f.sizes.len()
        && f.freed_at[f.live[p].1 as int] is None by {
        let p0 = if p < at {
            p
        } else {
            p + 1
        };
        assert(f.live[p] == v.live[p0]);
        if p0 < at {
            assert(v.live[p0].1 != v.live[at].1);
        } else {
            assert(v.live[at].1 != v.live[p0].1);
        }
    }
    assert forall|p: int, q: int| 0 <= p < q < f.live.len() implies (#[trigger] f.live[p]).1 != (
    #[trigger] f.live[q]).1 by {
        let p0 = if p < at {
            p
        } else {
            p + 1
        };
        let q0 = if q < at {
            q
        } else {
            q + 1
        };
        assert(v.live[p0].1 != v.live[q0].1);
    }
    assert forall|k: int| 0 <= k < f.sizes.len() && (#[trigger] f.freed_at[k]) is Some implies k
        <= f.freed_at[k]->0 < f.sizes.len() by {
        if k != gone {
            assert(v.freed_at[k] is Some);
        }
    }
}

/// What becomes of a request is read off the plan: it is served where a step is open, the plan
/// reaches so far and has a slot for this size there, and from that slot.
pub proof fn law_what_an_arena_serves(a: ArenaView, size: usize)
    ensures
        ({
            let o = a.ordinal as int;
            let known = a.active && o < a.plan.ordinals.len();
            &&& a.offer(size) is Closed <==> !a.active
            &&& a.offer(size) is Exhausted <==> a.active && o >= a.plan.ordinals.len()
            &&& a.offer(size) is Served <==> known && a.plan.ordinals[o].1 == size
                && a.plan.ordinals[o].0 != usize::MAX
            &&& a.offer(size) is Mismatch <==> known && (a.plan.ordinals[o].1 != size
                || a.plan.ordinals[o].0 == usize::MAX)
            &&& a.offer(size) is Served ==> a.offer(size)->Served_0 == a.plan.ordinals[o].0
        }),
{
}

/// While a step is open every request takes one ordinal and is counted once as offered and once as
/// what became of it; while none is, nothing happens.
pub proof fn law_every_offer_is_counted_once(a: ArenaView, size: usize)
    requires
        a.counters.offers < u64::MAX,
        a.counters.hits < u64::MAX,
        a.counters.declined_size < u64::MAX,
        a.counters.declined_exhausted < u64::MAX,
    ensures
        ({
            let b = a.offered(size);
            let c = a.counters;
            let d = b.counters;
            &&& !a.active ==> b == a
            &&& a.active && a.ordinal < usize::MAX ==> b.ordinal == a.ordinal + 1
            &&& a.active ==> d.offers == c.offers + 1
            &&& d.offers - c.offers == (d.hits - c.hits) + (d.declined_size - c.declined_size) + (
            d.declined_exhausted - c.declined_exhausted)
            &&& a.offer(size) is Served ==> d.hits == c.hits + 1
            &&& a.offer(size) is Mismatch ==> d.declined_size == c.declined_size + 1
            &&& a.offer(size) is Exhausted ==> d.declined_exhausted == c.declined_exhausted + 1
            &&& d.hits >= c.hits && d.declined_size >= c.declined_size && d.declined_exhausted
                >= c.declined_exhausted
            &&& d.steps == c.steps
            &&& b.plan == a.plan && b.base == a.base && b.handles == a.handles && b.active
                == a.active
        }),
{
}

/// A slot is a region of the arena's own buffer: the same allocation, as many bytes in as the slot
/// starts, and as long as the slot is.
pub proof fn law_a_slot_is_a_region_of_the_base(base: Buffer, slot: Slot)
    requires
        base.base_offset + slot.offset <= usize::MAX,
    ensures
        region(base, slot).raw == base.raw,
        region(base, slot).base_offset == base.base_offset + slot.offset,
        region(base, slot).spec_length() == slot.size,
        region(base, slot).raw_length == base.raw_length,
        region(base, slot).raw_contents == base.raw_contents,
{
}

/// What the slots reserve is the sum of their sizes: one slot more reserves as many bytes more as it
/// is long.
pub proof fn law_slots_reserve_their_sizes(slots: Seq<Slot>, slot: Slot)
    ensures
        reserved(slots.push(slot)) == reserved(slots) + slot.size,
        reserved(Seq::empty()) == 0,
{
    sums::lemma_total_push(slots, |s: Slot| s.size as int, slot);
}

} // verus!
