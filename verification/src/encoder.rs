//! Hazards between the dispatches of one encoder session, and the barriers they call for.
//!
//! Dispatches inside one encoder overlap unless a barrier orders them, and nothing but this
//! bookkeeping decides where one stands. A binding conflicts with an earlier one when one of the
//! two writes and both can touch the same byte.

use std::collections::{HashMap, HashSet};
use vstd::prelude::*;
use vstd::std_specs::iter::IteratorSpec;

use crate::buffer::Buffer;
use crate::executor::{DispatchAction, DispatchRecord, Disposition, Executor, ExecutorSlot, Grid, Size3};

verus! {

broadcast use vstd::std_specs::hash::group_hash_axioms;

/// How hazards inside an encoder are keyed.
#[derive(Clone, Copy, Debug, PartialEq, Eq, Structural)]
pub enum HazardKey {
    /// By the allocation alone. Two values in one allocation are one resource.
    Pointer,
    /// By allocation, offset and length, with an interval test.
    Range,
}

impl Default for HazardKey {
    fn default() -> (k: Self)
        ensures
            k == HazardKey::Pointer,
    {
        HazardKey::Pointer
    }
}

impl HazardKey {
    /// The keying that a word asks for.
    pub open spec fn named(word: Seq<char>) -> Option<HazardKey> {
        if word == "range"@ {
            Some(HazardKey::Range)
        } else if word == "pointer"@ || word == "ptr"@ || word == ""@ {
            Some(HazardKey::Pointer)
        } else {
            None
        }
    }

    /// The keying that a word asks for; `None` for a word that asks for none.
    pub fn parse(word: &str) -> (k: Option<HazardKey>)
        ensures
            k == HazardKey::named(word@),
    {
        let w: String = word.to_owned();
        if w == "range".to_owned() {
            Some(HazardKey::Range)
        } else if w == "pointer".to_owned() || w == "ptr".to_owned() || w == "".to_owned() {
            Some(HazardKey::Pointer)
        } else {
            None
        }
    }
}

/// Which of the three orderable hazards a binding meets.
#[derive(Clone, Copy, Debug, PartialEq, Eq, Hash, Structural)]
pub enum HazardKind {
    /// Read-after-write: this dispatch reads bytes an earlier one wrote.
    Raw,
    /// Write-after-write: this dispatch overwrites bytes an earlier one wrote.
    Waw,
    /// Write-after-read: this dispatch overwrites bytes an earlier one read.
    War,
}

impl HazardKind {
    pub open spec fn spec_bit(self) -> u8 {
        match self {
            HazardKind::Raw => 1,
            HazardKind::Waw => 2,
            HazardKind::War => 4,
        }
    }

    pub open spec fn spec_name(self) -> Seq<char> {
        match self {
            HazardKind::Raw => "raw"@,
            HazardKind::Waw => "waw"@,
            HazardKind::War => "war"@,
        }
    }

    /// A stable lowercase tag, for traces and messages.
    pub fn as_str(self) -> (s: &'static str)
        ensures
            s@ == self.spec_name(),
    {
        match self {
            HazardKind::Raw => "raw",
            HazardKind::Waw => "waw",
            HazardKind::War => "war",
        }
    }

    fn bit(self) -> (b: u8)
        ensures
            b == self.spec_bit(),
    {
        match self {
            HazardKind::Raw => 1,
            HazardKind::Waw => 2,
            HazardKind::War => 4,
        }
    }
}

/// The set of hazard directions behind one pending barrier.
///
/// A barrier is a latch that any number of bindings may set before it fires, so what it is owed
/// to is a set of directions.
#[derive(Clone, Copy, Debug, PartialEq, Eq, Structural)]
pub struct HazardKinds(u8);

impl View for HazardKinds {
    type V = Set<HazardKind>;

    closed spec fn view(&self) -> Set<HazardKind> {
        Set::new(|k: HazardKind| self.0 & k.spec_bit() != 0)
    }
}

impl Default for HazardKinds {
    fn default() -> (k: Self)
        ensures
            k@ == Set::<HazardKind>::empty(),
            k.well_formed(),
    {
        HazardKinds::none()
    }
}

impl HazardKinds {
    /// No bit beyond the three directions is set.
    pub closed spec fn well_formed(self) -> bool {
        self.0 < 8
    }

    /// The empty set.
    pub fn none() -> (k: Self)
        ensures
            k@ == Set::<HazardKind>::empty(),
            k.well_formed(),
    {
        let k = HazardKinds(0);
        proof {
            assert(0u8 & 1u8 == 0) by (bit_vector);
            assert(0u8 & 2u8 == 0) by (bit_vector);
            assert(0u8 & 4u8 == 0) by (bit_vector);
            assert(k@ =~= Set::<HazardKind>::empty());
        }
        k
    }

    /// Add `kind` to the set.
    pub fn insert(&mut self, kind: HazardKind)
        ensures
            final(self)@ == old(self)@.insert(kind),
            old(self).well_formed() ==> final(self).well_formed(),
    {
        let a: u8 = self.0;
        let b: u8 = kind.bit();
        self.0 = a | b;
        proof {
            lemma_or_bits(a, b);
            assert(final(self)@ =~= old(self)@.insert(kind));
        }
    }

    /// Add everything in `other`.
    pub fn merge(&mut self, other: HazardKinds)
        ensures
            final(self)@ == old(self)@.union(other@),
            old(self).well_formed() && other.well_formed() ==> final(self).well_formed(),
    {
        let a: u8 = self.0;
        let b: u8 = other.0;
        self.0 = a | b;
        proof {
            lemma_or_bits(a, b);
            assert(final(self)@ =~= old(self)@.union(other@));
        }
    }

    /// Whether `kind` contributed.
    pub fn contains(self, kind: HazardKind) -> (b: bool)
        ensures
            b == self@.contains(kind),
    {
        self.0 & kind.bit() != 0
    }

    /// Whether nothing has been recorded.
    pub fn is_empty(self) -> (b: bool)
        requires
            self.well_formed(),
        ensures
            b == (self@ == Set::<HazardKind>::empty()),
    {
        proof {
            let a = self.0;
            assert(a < 8 && a & 1 == 0 && a & 2 == 0 && a & 4 == 0 ==> a == 0) by (bit_vector);
            assert(0u8 & 1u8 == 0) by (bit_vector);
            assert(0u8 & 2u8 == 0) by (bit_vector);
            assert(0u8 & 4u8 == 0) by (bit_vector);
            if a == 0 {
                assert(self@ =~= Set::<HazardKind>::empty());
            } else {
                assert(self@.contains(HazardKind::Raw) || self@.contains(HazardKind::Waw)
                    || self@.contains(HazardKind::War));
            }
        }
        self.0 == 0
    }

    /// Empty the set and return what it held.
    pub fn take(&mut self) -> (k: HazardKinds)
        ensures
            k == *old(self),
            final(self)@ == Set::<HazardKind>::empty(),
            final(self).well_formed(),
    {
        let k = *self;
        *self = HazardKinds::none();
        k
    }

    /// The directions present, in the order read-after-write, write-after-write,
    /// write-after-read.
    pub fn iter(self) -> (v: Vec<HazardKind>)
        ensures
            v@ == listed(self@),
    {
        let mut v: Vec<HazardKind> = Vec::new();
        if self.contains(HazardKind::Raw) {
            v.push(HazardKind::Raw);
        }
        if self.contains(HazardKind::Waw) {
            v.push(HazardKind::Waw);
        }
        if self.contains(HazardKind::War) {
            v.push(HazardKind::War);
        }
        proof {
            assert(v@ =~= listed(self@));
        }
        v
    }
}

/// The directions of a set in their fixed order.
pub open spec fn listed(kinds: Set<HazardKind>) -> Seq<HazardKind> {
    let one = |k: HazardKind|
        if kinds.contains(k) {
            seq![k]
        } else {
            Seq::<HazardKind>::empty()
        };
    one(HazardKind::Raw) + one(HazardKind::Waw) + one(HazardKind::War)
}

proof fn lemma_or_bits(a: u8, b: u8)
    ensures
        forall|k: HazardKind| #[trigger]
            (a | b) & k.spec_bit() != 0 <==> a & k.spec_bit() != 0 || b & k.spec_bit() != 0,
        forall|k: HazardKind, l: HazardKind|
            (#[trigger] k.spec_bit()) & (#[trigger] l.spec_bit()) != 0 <==> k == l,
        a < 8 && b < 8 ==> (a | b) < 8,
        HazardKind::Raw.spec_bit() < 8,
        HazardKind::Waw.spec_bit() < 8,
        HazardKind::War.spec_bit() < 8,
{
    assert((a | b) & 1 != 0 <==> a & 1 != 0 || b & 1 != 0) by (bit_vector);
    assert((a | b) & 2 != 0 <==> a & 2 != 0 || b & 2 != 0) by (bit_vector);
    assert((a | b) & 4 != 0 <==> a & 4 != 0 || b & 4 != 0) by (bit_vector);
    assert(a < 8 && b < 8 ==> (a | b) < 8) by (bit_vector);
    assert(1u8 & 1u8 != 0 && 2u8 & 2u8 != 0 && 4u8 & 4u8 != 0) by (bit_vector);
    assert(1u8 & 2u8 == 0 && 1u8 & 4u8 == 0 && 2u8 & 1u8 == 0) by (bit_vector);
    assert(2u8 & 4u8 == 0 && 4u8 & 1u8 == 0 && 4u8 & 2u8 == 0) by (bit_vector);
}

/// One buffer binding, as the hazard tracking sees it.
#[derive(Clone, Copy, Debug, PartialEq, Eq, Hash, Structural)]
pub struct BoundRange {
    /// Identity of the allocation.
    pub ptr: usize,
    pub offset: usize,
    /// Bytes from `offset` on; 0 where the extent is not known.
    pub len: usize,
}

impl BoundRange {
    /// Byte `at` of allocation `ptr` may be touched. An unknown extent is the whole allocation.
    pub open spec fn touches(self, ptr: usize, at: int) -> bool {
        self.ptr == ptr && (self.len == 0 || self.offset <= at < self.offset + self.len)
    }

    /// The two bindings can touch the same byte.
    pub open spec fn spec_overlaps(self, other: BoundRange) -> bool {
        &&& self.ptr == other.ptr
        &&& self.len == 0 || other.len == 0 || (self.offset < other.offset + other.len
            && other.offset < self.offset + self.len)
    }

    /// Whether these two bindings can touch the same byte.
    pub fn overlaps(&self, other: &BoundRange) -> (b: bool)
        ensures
            b == self.spec_overlaps(*other),
    {
        if self.ptr != other.ptr {
            return false;
        }
        if self.len == 0 || other.len == 0 {
            return true;
        }
        (self.offset as u128) < other.offset as u128 + other.len as u128 && (other.offset as u128)
            < self.offset as u128 + self.len as u128
    }
}

/// Two bindings overlap exactly when there is a byte that both can touch.
pub proof fn law_overlap_is_sharing_a_byte(a: BoundRange, b: BoundRange)
    ensures
        a.spec_overlaps(b) <==> exists|at: int| #[trigger]
            a.touches(a.ptr, at) && b.touches(a.ptr, at),
{
    if a.spec_overlaps(b) {
        let at = if a.len == 0 {
            b.offset as int
        } else if b.len == 0 || a.offset >= b.offset {
            a.offset as int
        } else {
            b.offset as int
        };
        assert(a.touches(a.ptr, at) && b.touches(a.ptr, at));
    }
}

/// Overlap does not depend on which of the two came first.
pub proof fn law_overlap_is_symmetric(a: BoundRange, b: BoundRange)
    ensures
        a.spec_overlaps(b) == b.spec_overlaps(a),
{
}

/// Bindings of different allocations never overlap; neighbouring ranges of one never do.
pub proof fn law_neighbours_do_not_overlap(a: BoundRange, b: BoundRange)
    requires
        a.len > 0,
        b.len > 0,
        a.ptr != b.ptr || a.offset + a.len <= b.offset,
    ensures
        !a.spec_overlaps(b),
        !b.spec_overlaps(a),
{
}

proof fn lemma_push_contains<A>(s: Seq<A>, a: A, x: A)
    ensures
        s.push(a).contains(x) <==> s.contains(x) || x == a,
{
    if s.contains(x) {
        let j = choose|j: int| 0 <= j < s.len() && s[j] == x;
        assert(s.push(a)[j] == x);
    }
    if x == a {
        assert(s.push(a)[s.len() as int] == x);
    }
}

/// One of the first `n` buckets holds `r`.
spec fn poured(entries: Seq<(usize, Vec<BoundRange>)>, n: int, r: BoundRange) -> bool {
    exists|j: int| 0 <= j < n && (#[trigger] entries[j]).1@.contains(r)
}

/// A set of bindings as mathematical values: what was bound by allocation, and what by range.
#[verifier::ext_equal]
pub struct BoundView {
    pub ptrs: Set<usize>,
    pub ranges: Set<BoundRange>,
}

impl BoundView {
    pub open spec fn empty() -> Self {
        BoundView { ptrs: Set::empty(), ranges: Set::empty() }
    }

    /// The set with one more binding, recorded by the key.
    pub open spec fn with(self, key: HazardKey, b: BoundRange) -> Self {
        match key {
            HazardKey::Pointer => BoundView { ptrs: self.ptrs.insert(b.ptr), ..self },
            HazardKey::Range => BoundView { ranges: self.ranges.insert(b), ..self },
        }
    }

    pub open spec fn union(self, other: Self) -> Self {
        BoundView {
            ptrs: self.ptrs.union(other.ptrs),
            ranges: self.ranges.union(other.ranges),
        }
    }

    /// A binding of the set can touch a byte that `b` can touch, as far as the key can tell.
    pub open spec fn conflicts(self, key: HazardKey, b: BoundRange) -> bool {
        match key {
            HazardKey::Pointer => self.ptrs.contains(b.ptr),
            HazardKey::Range => exists|r: BoundRange| #[trigger]
                self.ranges.contains(r) && r.spec_overlaps(b),
        }
    }
}

/// The set of bindings seen in one phase, comparable under either keying.
///
/// Ranges stand in one bucket per allocation, so a lookup scans only the bindings of that one.
#[derive(Debug)]
pub struct BoundSet {
    ptrs: HashSet<usize>,
    ranges: HashMap<usize, Vec<BoundRange>>,
}

impl View for BoundSet {
    type V = BoundView;

    closed spec fn view(&self) -> BoundView {
        BoundView {
            ptrs: self.ptrs@,
            ranges: Set::new(
                |r: BoundRange| self.ranges@.contains_key(r.ptr) && self.ranges@[r.ptr]@.contains(r),
            ),
        }
    }
}

impl Default for BoundSet {
    fn default() -> (s: Self)
        ensures
            s@ == BoundView::empty(),
            s.well_formed(),
    {
        let s = BoundSet { ptrs: HashSet::new(), ranges: HashMap::new() };
        assert(s@ =~= BoundView::empty());
        s
    }
}

impl BoundSet {
    /// Every range stands in the bucket of its allocation.
    pub closed spec fn well_formed(self) -> bool {
        forall|p: usize, i: int|
            self.ranges@.contains_key(p) && 0 <= i < self.ranges@[p]@.len() ==> (
            #[trigger] self.ranges@[p]@[i]).ptr == p
    }

    fn insert_range(&mut self, b: BoundRange)
        requires
            old(self).well_formed(),
        ensures
            final(self).well_formed(),
            final(self)@ == old(self)@.with(HazardKey::Range, b),
    {
        let mut bucket: Vec<BoundRange> = match self.ranges.remove(&b.ptr) {
            Some(v) => v,
            None => Vec::new(),
        };
        let ghost before = bucket@;
        assert(old(self).ranges@.contains_key(b.ptr) ==> before == old(self).ranges@[b.ptr]@);
        assert(!old(self).ranges@.contains_key(b.ptr) ==> before == Seq::<BoundRange>::empty());
        let mut known: bool = false;
        for i in 0..bucket.len()
            invariant
                known <==> exists|j: int| 0 <= j < i && bucket@[j] == b,
        {
            if bucket[i] == b {
                assert(bucket@[i as int] == b);
                known = true;
            }
        }
        if !known {
            bucket.push(b);
        }
        let ghost after = bucket@;
        self.ranges.insert(b.ptr, bucket);
        proof {
            assert forall|r: BoundRange| after.contains(r) <==> before.contains(r) || r == b by {
                if before.contains(r) {
                    let j = choose|j: int| 0 <= j < before.len() && before[j] == r;
                    assert(after[j] == r);
                }
                if r == b && !known {
                    assert(after[after.len() - 1] == b);
                }
            }
            assert(self@.ranges =~= old(self)@.ranges.insert(b));
            assert(self@ =~= old(self)@.with(HazardKey::Range, b));
            assert forall|p: usize, i: int|
                self.ranges@.contains_key(p) && 0 <= i < self.ranges@[p]@.len() implies (
            #[trigger] self.ranges@[p]@[i]).ptr == p by {
                if p == b.ptr {
                    if i < before.len() {
                        assert(old(self).ranges@[p]@[i].ptr == p);
                    }
                } else {
                    assert(old(self).ranges@[p]@[i].ptr == p);
                }
            }
        }
    }

    /// Record a binding.
    pub fn insert(&mut self, key: HazardKey, b: BoundRange)
        requires
            old(self).well_formed(),
        ensures
            final(self).well_formed(),
            final(self)@ == old(self)@.with(key, b),
    {
        match key {
            HazardKey::Pointer => {
                self.ptrs.insert(b.ptr);
                assert(self@ =~= old(self)@.with(key, b));
            },
            HazardKey::Range => {
                self.insert_range(b);
            },
        }
    }

    /// Whether a recorded binding can touch a byte that `b` can touch.
    pub fn conflicts(&self, key: HazardKey, b: &BoundRange) -> (c: bool)
        requires
            self.well_formed(),
        ensures
            c == self@.conflicts(key, *b),
    {
        match key {
            HazardKey::Pointer => self.ptrs.contains(&b.ptr),
            HazardKey::Range => {
                match self.ranges.get(&b.ptr) {
                    None => false,
                    Some(bucket) => {
                        for i in 0..bucket.len()
                            invariant
                                key == HazardKey::Range,
                                self.well_formed(),
                                self.ranges@.contains_key(b.ptr),
                                *bucket == self.ranges@[b.ptr],
                                forall|j: int| 0 <= j < i ==> !(#[trigger] bucket@[j]).spec_overlaps(*b),
                        {
                            if bucket[i].overlaps(b) {
                                proof {
                                    let r = bucket@[i as int];
                                    assert(self.ranges@[b.ptr]@[i as int].ptr == b.ptr);
                                    assert(bucket@.contains(r));
                                    assert(self@.ranges.contains(r));
                                }
                                return true;
                            }
                        }
                        false
                    },
                }
            },
        }
    }

    /// Move every binding of `other` into this set.
    pub fn absorb(&mut self, other: &mut BoundSet)
        requires
            old(self).well_formed(),
            old(other).well_formed(),
        ensures
            final(self).well_formed(),
            final(other).well_formed(),
            final(self)@ == old(self)@.union(old(other)@),
            final(other)@ == BoundView::empty(),
    {
        let from = other.take();
        for p in it: from.ptrs.iter()
            invariant
                self.well_formed(),
                self@.ranges == old(self)@.ranges,
                forall|x: usize| #[trigger]
                    self@.ptrs.contains(x) <==> old(self)@.ptrs.contains(x) || it.seq().unref().take(
                        it.index(),
                    ).contains(x),
                it.seq().unref().to_set() == from.ptrs@,
                it.index() == it.seq().len() ==> self@.ptrs == old(self)@.ptrs.union(from.ptrs@),
        {
            let ghost before = self@.ptrs;
            let ghost seen = it.seq().unref();
            let ghost k = it.index();
            self.ptrs.insert(*p);
            proof {
                assert(self@.ptrs == before.insert(*p));
                assert(seen.take(k + 1) =~= seen.take(k).push(*p));
                assert forall|x: usize| #[trigger] self@.ptrs.contains(x) <==> old(
                    self,
                )@.ptrs.contains(x) || seen.take(k + 1).contains(x) by {
                    lemma_push_contains(seen.take(k), *p, x);
                }
                assert(k + 1 == seen.len() ==> seen.take(k + 1) =~= seen);
                assert(k + 1 == seen.len() ==> self@.ptrs =~= old(self)@.ptrs.union(seen.to_set()));
            }
        }
        assert(self@.ptrs == old(self)@.ptrs.union(from.ptrs@));
        for (p, bucket) in it: from.ranges.iter()
            invariant
                self.well_formed(),
                from.well_formed(),
                self@.ptrs == old(self)@.ptrs.union(from.ptrs@),
                forall|r: BoundRange| #[trigger]
                    self@.ranges.contains(r) <==> old(self)@.ranges.contains(r) || poured(
                        it.seq().unref(),
                        it.index(),
                        r,
                    ),
                forall|j: int|
                    0 <= j < it.seq().len() ==> from.ranges@.contains_key(
                        (#[trigger] it.seq().unref()[j]).0,
                    ) && from.ranges@[it.seq().unref()[j].0] == it.seq().unref()[j].1,
                it.seq().unref().to_set() == from.ranges@.kv_pairs(),
                forall|q: usize| #[trigger]
                    from.ranges@.contains_key(q) ==> from.ranges@.kv_pairs().contains(
                        (q, from.ranges@[q]),
                    ),
        {
            let ghost before = self@.ranges;
            let ghost seen = it.seq().unref();
            let ghost k = it.index();
            assert(seen[k] == (*p, *bucket));
            for i in 0..bucket.len()
                invariant
                    self.well_formed(),
                    self@.ptrs == old(self)@.ptrs.union(from.ptrs@),
                    forall|r: BoundRange| #[trigger]
                        self@.ranges.contains(r) <==> before.contains(r) || bucket@.take(
                            i as int,
                        ).contains(r),
            {
                self.insert_range(bucket[i]);
                proof {
                    assert(bucket@.take(i + 1) =~= bucket@.take(i as int).push(bucket@[i as int]));
                    assert forall|r: BoundRange| #[trigger]
                        self@.ranges.contains(r) <==> before.contains(r) || bucket@.take(
                            i + 1,
                        ).contains(r) by {
                        lemma_push_contains(bucket@.take(i as int), bucket@[i as int], r);
                    }
                }
            }
            proof {
                assert(bucket@.take(bucket@.len() as int) =~= bucket@);
                assert forall|r: BoundRange| #[trigger] self@.ranges.contains(r) <==> old(
                    self,
                )@.ranges.contains(r) || poured(seen, k + 1, r) by {
                    assert(poured(seen, k + 1, r) <==> poured(seen, k, r) || seen[k].1@.contains(
                        r,
                    ));
                }
            }
        }
    }

    /// Empty the set and return what it held.
    pub fn take(&mut self) -> (s: BoundSet)
        requires
            old(self).well_formed(),
        ensures
            s.well_formed(),
            final(self).well_formed(),
            s@ == old(self)@,
            final(self)@ == BoundView::empty(),
    {
        let mut s = BoundSet::default();
        std::mem::swap(&mut s, self);
        s
    }
}

/// The directions in which a read meets what was bound before it: it can only read what was
/// written. Two reads never conflict.
pub open spec fn read_kinds(outputs: BoundView, key: HazardKey, range: BoundRange) -> Set<HazardKind> {
    if outputs.conflicts(key, range) {
        Set::empty().insert(HazardKind::Raw)
    } else {
        Set::empty()
    }
}

/// The directions in which a write meets what was bound before it: it can overwrite what was
/// written and what was read, and both at once.
pub open spec fn write_kinds(
    outputs: BoundView,
    inputs: BoundView,
    key: HazardKey,
    range: BoundRange,
) -> Set<HazardKind> {
    let over_write = if outputs.conflicts(key, range) {
        Set::empty().insert(HazardKind::Waw)
    } else {
        Set::empty()
    };
    if inputs.conflicts(key, range) {
        over_write.insert(HazardKind::War)
    } else {
        over_write
    }
}

/// Which directions a read binding conflicts in, given what was bound before it.
pub fn read_hazards(prev_outputs: &BoundSet, key: HazardKey, range: &BoundRange) -> (k: HazardKinds)
    requires
        prev_outputs.well_formed(),
    ensures
        k@ == read_kinds(prev_outputs@, key, *range),
        k.well_formed(),
{
    let mut kinds = HazardKinds::none();
    if prev_outputs.conflicts(key, range) {
        kinds.insert(HazardKind::Raw);
    }
    kinds
}

/// Which directions a write binding conflicts in, given what was bound before it. Both tests run,
/// whatever the first one says.
pub fn write_hazards(
    prev_outputs: &BoundSet,
    prev_inputs: &BoundSet,
    key: HazardKey,
    range: &BoundRange,
) -> (k: HazardKinds)
    requires
        prev_outputs.well_formed(),
        prev_inputs.well_formed(),
    ensures
        k@ == write_kinds(prev_outputs@, prev_inputs@, key, *range),
        k.well_formed(),
{
    let mut kinds = HazardKinds::none();
    if prev_outputs.conflicts(key, range) {
        kinds.insert(HazardKind::Waw);
    }
    if prev_inputs.conflicts(key, range) {
        kinds.insert(HazardKind::War);
    }
    kinds
}

/// Keying by range only ever removes conflicts: of the same bindings, one that conflicts by range
/// conflicts by allocation too.
pub proof fn law_range_keying_refines_pointer_keying(
    by_pointer: BoundView,
    by_range: BoundView,
    b: BoundRange,
)
    requires
        forall|r: BoundRange| #[trigger]
            by_range.ranges.contains(r) ==> by_pointer.ptrs.contains(r.ptr),
    ensures
        by_range.conflicts(HazardKey::Range, b) ==> by_pointer.conflicts(HazardKey::Pointer, b),
{
}

/// Recording one more binding under both keyings keeps what the refinement needs.
pub proof fn law_bindings_refine_together(by_pointer: BoundView, by_range: BoundView, b: BoundRange)
    requires
        forall|r: BoundRange| #[trigger]
            by_range.ranges.contains(r) ==> by_pointer.ptrs.contains(r.ptr),
    ensures
        forall|r: BoundRange| #[trigger]
            by_range.with(HazardKey::Range, b).ranges.contains(r) ==> by_pointer.with(
                HazardKey::Pointer,
                b,
            ).ptrs.contains(r.ptr),
{
}

/// An edge that range keying drops is one whose two bindings have no byte in common.
pub proof fn law_dropped_edges_share_no_byte(set: BoundView, b: BoundRange, r: BoundRange, at: int)
    requires
        !set.conflicts(HazardKey::Range, b),
        set.ranges.contains(r),
    ensures
        !(r.touches(b.ptr, at) && b.touches(b.ptr, at)),
{
}

/// Hazard state of one encoder session, as mathematical values.
#[verifier::ext_equal]
pub struct EncoderView {
    pub hazard_key: HazardKey,
    pub prev_outputs: BoundView,
    pub next_outputs: BoundView,
    pub prev_inputs: BoundView,
    pub next_inputs: BoundView,
    pub needs_barrier: bool,
    pub pending_kinds: Set<HazardKind>,
    pub all_inputs: Set<usize>,
    pub all_outputs: Set<usize>,
    pub waited_fences: Set<usize>,
    /// Name of the pipeline set last.
    pub pipeline: Option<Seq<char>>,
}

impl EncoderView {
    /// A session that has bound nothing.
    pub open spec fn fresh(hazard_key: HazardKey) -> Self {
        EncoderView {
            hazard_key,
            prev_outputs: BoundView::empty(),
            next_outputs: BoundView::empty(),
            prev_inputs: BoundView::empty(),
            next_inputs: BoundView::empty(),
            needs_barrier: false,
            pending_kinds: Set::empty(),
            all_inputs: Set::empty(),
            all_outputs: Set::empty(),
            waited_fences: Set::empty(),
            pipeline: None,
        }
    }

    /// Hazards in these directions were met.
    pub open spec fn met(self, kinds: Set<HazardKind>) -> Self {
        EncoderView {
            needs_barrier: self.needs_barrier || kinds != Set::<HazardKind>::empty(),
            pending_kinds: self.pending_kinds.union(kinds),
            ..self
        }
    }

    /// The session after a read binding.
    pub open spec fn reads(self, range: BoundRange) -> Self {
        EncoderView {
            next_inputs: self.next_inputs.with(self.hazard_key, range),
            all_inputs: self.all_inputs.insert(range.ptr),
            ..self.met(read_kinds(self.prev_outputs, self.hazard_key, range))
        }
    }

    /// The session after a write binding.
    pub open spec fn writes(self, range: BoundRange) -> Self {
        EncoderView {
            next_outputs: self.next_outputs.with(self.hazard_key, range),
            all_outputs: self.all_outputs.insert(range.ptr),
            ..self.met(write_kinds(self.prev_outputs, self.prev_inputs, self.hazard_key, range))
        }
    }

    /// The session after a binding that is only recorded, with no hazard looked for.
    pub open spec fn stages(self, range: BoundRange) -> Self {
        EncoderView {
            next_inputs: self.next_inputs.with(self.hazard_key, range),
            all_inputs: self.all_inputs.insert(range.ptr),
            ..self
        }
    }

    /// The fence that the session has to wait on before it touches `ptr`: that of its last
    /// writer, unless the session has waited on it already.
    pub open spec fn wait_of(self, writers: Map<usize, usize>, ptr: usize) -> Option<usize> {
        if writers.contains_key(ptr) && !self.waited_fences.contains(writers[ptr]) {
            Some(writers[ptr])
        } else {
            None
        }
    }

    /// The session after that wait.
    pub open spec fn waited(self, writers: Map<usize, usize>, ptr: usize) -> Self {
        EncoderView {
            waited_fences: match self.wait_of(writers, ptr) {
                Some(f) => self.waited_fences.insert(f),
                None => self.waited_fences,
            },
            ..self
        }
    }

    /// What the dispatch that follows does to the bindings when no barrier is emitted: the new
    /// ones join the old ones, and everything that is pending stays so.
    pub open spec fn rolled(self) -> Self {
        EncoderView {
            prev_outputs: self.prev_outputs.union(self.next_outputs),
            next_outputs: BoundView::empty(),
            prev_inputs: self.prev_inputs.union(self.next_inputs),
            next_inputs: BoundView::empty(),
            ..self
        }
    }

    /// What it does when a barrier is emitted: the new bindings replace the old ones, which are
    /// ordered against everything that follows.
    pub open spec fn fenced(self) -> Self {
        EncoderView {
            prev_outputs: self.next_outputs,
            next_outputs: BoundView::empty(),
            prev_inputs: self.next_inputs,
            next_inputs: BoundView::empty(),
            needs_barrier: false,
            pending_kinds: Set::empty(),
            ..self
        }
    }

    /// A barrier is pending exactly where a direction is.
    pub open spec fn latched(self) -> bool {
        self.needs_barrier <==> self.pending_kinds != Set::<HazardKind>::empty()
    }
}

/// Barrier tracking state for one encoder session.
pub struct EncoderState {
    /// How hazards are keyed this session.
    pub hazard_key: HazardKey,
    /// Bindings written since the last barrier.
    pub prev_outputs: BoundSet,
    pub next_outputs: BoundSet,
    /// Bindings read since the last barrier.
    pub prev_inputs: BoundSet,
    pub next_inputs: BoundSet,
    pub needs_barrier: bool,
    /// Which hazard directions the pending barrier is owed to.
    pub pending_kinds: HazardKinds,
    /// Every allocation read this session.
    pub all_inputs: HashSet<usize>,
    /// Every allocation written this session.
    pub all_outputs: HashSet<usize>,
    /// Fences already waited on this session.
    pub waited_fences: HashSet<usize>,
    /// Name of the pipeline set last, so that a dispatch can be attributed to a kernel.
    pub current_pipeline: Option<String>,
}

impl View for EncoderState {
    type V = EncoderView;

    open spec fn view(&self) -> EncoderView {
        EncoderView {
            hazard_key: self.hazard_key,
            prev_outputs: self.prev_outputs@,
            next_outputs: self.next_outputs@,
            prev_inputs: self.prev_inputs@,
            next_inputs: self.next_inputs@,
            needs_barrier: self.needs_barrier,
            pending_kinds: self.pending_kinds@,
            all_inputs: self.all_inputs@,
            all_outputs: self.all_outputs@,
            waited_fences: self.waited_fences@,
            pipeline: match self.current_pipeline {
                Some(s) => Some(s@),
                None => None,
            },
        }
    }
}

/// What stands before a dispatch.
#[derive(Clone, Copy, Debug, PartialEq, Eq, Structural)]
pub enum Barrier {
    /// Nothing: no hazard is pending.
    NotNeeded,
    /// A barrier, owed to these directions.
    Emit(HazardKinds),
    /// Nothing yet: the ordering is already encoded on the command that replaces this dispatch,
    /// and the barrier stays pending for the next one.
    Deferred,
}

impl Default for EncoderState {
    fn default() -> (s: Self)
        ensures
            s@ == EncoderView::fresh(HazardKey::Pointer),
            s.well_formed(),
    {
        EncoderState::new()
    }
}

impl EncoderState {
    pub open spec fn well_formed(self) -> bool {
        &&& self.prev_outputs.well_formed()
        &&& self.next_outputs.well_formed()
        &&& self.prev_inputs.well_formed()
        &&& self.next_inputs.well_formed()
        &&& self.pending_kinds.well_formed()
        &&& self@.latched()
    }

    pub fn new() -> (s: Self)
        ensures
            s@ == EncoderView::fresh(HazardKey::Pointer),
            s.well_formed(),
    {
        EncoderState::with_hazard_key(HazardKey::Pointer)
    }

    pub fn with_hazard_key(hazard_key: HazardKey) -> (s: Self)
        ensures
            s@ == EncoderView::fresh(hazard_key),
            s.well_formed(),
    {
        EncoderState {
            hazard_key,
            prev_outputs: BoundSet::default(),
            next_outputs: BoundSet::default(),
            prev_inputs: BoundSet::default(),
            next_inputs: BoundSet::default(),
            needs_barrier: false,
            pending_kinds: HazardKinds::none(),
            all_inputs: HashSet::new(),
            all_outputs: HashSet::new(),
            waited_fences: HashSet::new(),
            current_pipeline: None,
        }
    }

    /// Record a read of `range`, and latch a barrier if it reads what was written.
    pub fn read(&mut self, range: BoundRange)
        requires
            old(self).well_formed(),
        ensures
            final(self).well_formed(),
            final(self)@ == old(self)@.reads(range),
    {
        let key = self.hazard_key;
        let kinds = read_hazards(&self.prev_outputs, key, &range);
        if !kinds.is_empty() {
            self.needs_barrier = true;
            self.pending_kinds.merge(kinds);
        }
        self.next_inputs.insert(key, range);
        self.all_inputs.insert(range.ptr);
        proof {
            lemma_met(old(self)@, kinds@);
            assert(self@ =~= old(self)@.reads(range));
        }
    }

    /// Record a write of `range`, and latch a barrier if it overwrites what was written or read.
    pub fn write(&mut self, range: BoundRange)
        requires
            old(self).well_formed(),
        ensures
            final(self).well_formed(),
            final(self)@ == old(self)@.writes(range),
    {
        let key = self.hazard_key;
        let kinds = write_hazards(&self.prev_outputs, &self.prev_inputs, key, &range);
        if !kinds.is_empty() {
            self.needs_barrier = true;
            self.pending_kinds.merge(kinds);
        }
        self.next_outputs.insert(key, range);
        self.all_outputs.insert(range.ptr);
        proof {
            lemma_met(old(self)@, kinds@);
            assert(self@ =~= old(self)@.writes(range));
        }
    }

    /// Record a read of a buffer that was made for this dispatch, which nothing can have written.
    pub fn stage(&mut self, range: BoundRange)
        requires
            old(self).well_formed(),
        ensures
            final(self).well_formed(),
            final(self)@ == old(self)@.stages(range),
    {
        let key = self.hazard_key;
        self.next_inputs.insert(key, range);
        self.all_inputs.insert(range.ptr);
        assert(self@ =~= old(self)@.stages(range));
    }

    /// The fence of the last writer of `ptr`, the first time that this session needs it.
    pub fn wait_for_buffer(&mut self, writers: &HashMap<usize, usize>, ptr: usize) -> (f: Option<usize>)
        requires
            old(self).well_formed(),
        ensures
            final(self).well_formed(),
            f == old(self)@.wait_of(writers@, ptr),
            final(self)@ == old(self)@.waited(writers@, ptr),
    {
        match writers.get(&ptr) {
            None => {
                assert(self@ =~= old(self)@.waited(writers@, ptr));
                None
            },
            Some(fence) => {
                let fence: usize = *fence;
                if self.waited_fences.insert(fence) {
                    assert(self@ =~= old(self)@.waited(writers@, ptr));
                    Some(fence)
                } else {
                    assert(self@ =~= old(self)@.waited(writers@, ptr));
                    None
                }
            },
        }
    }

    fn roll(&mut self)
        requires
            old(self).well_formed(),
        ensures
            final(self).well_formed(),
            final(self)@ == old(self)@.rolled(),
            final(self).pending_kinds == old(self).pending_kinds,
    {
        let mut next_out = self.next_outputs.take();
        self.prev_outputs.absorb(&mut next_out);
        let mut next_in = self.next_inputs.take();
        self.prev_inputs.absorb(&mut next_in);
        assert(self@ =~= old(self)@.rolled());
    }

    /// Decides what stands before the dispatch that is about to be encoded, and rolls the
    /// bindings accordingly.
    ///
    /// A barrier that is held back is deferred, never dropped: it stays pending with its
    /// directions, and what was bound before it stays on record.
    pub fn auto_barrier(&mut self, disposition: Disposition) -> (b: Barrier)
        requires
            old(self).well_formed(),
        ensures
            final(self).well_formed(),
            !old(self).needs_barrier ==> b is NotNeeded && final(self)@ == old(self)@.rolled(),
            old(self).needs_barrier && disposition is ReplayedInFlightRun ==> b is Deferred
                && final(self)@ == old(self)@.rolled(),
            old(self).needs_barrier && disposition is Unknown ==> b == Barrier::Emit(
                old(self).pending_kinds,
            ) && final(self)@ == old(self)@.fenced(),
    {
        if self.needs_barrier {
            match disposition {
                Disposition::ReplayedInFlightRun => {
                    self.roll();
                    return Barrier::Deferred;
                },
                Disposition::Unknown => {},
            }
            let kinds = self.pending_kinds.take();
            self.needs_barrier = false;
            self.prev_outputs = self.next_outputs.take();
            self.prev_inputs = self.next_inputs.take();
            assert(self@ =~= old(self)@.fenced());
            Barrier::Emit(kinds)
        } else {
            self.roll();
            Barrier::NotNeeded
        }
    }
}

proof fn lemma_met(v: EncoderView, kinds: Set<HazardKind>)
    ensures
        kinds == Set::<HazardKind>::empty() ==> v.met(kinds) == v,
        v.latched() ==> v.met(kinds).latched(),
{
    if kinds == Set::<HazardKind>::empty() {
        assert(v.pending_kinds.union(kinds) =~= v.pending_kinds);
        assert(v.met(kinds) =~= v);
    } else {
        let k = choose|k: HazardKind| kinds.contains(k);
        if forall|k: HazardKind| !kinds.contains(k) {
            assert(kinds =~= Set::<HazardKind>::empty());
        }
        assert(v.pending_kinds.union(kinds).contains(k));
    }
}

/// A barrier that is held back is emitted before the next dispatch that is encoded classically,
/// with every direction it was owed to, unless no hazard was pending at all.
pub proof fn law_held_back_barrier_is_deferred(v: EncoderView)
    requires
        v.needs_barrier,
    ensures
        v.rolled().needs_barrier,
        v.rolled().pending_kinds == v.pending_kinds,
{
}

/// What was bound before a dispatch that emits no barrier still conflicts with what follows it,
/// and so does what that dispatch bound itself.
pub proof fn law_rolling_forgets_no_binding(v: EncoderView, b: BoundRange)
    ensures
        v.prev_outputs.conflicts(v.hazard_key, b) || v.next_outputs.conflicts(v.hazard_key, b)
            <==> v.rolled().prev_outputs.conflicts(v.hazard_key, b),
        v.prev_inputs.conflicts(v.hazard_key, b) || v.next_inputs.conflicts(v.hazard_key, b)
            <==> v.rolled().prev_inputs.conflicts(v.hazard_key, b),
{
    lemma_union_conflicts(v.prev_outputs, v.next_outputs, v.hazard_key, b);
    lemma_union_conflicts(v.prev_inputs, v.next_inputs, v.hazard_key, b);
}

proof fn lemma_union_conflicts(s: BoundView, t: BoundView, key: HazardKey, b: BoundRange)
    ensures
        s.union(t).conflicts(key, b) <==> s.conflicts(key, b) || t.conflicts(key, b),
{
    if key == HazardKey::Range {
        if s.conflicts(key, b) {
            let r = choose|r: BoundRange| #[trigger] s.ranges.contains(r) && r.spec_overlaps(b);
            assert(s.union(t).ranges.contains(r));
        }
        if t.conflicts(key, b) {
            let r = choose|r: BoundRange| #[trigger] t.ranges.contains(r) && r.spec_overlaps(b);
            assert(s.union(t).ranges.contains(r));
        }
    }
}

/// A dispatch that reads what the dispatch before it wrote is never encoded without a barrier
/// between the two: whatever the session held, after a write of `w`, a dispatch, and a read of `r`
/// that shares a byte with it, a barrier is pending, and so is its direction.
pub proof fn law_read_after_write_latches(v: EncoderView, w: BoundRange, r: BoundRange)
    requires
        w.spec_overlaps(r),
    ensures
        v.writes(w).rolled().reads(r).needs_barrier,
        v.writes(w).rolled().reads(r).pending_kinds.contains(HazardKind::Raw),
        v.writes(w).fenced().reads(r).needs_barrier,
        v.writes(w).fenced().reads(r).pending_kinds.contains(HazardKind::Raw),
{
    lemma_bound_conflicts(v.next_outputs, v.hazard_key, w, r);
    lemma_union_conflicts(v.prev_outputs, v.next_outputs.with(v.hazard_key, w), v.hazard_key, r);
    assert(read_kinds(v.writes(w).rolled().prev_outputs, v.hazard_key, r).contains(HazardKind::Raw));
    assert(read_kinds(v.writes(w).fenced().prev_outputs, v.hazard_key, r).contains(HazardKind::Raw));
}

/// The same of a write that follows a write or a read of the same byte.
pub proof fn law_write_after_access_latches(v: EncoderView, a: BoundRange, w: BoundRange)
    requires
        a.spec_overlaps(w),
    ensures
        v.writes(a).rolled().writes(w).needs_barrier,
        v.writes(a).rolled().writes(w).pending_kinds.contains(HazardKind::Waw),
        v.reads(a).rolled().writes(w).needs_barrier,
        v.reads(a).rolled().writes(w).pending_kinds.contains(HazardKind::War),
        v.writes(a).fenced().writes(w).pending_kinds.contains(HazardKind::Waw),
        v.reads(a).fenced().writes(w).pending_kinds.contains(HazardKind::War),
{
    let key = v.hazard_key;
    lemma_bound_conflicts(v.next_outputs, key, a, w);
    lemma_bound_conflicts(v.next_inputs, key, a, w);
    lemma_union_conflicts(v.prev_outputs, v.next_outputs.with(key, a), key, w);
    lemma_union_conflicts(v.prev_inputs, v.next_inputs.with(key, a), key, w);
    let x = v.writes(a).rolled();
    let y = v.reads(a).rolled();
    assert(write_kinds(x.prev_outputs, x.prev_inputs, key, w).contains(HazardKind::Waw));
    assert(write_kinds(y.prev_outputs, y.prev_inputs, key, w).contains(HazardKind::War));
    let x2 = v.writes(a).fenced();
    let y2 = v.reads(a).fenced();
    assert(write_kinds(x2.prev_outputs, x2.prev_inputs, key, w).contains(HazardKind::Waw));
    assert(write_kinds(y2.prev_outputs, y2.prev_inputs, key, w).contains(HazardKind::War));
}

proof fn lemma_bound_conflicts(s: BoundView, key: HazardKey, a: BoundRange, b: BoundRange)
    requires
        a.spec_overlaps(b),
    ensures
        s.with(key, a).conflicts(key, b),
{
    assert(key == HazardKey::Range ==> s.with(key, a).ranges.contains(a));
}

/// Two reads never conflict, whatever they share: having read `a`, a read of `b` latches exactly
/// what it would have latched without, and in a session that wrote nothing that is nothing.
pub proof fn law_two_reads_never_conflict(v: EncoderView, a: BoundRange, b: BoundRange)
    ensures
        read_kinds(v.reads(a).rolled().prev_outputs, v.hazard_key, b) == read_kinds(
            v.rolled().prev_outputs,
            v.hazard_key,
            b,
        ),
        read_kinds(v.reads(a).fenced().prev_outputs, v.hazard_key, b) == read_kinds(
            v.fenced().prev_outputs,
            v.hazard_key,
            b,
        ),
        v == EncoderView::fresh(v.hazard_key) ==> !v.reads(a).rolled().reads(b).needs_barrier,
{
    if v == EncoderView::fresh(v.hazard_key) {
        let w = v.reads(a).rolled();
        assert(v.prev_outputs.union(v.next_outputs) =~= BoundView::empty());
        assert(!w.prev_outputs.conflicts(v.hazard_key, b));
    }
}

/// The keying that new encoder sessions adopt, and whether it has been settled.
#[derive(Clone, Copy, Debug, PartialEq, Eq, Structural)]
pub struct HazardSetting {
    pub key: HazardKey,
    /// The environment has been consulted, or an explicit choice made.
    pub settled: bool,
}

impl Default for HazardSetting {
    fn default() -> (s: Self)
        ensures
            s == (HazardSetting { key: HazardKey::Pointer, settled: false }),
    {
        HazardSetting { key: HazardKey::Pointer, settled: false }
    }
}

/// Selects how new encoder sessions key hazards. An explicit choice wins over the environment.
pub fn set_hazard_key(setting: &mut HazardSetting, key: HazardKey)
    ensures
        *final(setting) == (HazardSetting { key, settled: true }),
{
    setting.settled = true;
    setting.key = key;
}

/// The keying that new encoder sessions will use. `env` is what the environment asks for, and is
/// heard once, and only if nothing was chosen before.
pub fn hazard_key(setting: &mut HazardSetting, env: Option<&str>) -> (k: HazardKey)
    requires
        !old(setting).settled && env is Some ==> HazardKey::named(env->0@) is Some,
    ensures
        k == final(setting).key,
        final(setting).settled,
        final(setting).key == (if !old(setting).settled && env is Some && HazardKey::named(env->0@)
            == Some(HazardKey::Range) {
            HazardKey::Range
        } else {
            old(setting).key
        }),
{
    if !setting.settled {
        setting.settled = true;
        if let Some(word) = env {
            if let Some(HazardKey::Range) = HazardKey::parse(word) {
                setting.key = HazardKey::Range;
            }
        }
    }
    setting.key
}

/// Zero bytes that take a length of `n` up to a multiple of `align`.
pub open spec fn pad_len(n: int, align: int) -> int {
    if n % align == 0 {
        0
    } else {
        align - n % align
    }
}

/// The bytes with zeros behind them, up to a multiple of `align`.
pub open spec fn padded_bytes(bytes: Seq<u8>, align: int) -> Seq<u8> {
    bytes + Seq::new(pad_len(bytes.len() as int, align) as nat, |i: int| 0u8)
}

/// Padding adds less than one alignment, and ends on a multiple of it.
pub proof fn law_padding_aligns(bytes: Seq<u8>, align: int)
    requires
        align > 0,
    ensures
        padded_bytes(bytes, align).len() % (align as nat) == 0,
        bytes.len() <= padded_bytes(bytes, align).len() < bytes.len() + align,
        padded_bytes(bytes, align).take(bytes.len() as int) == bytes,
{
    let n = bytes.len() as int;
    vstd::arithmetic::div_mod::lemma_fundamental_div_mod(n, align);
    vstd::arithmetic::div_mod::lemma_mod_bound(n, align);
    let total = n + pad_len(n, align);
    let q = n / align;
    if n % align != 0 {
        assert(total == align * (q + 1)) by (nonlinear_arith)
            requires
                n == align * q + n % align,
                total == n + align - n % align,
        ;
        vstd::arithmetic::div_mod::lemma_mod_multiples_basic(q + 1, align);
        assert(align * (q + 1) == (q + 1) * align) by (nonlinear_arith);
    }
    assert(padded_bytes(bytes, align).len() == total);
    assert(padded_bytes(bytes, align).take(n) =~= bytes);
}

fn pad_to(bytes: &mut Vec<u8>, align: usize)
    requires
        align > 0,
    ensures
        final(bytes)@ == padded_bytes(old(bytes)@, align as int),
{
    let m: usize = bytes.len() % align;
    let n: usize = if m == 0 {
        0
    } else {
        align - m
    };
    for i in 0..n
        invariant
            bytes@ == old(bytes)@ + Seq::new(i as nat, |j: int| 0u8),
    {
        bytes.push(0);
        assert(bytes@ =~= old(bytes)@ + Seq::new((i + 1) as nat, |j: int| 0u8));
    }
}

/// Scalars gathered for a packed parameter block, and the renumbering of the buffers that stay in
/// the argument list.
#[derive(Debug)]
pub struct ParamCapture {
    bytes: Vec<u8>,
    next_buffer: usize,
    staged: Vec<Buffer>,
}

/// A parameter capture as mathematical values.
#[verifier::ext_equal]
pub struct CaptureView {
    pub bytes: Seq<u8>,
    /// The slot that the next buffer binds at. Slot 0 is the block itself.
    pub next_buffer: usize,
    /// Buffers made for arrays, which have to outlive the dispatch.
    pub staged: Seq<Buffer>,
}

impl View for ParamCapture {
    type V = CaptureView;

    closed spec fn view(&self) -> CaptureView {
        CaptureView { bytes: self.bytes@, next_buffer: self.next_buffer, staged: self.staged@ }
    }
}

impl Default for ParamCapture {
    fn default() -> (c: Self)
        ensures
            c@ == (CaptureView { bytes: Seq::empty(), next_buffer: 0, staged: Seq::empty() }),
    {
        ParamCapture { bytes: Vec::new(), next_buffer: 0, staged: Vec::new() }
    }
}

/// What a binding comes to.
#[derive(Clone, Copy, Debug, PartialEq, Eq, Structural)]
pub struct Bound {
    /// The argument slot it binds at.
    pub index: usize,
    /// The byte of the allocation that the kernel starts at.
    pub offset: usize,
    /// The fence to wait on first.
    pub wait: Option<usize>,
}

/// What a dispatch comes to, in this order.
#[derive(Clone, Copy, Debug, PartialEq, Eq, Structural)]
pub struct Dispatched {
    /// What stands before it.
    pub barrier: Barrier,
    /// What is encoded in its place.
    pub action: DispatchAction,
}

/// The bookkeeping of a compute encoder: hazards, waits and parameter capture.
pub struct ComputeCommandEncoder {
    state: EncoderState,
    capturing: bool,
    capture: ParamCapture,
}

/// That bookkeeping as mathematical values.
#[verifier::ext_equal]
pub struct ComputeView {
    pub state: EncoderView,
    /// A packed parameter block is open.
    pub capturing: bool,
    pub capture: CaptureView,
}

impl View for ComputeCommandEncoder {
    type V = ComputeView;

    closed spec fn view(&self) -> ComputeView {
        ComputeView {
            state: self.state@,
            capturing: self.capturing,
            capture: self.capture@,
        }
    }
}

/// What the hazard tracking compares of a binding.
pub open spec fn range_of(buffer: Buffer, offset: usize) -> BoundRange {
    BoundRange { ptr: buffer.raw, offset, len: buffer.spec_length() }
}

impl ComputeView {
    /// The slot that a buffer binds at: the caller's own, unless scalars ahead of it were
    /// diverted into an open block.
    pub open spec fn slot(self, index: usize) -> usize {
        if self.capturing {
            self.capture.next_buffer
        } else {
            index
        }
    }

    /// The encoder once that slot is taken.
    pub open spec fn numbered(self) -> Self {
        if self.capturing {
            ComputeView {
                capture: CaptureView {
                    next_buffer: (self.capture.next_buffer + 1) as usize,
                    ..self.capture
                },
                ..self
            }
        } else {
            self
        }
    }

    /// There is a slot left to take.
    pub open spec fn can_number(self) -> bool {
        self.capturing ==> self.capture.next_buffer < usize::MAX
    }

    /// The encoder after a buffer is bound for reading, at `offset` of its region.
    pub open spec fn binds_input(self, writers: Map<usize, usize>, buffer: Buffer, offset: usize) -> Self {
        let at = (offset + buffer.base_offset) as usize;
        ComputeView {
            state: self.state.waited(writers, buffer.raw).reads(range_of(buffer, at)),
            ..self.numbered()
        }
    }

    /// The encoder after a buffer is bound for writing, at `offset` of its region.
    pub open spec fn binds_output(
        self,
        writers: Map<usize, usize>,
        buffer: Buffer,
        offset: usize,
    ) -> Self {
        let at = (offset + buffer.base_offset) as usize;
        ComputeView {
            state: self.state.waited(writers, buffer.raw).writes(range_of(buffer, at)),
            ..self.numbered()
        }
    }

    /// What stands before a dispatch, and the encoder behind it. No barrier is pending: nothing.
    /// One is, and the dispatch belongs to a run in flight: it stays pending. Otherwise it is
    /// emitted, and owed to all the directions that were met.
    pub open spec fn orders(self, d: Disposition, b: Barrier, after: Self) -> bool {
        if !self.state.needs_barrier {
            b is NotNeeded && after == (ComputeView { state: self.state.rolled(), ..self })
        } else {
            match d {
                Disposition::ReplayedInFlightRun => b is Deferred && after == (ComputeView {
                    state: self.state.rolled(),
                    ..self
                }),
                Disposition::Unknown => b is Emit && b->Emit_0@ == self.state.pending_kinds
                    && after == (ComputeView { state: self.state.fenced(), ..self }),
            }
        }
    }

    /// The record of a dispatch of this size, under the name of the pipeline set last.
    pub open spec fn records(self, grid: Grid, threads_per_threadgroup: Size3, r: DispatchRecord) -> bool {
        &&& r.grid == grid
        &&& r.threads_per_threadgroup == threads_per_threadgroup
        &&& match r.kernel {
            Some(s) => self.state.pipeline == Some(s@),
            None => self.state.pipeline is None,
        }
    }

    /// What the binding comes to.
    pub open spec fn bound(
        self,
        writers: Map<usize, usize>,
        index: usize,
        buffer: Option<&Buffer>,
        offset: usize,
    ) -> Bound {
        Bound {
            index: self.slot(index),
            offset: match buffer {
                Some(b) => (offset + b.base_offset) as usize,
                None => offset,
            },
            wait: match buffer {
                Some(b) => self.state.wait_of(writers, b.raw),
                None => None,
            },
        }
    }
}

impl ComputeCommandEncoder {
    pub closed spec fn well_formed(self) -> bool {
        self.state.well_formed()
    }

    /// The bookkeeping of a fresh session.
    pub fn new(hazard_key: HazardKey) -> (e: Self)
        ensures
            e.well_formed(),
            e@ == (ComputeView {
                state: EncoderView::fresh(hazard_key),
                capturing: false,
                capture: CaptureView {
                    bytes: Seq::empty(),
                    next_buffer: 0,
                    staged: Seq::empty(),
                },
            }),
    {
        ComputeCommandEncoder {
            state: EncoderState::with_hazard_key(hazard_key),
            capturing: false,
            capture: ParamCapture::default(),
        }
    }

    fn capture_buffer_index(&mut self, index: usize) -> (slot: usize)
        requires
            old(self).well_formed(),
            old(self)@.can_number(),
        ensures
            final(self).well_formed(),
            slot == old(self)@.slot(index),
            final(self)@ == old(self)@.numbered(),
            final(self).state == old(self).state,
    {
        if !self.capturing {
            return index;
        }
        let slot: usize = self.capture.next_buffer;
        self.capture.next_buffer = slot + 1;
        slot
    }

    fn bound_range(buffer: &Buffer, offset: usize) -> (r: BoundRange)
        ensures
            r == range_of(*buffer, offset),
    {
        BoundRange { ptr: buffer.raw_id(), offset, len: buffer.length() }
    }

    /// Binds a buffer for reading. The offset of a view within its allocation is added here, once
    /// for every binding. An installed executor is told of the slot and the byte that result.
    pub fn set_input_buffer<E: Executor>(
        &mut self,
        writers: &HashMap<usize, usize>,
        executor: &mut ExecutorSlot<E>,
        index: usize,
        buffer: Option<&Buffer>,
        offset: usize,
    ) -> (b: Bound)
        requires
            old(self).well_formed(),
            old(self)@.can_number(),
            buffer matches Some(b) ==> offset + b.base_offset <= usize::MAX,
        ensures
            final(self).well_formed(),
            b == old(self)@.bound(writers@, index, buffer, offset),
            final(self)@ == (match buffer {
                Some(buf) => old(self)@.binds_input(writers@, *buf, offset),
                None => old(self)@.numbered(),
            }),
            *old(executor) is Custom <==> *final(executor) is Custom,
            *old(executor) is Classical || buffer is None ==> *final(executor) == *old(executor),
            *old(executor) is Custom && buffer is Some ==> exists|e: &mut E|
                *e == old(executor)->Custom_0 && *final(e) == final(executor)->Custom_0
                    && #[trigger] call_ensures(
                    E::will_bind_buffer,
                    (e, b.index, buffer->0, b.offset, false),
                    (),
                ),
    {
        let slot: usize = self.capture_buffer_index(index);
        match buffer {
            None => Bound { index: slot, offset, wait: None },
            Some(buf) => {
                let at: usize = offset + buf.base_offset();
                let wait = self.state.wait_for_buffer(writers, buf.raw_id());
                self.state.read(Self::bound_range(buf, at));
                assert(self@ =~= old(self)@.binds_input(writers@, *buf, offset));
                if !executor.is_classical() {
                    executor.will_bind_buffer(slot, buf, at, false);
                }
                let b = Bound { index: slot, offset: at, wait };
                assert(b.index == slot && b.offset == at && buffer->0 == buf);
                b
            },
        }
    }

    /// Binds a buffer for writing.
    pub fn set_output_buffer<E: Executor>(
        &mut self,
        writers: &HashMap<usize, usize>,
        executor: &mut ExecutorSlot<E>,
        index: usize,
        buffer: Option<&Buffer>,
        offset: usize,
    ) -> (b: Bound)
        requires
            old(self).well_formed(),
            old(self)@.can_number(),
            buffer matches Some(b) ==> offset + b.base_offset <= usize::MAX,
        ensures
            final(self).well_formed(),
            b == old(self)@.bound(writers@, index, buffer, offset),
            final(self)@ == (match buffer {
                Some(buf) => old(self)@.binds_output(writers@, *buf, offset),
                None => old(self)@.numbered(),
            }),
            *old(executor) is Custom <==> *final(executor) is Custom,
            *old(executor) is Classical || buffer is None ==> *final(executor) == *old(executor),
            *old(executor) is Custom && buffer is Some ==> exists|e: &mut E|
                *e == old(executor)->Custom_0 && *final(e) == final(executor)->Custom_0
                    && #[trigger] call_ensures(
                    E::will_bind_buffer,
                    (e, b.index, buffer->0, b.offset, true),
                    (),
                ),
    {
        let slot: usize = self.capture_buffer_index(index);
        match buffer {
            None => Bound { index: slot, offset, wait: None },
            Some(buf) => {
                let at: usize = offset + buf.base_offset();
                let wait = self.state.wait_for_buffer(writers, buf.raw_id());
                self.state.write(Self::bound_range(buf, at));
                assert(self@ =~= old(self)@.binds_output(writers@, *buf, offset));
                if !executor.is_classical() {
                    executor.will_bind_buffer(slot, buf, at, true);
                }
                let b = Bound { index: slot, offset: at, wait };
                assert(b.index == slot && b.offset == at && buffer->0 == buf);
                b
            },
        }
    }

    /// Decides what stands before the dispatch that is about to be offered. The executor is asked
    /// what will become of it first, and is not moved on by that.
    pub fn auto_barrier<E: Executor>(&mut self, executor: &ExecutorSlot<E>) -> (b: Barrier)
        requires
            old(self).well_formed(),
        ensures
            final(self).well_formed(),
            executor is Classical ==> old(self)@.orders(Disposition::Unknown, b, final(self)@),
            executor is Custom ==> exists|d: Disposition| #[trigger]
                call_ensures(E::disposition, (&executor->Custom_0,), d) && old(self)@.orders(
                    d,
                    b,
                    final(self)@,
                ),
    {
        let disposition = executor.disposition();
        self.state.auto_barrier(disposition)
    }

    /// Whether a packed parameter block is open.
    pub fn is_capturing(&self) -> (b: bool)
        ensures
            b == self@.capturing,
    {
        self.capturing
    }

    /// Whether there is a slot left for one more buffer.
    pub fn has_slot(&self) -> (b: bool)
        ensures
            b == self@.can_number(),
    {
        !self.capturing || self.capture.next_buffer < usize::MAX
    }

    /// Opens a packed parameter block. The first buffer bound goes to slot 1.
    pub fn begin_param_capture(&mut self)
        requires
            old(self).well_formed(),
        ensures
            final(self).well_formed(),
            final(self)@ == (ComputeView {
                capturing: true,
                capture: CaptureView {
                    bytes: Seq::empty(),
                    next_buffer: 1,
                    staged: Seq::empty(),
                },
                ..old(self)@
            }),
    {
        self.capture.bytes.clear();
        self.capture.staged.clear();
        self.capture.next_buffer = 1;
        self.capturing = true;
        proof {
            assert(self.capture.bytes@ =~= Seq::empty());
            assert(self.capture.staged@ =~= Seq::empty());
        }
    }

    /// Puts a scalar into the open block, at the next multiple of its alignment. `false` where no
    /// block is open, and then nothing changes.
    pub fn capture_scalar(&mut self, bytes: &[u8], align: usize) -> (captured: bool)
        requires
            old(self).well_formed(),
            old(self)@.capturing ==> align > 0,
        ensures
            final(self).well_formed(),
            captured == old(self)@.capturing,
            final(self)@ == (if old(self)@.capturing {
                ComputeView {
                    capture: CaptureView {
                        bytes: padded_bytes(old(self)@.capture.bytes, align as int) + bytes@,
                        ..old(self)@.capture
                    },
                    ..old(self)@
                }
            } else {
                old(self)@
            }),
    {
        if !self.capturing {
            return false;
        }
        pad_to(&mut self.capture.bytes, align);
        let ghost padded = self.capture.bytes@;
        for i in 0..bytes.len()
            invariant
                self.state == old(self).state,
                self.capturing == old(self).capturing,
                self.capture.next_buffer == old(self).capture.next_buffer,
                self.capture.staged@ == old(self).capture.staged@,
                self.capture.bytes@ == padded + bytes@.take(i as int),
        {
            self.capture.bytes.push(bytes[i]);
            assert(self.capture.bytes@ =~= padded + bytes@.take(i + 1));
        }
        assert(bytes@.take(bytes@.len() as int) =~= bytes@);
        true
    }

    /// Takes over a buffer that was made for an array, while a block is open: it keeps its own
    /// argument slot, and is handed to the caller when the block closes.
    pub fn capture_array(&mut self, writers: &HashMap<usize, usize>, buffer: Buffer) -> (b: Bound)
        requires
            old(self).well_formed(),
            old(self)@.capturing,
            old(self)@.can_number(),
        ensures
            final(self).well_formed(),
            b == (Bound {
                index: old(self)@.capture.next_buffer,
                offset: 0,
                wait: old(self)@.state.wait_of(writers@, buffer.raw),
            }),
            final(self)@ == (ComputeView {
                state: old(self)@.state.waited(writers@, buffer.raw).stages(range_of(buffer, 0)),
                capture: CaptureView {
                    bytes: old(self)@.capture.bytes,
                    next_buffer: (old(self)@.capture.next_buffer + 1) as usize,
                    staged: old(self)@.capture.staged.push(buffer),
                },
                ..old(self)@
            }),
    {
        let slot: usize = self.capture_buffer_index(usize::MAX);
        let wait = self.state.wait_for_buffer(writers, buffer.raw_id());
        self.state.stage(Self::bound_range(&buffer, 0));
        self.capture.staged.push(buffer);
        Bound { index: slot, offset: 0, wait }
    }

    /// Closes the block: its bytes, padded to its own alignment, and the buffers made for arrays,
    /// which the caller holds until the dispatch has completed. An alignment of 0 pads nothing.
    pub fn end_param_capture(&mut self, align: usize) -> (res: (Vec<u8>, Vec<Buffer>))
        requires
            old(self).well_formed(),
        ensures
            final(self).well_formed(),
            res.0@ == (if align == 0 {
                old(self)@.capture.bytes
            } else {
                padded_bytes(old(self)@.capture.bytes, align as int)
            }),
            res.1@ == old(self)@.capture.staged,
            final(self)@ == (ComputeView {
                capturing: false,
                capture: CaptureView {
                    bytes: Seq::empty(),
                    next_buffer: old(self)@.capture.next_buffer,
                    staged: Seq::empty(),
                },
                ..old(self)@
            }),
    {
        self.capturing = false;
        let mut bytes: Vec<u8> = Vec::new();
        std::mem::swap(&mut bytes, &mut self.capture.bytes);
        let mut staged: Vec<Buffer> = Vec::new();
        std::mem::swap(&mut staged, &mut self.capture.staged);
        if align != 0 {
            pad_to(&mut bytes, align);
        }
        (bytes, staged)
    }

    /// Tells an installed executor which pipeline is set, and remembers its name where anything
    /// asks for it: an installed executor, or profiling.
    pub fn note_pipeline<E: Executor>(
        &mut self,
        executor: &mut ExecutorSlot<E>,
        pipeline: usize,
        name: Option<String>,
        profiling: bool,
    )
        requires
            old(self).well_formed(),
        ensures
            final(self).well_formed(),
            final(self)@ == (if *old(executor) is Custom || profiling {
                ComputeView {
                    state: EncoderView {
                        pipeline: match name {
                            Some(s) => Some(s@),
                            None => None,
                        },
                        ..old(self)@.state
                    },
                    ..old(self)@
                }
            } else {
                old(self)@
            }),
            *old(executor) is Classical ==> *final(executor) == *old(executor),
            *old(executor) is Custom <==> *final(executor) is Custom,
            *old(executor) is Custom ==> exists|e: &mut E|
                *e == old(executor)->Custom_0 && *final(e) == final(executor)->Custom_0
                    && #[trigger] call_ensures(E::will_set_pipeline, (e, pipeline), ()),
    {
        let has_executor: bool = !executor.is_classical();
        if has_executor {
            executor.will_set_pipeline(pipeline);
        }
        if !has_executor && !profiling {
            return;
        }
        self.state.current_pipeline = name;
    }

    /// What a dispatch is attributed to.
    pub fn dispatch_label(&self) -> (s: String)
        ensures
            s@ == (match self@.state.pipeline {
                Some(name) => name,
                None => "<unnamed>"@,
            }),
    {
        match &self.state.current_pipeline {
            Some(name) => name.clone(),
            None => "<unnamed>".to_owned(),
        }
    }

    /// The record of a dispatch, as an executor sees it.
    pub fn dispatch_record(&self, grid: Grid, threads_per_threadgroup: Size3) -> (r: DispatchRecord)
        ensures
            self@.records(grid, threads_per_threadgroup, r),
    {
        let kernel: Option<String> = match &self.state.current_pipeline {
            Some(name) => Some(name.clone()),
            None => None,
        };
        DispatchRecord { kernel, grid, threads_per_threadgroup }
    }

    /// Offers a dispatch to the executor. With none installed it is encoded, and no record is
    /// built.
    pub fn offer_to_executor<E: Executor>(
        &self,
        executor: &mut ExecutorSlot<E>,
        grid: Grid,
        threads_per_threadgroup: Size3,
    ) -> (a: DispatchAction)
        ensures
            *old(executor) is Classical ==> a is Encode && *final(executor) == *old(executor),
            *old(executor) is Custom <==> *final(executor) is Custom,
            *old(executor) is Custom ==> exists|record: DispatchRecord, e: &mut E|
                self@.records(grid, threads_per_threadgroup, record) && *e
                    == old(executor)->Custom_0 && *final(e) == final(executor)->Custom_0
                    && #[trigger] call_ensures(E::dispatch_action, (e, &record), a),
    {
        if executor.is_classical() {
            return DispatchAction::Encode;
        }
        let record = self.dispatch_record(grid, threads_per_threadgroup);
        executor.dispatch_action(&record)
    }

    /// Dispatches a grid given in threads.
    pub fn dispatch_threads<E: Executor>(
        &mut self,
        executor: &mut ExecutorSlot<E>,
        threads_per_grid: Size3,
        threads_per_threadgroup: Size3,
    ) -> (d: Dispatched)
        requires
            old(self).well_formed(),
        ensures
            final(self).well_formed(),
            *old(executor) is Custom <==> *final(executor) is Custom,
            *old(executor) is Classical ==> d.action is Encode && *final(executor) == *old(
                executor,
            ) && old(self)@.orders(Disposition::Unknown, d.barrier, final(self)@),
            *old(executor) is Custom ==> exists|known: Disposition| #[trigger]
                call_ensures(E::disposition, (&old(executor)->Custom_0,), known)
                    && old(self)@.orders(known, d.barrier, final(self)@),
            *old(executor) is Custom ==> exists|record: DispatchRecord, e: &mut E|
                old(self)@.records(
                    Grid::Threads(threads_per_grid),
                    threads_per_threadgroup,
                    record,
                ) && *e == old(executor)->Custom_0 && *final(e) == final(executor)->Custom_0
                    && #[trigger] call_ensures(E::dispatch_action, (e, &record), d.action),
    {
        let barrier = self.auto_barrier(executor);
        let action = self.offer_to_executor(
            executor,
            Grid::Threads(threads_per_grid),
            threads_per_threadgroup,
        );
        Dispatched { barrier, action }
    }

    /// Dispatches a grid given in threadgroups.
    pub fn dispatch_thread_groups<E: Executor>(
        &mut self,
        executor: &mut ExecutorSlot<E>,
        threadgroups_per_grid: Size3,
        threads_per_threadgroup: Size3,
    ) -> (d: Dispatched)
        requires
            old(self).well_formed(),
        ensures
            final(self).well_formed(),
            *old(executor) is Custom <==> *final(executor) is Custom,
            *old(executor) is Classical ==> d.action is Encode && *final(executor) == *old(
                executor,
            ) && old(self)@.orders(Disposition::Unknown, d.barrier, final(self)@),
            *old(executor) is Custom ==> exists|known: Disposition| #[trigger]
                call_ensures(E::disposition, (&old(executor)->Custom_0,), known)
                    && old(self)@.orders(known, d.barrier, final(self)@),
            *old(executor) is Custom ==> exists|record: DispatchRecord, e: &mut E|
                old(self)@.records(
                    Grid::Threadgroups(threadgroups_per_grid),
                    threads_per_threadgroup,
                    record,
                ) && *e == old(executor)->Custom_0 && *final(e) == final(executor)->Custom_0
                    && #[trigger] call_ensures(E::dispatch_action, (e, &record), d.action),
    {
        let barrier = self.auto_barrier(executor);
        let action = self.offer_to_executor(
            executor,
            Grid::Threadgroups(threadgroups_per_grid),
            threads_per_threadgroup,
        );
        Dispatched { barrier, action }
    }

    /// Every allocation that the session wrote.
    pub fn outputs(&self) -> (s: &HashSet<usize>)
        ensures
            s@ == self@.state.all_outputs,
    {
        &self.state.all_outputs
    }

    /// Those allocations one after the other, in no particular order.
    pub fn output_list(&self) -> (v: Vec<usize>)
        ensures
            v@.no_duplicates(),
            v@.to_set() == self@.state.all_outputs,
    {
        let mut v: Vec<usize> = Vec::new();
        for p in it: self.state.all_outputs.iter()
            invariant
                v@ == it.seq().unref().take(it.index()),
                it.seq().unref().no_duplicates(),
                it.seq().unref().to_set() == self.state.all_outputs@,
                it.index() == it.seq().len() ==> v@ == it.seq().unref(),
        {
            let ghost seen = it.seq().unref();
            let ghost k = it.index();
            v.push(*p);
            proof {
                assert(v@ =~= seen.take(k + 1));
                assert(k + 1 == seen.len() ==> seen.take(k + 1) =~= seen);
            }
        }
        v
    }
}

/// The fences of the last writers of these allocations, each once, in order of first use.
pub open spec fn last_writers(writers: Map<usize, usize>, ptrs: Seq<usize>) -> Seq<usize>
    decreases ptrs.len(),
{
    if ptrs.len() == 0 {
        Seq::empty()
    } else {
        let before = last_writers(writers, ptrs.drop_last());
        let p = ptrs.last();
        if writers.contains_key(p) && !before.contains(writers[p]) {
            before.push(writers[p])
        } else {
            before
        }
    }
}

/// The bookkeeping of a blit encoder: which fences it waits on, and what it writes.
#[derive(Debug)]
pub struct BlitCommandEncoder {
    tracked_outputs: Vec<usize>,
}

impl View for BlitCommandEncoder {
    type V = Seq<usize>;

    /// The allocations it writes, in order.
    closed spec fn view(&self) -> Seq<usize> {
        self.tracked_outputs@
    }
}

impl BlitCommandEncoder {
    pub fn new() -> (e: Self)
        ensures
            e@ == Seq::<usize>::empty(),
    {
        BlitCommandEncoder { tracked_outputs: Vec::new() }
    }

    /// The fences to wait on before these allocations are touched.
    fn wait_for_last_writers(&self, writers: &HashMap<usize, usize>, ptrs: &[usize]) -> (v: Vec<usize>)
        ensures
            v@ == last_writers(writers@, ptrs@),
    {
        let mut out: Vec<usize> = Vec::new();
        for i in 0..ptrs.len()
            invariant
                out@ == last_writers(writers@, ptrs@.take(i as int)),
        {
            assert(ptrs@.take(i + 1).drop_last() =~= ptrs@.take(i as int));
            if let Some(f) = writers.get(&ptrs[i]) {
                let mut seen: bool = false;
                for j in 0..out.len()
                    invariant
                        seen <==> exists|k: int| 0 <= k < j && out@[k] == *f,
                {
                    if out[j] == *f {
                        assert(out@[j as int] == *f);
                        seen = true;
                    }
                }
                assert(seen <==> out@.contains(*f));
                if !seen {
                    out.push(*f);
                }
            }
        }
        assert(ptrs@.take(ptrs@.len() as int) =~= ptrs@);
        out
    }

    /// A copy waits on the last writer of its source and of its destination, and writes its
    /// destination.
    pub fn copy_from_buffer(
        &mut self,
        writers: &HashMap<usize, usize>,
        src_buffer: &Buffer,
        dst_buffer: &Buffer,
    ) -> (v: Vec<usize>)
        ensures
            v@ == last_writers(writers@, seq![src_buffer.raw, dst_buffer.raw]),
            final(self)@ == old(self)@.push(dst_buffer.raw),
    {
        let ptrs: [usize; 2] = [src_buffer.raw_id(), dst_buffer.raw_id()];
        assert(ptrs@ =~= seq![src_buffer.raw, dst_buffer.raw]);
        let waits = self.wait_for_last_writers(writers, &ptrs);
        self.tracked_outputs.push(dst_buffer.raw_id());
        waits
    }

    /// A fill waits on the last writer of its buffer, and writes it.
    pub fn fill_buffer(&mut self, writers: &HashMap<usize, usize>, buffer: &Buffer) -> (v: Vec<usize>)
        ensures
            v@ == last_writers(writers@, seq![buffer.raw]),
            final(self)@ == old(self)@.push(buffer.raw),
    {
        let ptrs: [usize; 1] = [buffer.raw_id()];
        assert(ptrs@ =~= seq![buffer.raw]);
        let waits = self.wait_for_last_writers(writers, &ptrs);
        self.tracked_outputs.push(buffer.raw_id());
        waits
    }

    /// Registers what it wrote under its own fence, so that later encoders can wait on it.
    pub fn end_encoding(&self, writers: &mut HashMap<usize, usize>, fence: usize)
        ensures
            forall|p: usize| #[trigger]
                final(writers)@.contains_key(p) <==> old(writers)@.contains_key(p)
                    || self@.contains(p),
            forall|p: usize| #[trigger]
                final(writers)@.contains_key(p) ==> final(writers)@[p] == (if self@.contains(p) {
                    fence
                } else {
                    old(writers)@[p]
                }),
    {
        let ghost outs = self.tracked_outputs@;
        for i in 0..self.tracked_outputs.len()
            invariant
                outs == self.tracked_outputs@,
                forall|p: usize| #[trigger]
                    writers@.contains_key(p) <==> old(writers)@.contains_key(p) || outs.take(
                        i as int,
                    ).contains(p),
                forall|p: usize| #[trigger]
                    writers@.contains_key(p) ==> writers@[p] == (if outs.take(i as int).contains(p) {
                        fence
                    } else {
                        old(writers)@[p]
                    }),
        {
            let ghost before = writers@;
            writers.insert(self.tracked_outputs[i], fence);
            proof {
                assert(outs.take(i + 1) =~= outs.take(i as int).push(outs[i as int]));
                assert forall|p: usize| outs.take(i + 1).contains(p) <==> outs.take(
                    i as int,
                ).contains(p) || p == outs[i as int] by {
                    lemma_push_contains(outs.take(i as int), outs[i as int], p);
                }
            }
        }
        assert(outs.take(outs.len() as int) =~= outs);
    }
}

/// Waiting on the last writers names no fence twice, and leaves none out.
pub proof fn law_every_last_writer_is_waited_on_once(writers: Map<usize, usize>, ptrs: Seq<usize>)
    ensures
        last_writers(writers, ptrs).no_duplicates(),
        forall|p: usize|
            ptrs.contains(p) && #[trigger] writers.contains_key(p) ==> last_writers(
                writers,
                ptrs,
            ).contains(writers[p]),
    decreases ptrs.len(),
{
    if ptrs.len() > 0 {
        let rest = ptrs.drop_last();
        let before = last_writers(writers, rest);
        law_every_last_writer_is_waited_on_once(writers, rest);
        let now = last_writers(writers, ptrs);
        assert forall|p: usize|
            ptrs.contains(p) && #[trigger] writers.contains_key(p) implies now.contains(
            writers[p],
        ) by {
            assert(ptrs =~= rest.push(ptrs.last()));
            lemma_push_contains(rest, ptrs.last(), p);
            if writers.contains_key(ptrs.last()) {
                lemma_push_contains(before, writers[ptrs.last()], writers[p]);
            }
        }
    }
}

/// Two bindings of one allocation overlap wherever there is a byte that both name, and two of known
/// extent nowhere else; an unknown extent overlaps all of its allocation.
pub proof fn law_overlap_by_bytes(a: BoundRange, b: BoundRange, at: int)
    ensures
        a.ptr == b.ptr && a.offset <= at && at < a.offset + a.len && b.offset <= at && at < b.offset
            + b.len ==> a.spec_overlaps(b),
        a.ptr == b.ptr && (a.len == 0 || b.len == 0) ==> a.spec_overlaps(b),
        a.spec_overlaps(b) ==> a.ptr == b.ptr,
        a.spec_overlaps(b) && a.len > 0 && b.len > 0 ==> exists|x: int|
            a.offset <= x && x < a.offset + a.len && b.offset <= x && #[trigger] (x - b.offset)
                < b.len,
{
    if a.spec_overlaps(b) && a.len > 0 && b.len > 0 {
        let x = if a.offset >= b.offset {
            a.offset as int
        } else {
            b.offset as int
        };
        assert(a.offset <= x && x < a.offset + a.len && b.offset <= x && x - b.offset < b.len);
    }
}

/// What an encoder session is told: bindings, and the dispatches that use them.
pub enum EncoderStep {
    Read { range: BoundRange },
    Write { range: BoundRange },
    /// A buffer that was made for the dispatch.
    Stage { range: BoundRange },
    Dispatch { disposition: Disposition },
}

impl EncoderStep {
    /// What the step binds.
    pub open spec fn binds(self) -> Option<BoundRange> {
        match self {
            EncoderStep::Read { range } => Some(range),
            EncoderStep::Write { range } => Some(range),
            EncoderStep::Stage { range } => Some(range),
            EncoderStep::Dispatch { .. } => None,
        }
    }
}

impl EncoderView {
    /// A barrier stands before this dispatch.
    pub open spec fn emits(self, step: EncoderStep) -> bool {
        self.needs_barrier && step == (EncoderStep::Dispatch { disposition: Disposition::Unknown })
    }

    /// The session after one step.
    #[verifier::opaque]
    pub open spec fn after(self, step: EncoderStep) -> Self {
        match step {
            EncoderStep::Read { range } => self.reads(range),
            EncoderStep::Write { range } => self.writes(range),
            EncoderStep::Stage { range } => self.stages(range),
            EncoderStep::Dispatch { .. } => if self.emits(step) {
                self.fenced()
            } else {
                self.rolled()
            },
        }
    }

    /// The session after the first `n` of these steps.
    pub open spec fn after_steps(self, steps: Seq<EncoderStep>, n: int) -> Self
        decreases n,
    {
        if n <= 0 {
            self
        } else {
            self.after_steps(steps, n - 1).after(steps[n - 1])
        }
    }
}

/// What stands before a dispatch is what its step says: a barrier exactly where one is pending and
/// the dispatch is encoded, owed to every direction that is pending, and the session goes on as the
/// step has it.
pub proof fn law_a_dispatch_is_a_step(v: ComputeView, d: Disposition, b: Barrier, after: ComputeView)
    requires
        v.orders(d, b, after),
    ensures
        after.state == v.state.after(EncoderStep::Dispatch { disposition: d }),
        b is Emit <==> v.state.needs_barrier && d is Unknown,
        b is Emit ==> b->Emit_0@ == v.state.pending_kinds,
        b is Deferred <==> v.state.needs_barrier && d is ReplayedInFlightRun,
        b is NotNeeded <==> !v.state.needs_barrier,
        after.capture == v.capture,
        after.capturing == v.capturing,
{
    reveal(EncoderView::after);
}

/// The set holds the binding, by its allocation or by itself.
spec fn holds(set: BoundView, key: HazardKey, a: BoundRange) -> bool {
    match key {
        HazardKey::Pointer => set.ptrs.contains(a.ptr),
        HazardKey::Range => set.ranges.contains(a),
    }
}

proof fn lemma_held_conflicts(set: BoundView, key: HazardKey, a: BoundRange, b: BoundRange)
    requires
        holds(set, key, a),
        a.spec_overlaps(b),
    ensures
        set.conflicts(key, b),
{
}

/// A step keeps what is bound, but for a dispatch, which moves what is new to what is old, and drops
/// what is old where a barrier stands before it.
proof fn lemma_step_keeps(v: EncoderView, step: EncoderStep, a: BoundRange)
    ensures
        v.after(step).hazard_key == v.hazard_key,
        !(step is Dispatch) && holds(v.next_inputs, v.hazard_key, a) ==> holds(
            v.after(step).next_inputs,
            v.hazard_key,
            a,
        ),
        !(step is Dispatch) && holds(v.next_outputs, v.hazard_key, a) ==> holds(
            v.after(step).next_outputs,
            v.hazard_key,
            a,
        ),
        step is Dispatch && holds(v.next_inputs, v.hazard_key, a) ==> holds(
            v.after(step).prev_inputs,
            v.hazard_key,
            a,
        ),
        step is Dispatch && holds(v.next_outputs, v.hazard_key, a) ==> holds(
            v.after(step).prev_outputs,
            v.hazard_key,
            a,
        ),
        !v.emits(step) && holds(v.prev_inputs, v.hazard_key, a) ==> holds(
            v.after(step).prev_inputs,
            v.hazard_key,
            a,
        ),
        !v.emits(step) && holds(v.prev_outputs, v.hazard_key, a) ==> holds(
            v.after(step).prev_outputs,
            v.hazard_key,
            a,
        ),
        step is Read && step.binds() == Some(a) ==> holds(
            v.after(step).next_inputs,
            v.hazard_key,
            a,
        ),
        step is Stage && step.binds() == Some(a) ==> holds(
            v.after(step).next_inputs,
            v.hazard_key,
            a,
        ),
        step is Write && step.binds() == Some(a) ==> holds(
            v.after(step).next_outputs,
            v.hazard_key,
            a,
        ),
{
    reveal(EncoderView::after);
}

/// What was bound at step `i` is old once the dispatch at step `k` was made, and stays so while no
/// barrier is emitted.
proof fn lemma_access_remembered(
    v: EncoderView,
    steps: Seq<EncoderStep>,
    i: int,
    k: int,
    n: int,
    a: BoundRange,
)
    requires
        0 <= i < k < n <= steps.len(),
        steps[i].binds() == Some(a),
        steps[k] is Dispatch,
        forall|m: int| i < m < k ==> !(#[trigger] steps[m] is Dispatch),
        forall|m: int| k < m < n ==> !v.after_steps(steps, m).emits(#[trigger] steps[m]),
    ensures
        v.after_steps(steps, n).hazard_key == v.hazard_key,
        steps[i] is Write ==> holds(v.after_steps(steps, n).prev_outputs, v.hazard_key, a),
        !(steps[i] is Write) ==> holds(v.after_steps(steps, n).prev_inputs, v.hazard_key, a),
    decreases n,
{
    lemma_key_kept(v, steps, n - 1);
    let before = v.after_steps(steps, n - 1);
    lemma_step_keeps(before, steps[n - 1], a);
    if n == k + 1 {
        lemma_access_new(v, steps, i, k, a);
    } else {
        lemma_access_remembered(v, steps, i, k, n - 1, a);
        assert(!v.after_steps(steps, n - 1).emits(steps[n - 1]));
    }
}

proof fn lemma_access_new(v: EncoderView, steps: Seq<EncoderStep>, i: int, n: int, a: BoundRange)
    requires
        0 <= i < n <= steps.len(),
        steps[i].binds() == Some(a),
        forall|m: int| i < m < n ==> !(#[trigger] steps[m] is Dispatch),
    ensures
        steps[i] is Write ==> holds(v.after_steps(steps, n).next_outputs, v.hazard_key, a),
        !(steps[i] is Write) ==> holds(v.after_steps(steps, n).next_inputs, v.hazard_key, a),
    decreases n,
{
    lemma_key_kept(v, steps, n - 1);
    lemma_step_keeps(v.after_steps(steps, n - 1), steps[n - 1], a);
    if i < n - 1 {
        lemma_access_new(v, steps, i, n - 1, a);
        assert(!(steps[n - 1] is Dispatch));
    }
}

proof fn lemma_key_kept(v: EncoderView, steps: Seq<EncoderStep>, n: int)
    requires
        n <= steps.len(),
    ensures
        v.after_steps(steps, n).hazard_key == v.hazard_key,
    decreases n,
{
    if n > 0 {
        lemma_key_kept(v, steps, n - 1);
        let before = v.after_steps(steps, n - 1);
        lemma_step_keeps(before, steps[n - 1], steps[n - 1].binds()->0);
    }
}

/// A binding that meets what is old latches its direction.
proof fn lemma_step_latches(w: EncoderView, step: EncoderStep, a: BoundRange)
    requires
        step is Read || step is Write,
        a.spec_overlaps(step.binds()->0),
    ensures
        step is Read && holds(w.prev_outputs, w.hazard_key, a) ==> w.after(step).needs_barrier
            && w.after(step).pending_kinds.contains(HazardKind::Raw),
        step is Write && holds(w.prev_outputs, w.hazard_key, a) ==> w.after(step).needs_barrier
            && w.after(step).pending_kinds.contains(HazardKind::Waw),
        step is Write && holds(w.prev_inputs, w.hazard_key, a) ==> w.after(step).needs_barrier
            && w.after(step).pending_kinds.contains(HazardKind::War),
{
    reveal(EncoderView::after);
    let b = step.binds()->0;
    let key = w.hazard_key;
    let reads = read_kinds(w.prev_outputs, key, b);
    let writes = write_kinds(w.prev_outputs, w.prev_inputs, key, b);
    if holds(w.prev_outputs, key, a) {
        lemma_held_conflicts(w.prev_outputs, key, a, b);
        assert(reads.contains(HazardKind::Raw));
        assert(writes.contains(HazardKind::Waw));
    }
    if holds(w.prev_inputs, key, a) {
        lemma_held_conflicts(w.prev_inputs, key, a, b);
        assert(writes.contains(HazardKind::War));
    }
}

/// No hazard goes unordered, whatever else is bound in between. Step `i` binds bytes for the
/// dispatch at step `k`, and step `j` binds bytes for a later one, of which one is `at` in both, or
/// the extent of one is unknown. Where one of the two writes, and no barrier is emitted between the
/// two dispatches, a barrier is pending after step `j`, and is owed to the direction of the two.
pub proof fn law_no_hazard_goes_unordered(
    v: EncoderView,
    steps: Seq<EncoderStep>,
    i: int,
    k: int,
    j: int,
    at: int,
)
    requires
        0 <= i < k < j < steps.len(),
        steps[i].binds() is Some,
        steps[k] is Dispatch,
        forall|m: int| i < m < k ==> !(#[trigger] steps[m] is Dispatch),
        forall|m: int| k < m < j ==> !v.after_steps(steps, m).emits(#[trigger] steps[m]),
        steps[j] is Read || steps[j] is Write,
        steps[i] is Write || steps[j] is Write,
        ({
            let a = steps[i].binds()->0;
            let b = steps[j].binds()->0;
            &&& a.ptr == b.ptr
            &&& a.len == 0 || b.len == 0 || (a.offset <= at < a.offset + a.len && b.offset <= at
                < b.offset + b.len)
        }),
    ensures
        ({
            let w = v.after_steps(steps, j + 1);
            let kind = if steps[j] is Read {
                HazardKind::Raw
            } else if steps[i] is Write {
                HazardKind::Waw
            } else {
                HazardKind::War
            };
            &&& w.needs_barrier
            &&& w.pending_kinds.contains(kind)
            &&& w.emits(EncoderStep::Dispatch { disposition: Disposition::Unknown })
        }),
{
    let a = steps[i].binds()->0;
    let b = steps[j].binds()->0;
    let w = v.after_steps(steps, j);
    lemma_access_remembered(v, steps, i, k, j, a);
    law_overlap_by_bytes(a, b, at);
    lemma_step_latches(w, steps[j], a);
}

/// What is pending stays pending, with every direction, until a barrier is emitted; then nothing
/// is, and what the dispatch before which it stands binds is what later ones are held against.
pub proof fn law_a_barrier_settles_what_is_pending(v: EncoderView, step: EncoderStep)
    ensures
        !v.emits(step) && v.needs_barrier ==> v.after(step).needs_barrier,
        !v.emits(step) ==> v.pending_kinds.subset_of(v.after(step).pending_kinds),
        v.emits(step) ==> !v.after(step).needs_barrier && v.after(step).pending_kinds == Set::<
            HazardKind,
        >::empty(),
        v.emits(step) ==> v.after(step).prev_outputs == v.next_outputs && v.after(step).prev_inputs
            == v.next_inputs,
        step is Dispatch ==> v.after(step).next_outputs == BoundView::empty() && v.after(
            step,
        ).next_inputs == BoundView::empty(),
        v.after(step).waited_fences == v.waited_fences,
        v.after(step).pipeline == v.pipeline,
{
    reveal(EncoderView::after);
}

/// Step `i` binds this range for a dispatch that was made before step `n`.
spec fn bound_before(
    steps: Seq<EncoderStep>,
    n: int,
    i: int,
    k: int,
    range: BoundRange,
    write: bool,
) -> bool {
    &&& 0 <= i < k < n
    &&& steps[k] is Dispatch
    &&& steps[i].binds() == Some(range)
    &&& steps[i] is Write <==> write
}

/// Everything that a session holds was bound, and what is old in it for a dispatch that was made.
spec fn accounted(v: EncoderView, steps: Seq<EncoderStep>, n: int) -> bool {
    let w = v.after_steps(steps, n);
    &&& forall|a: BoundRange| #[trigger]
        w.prev_outputs.ranges.contains(a) ==> exists|i: int, k: int| #[trigger]
            bound_before(steps, n, i, k, a, true)
    &&& forall|a: BoundRange| #[trigger]
        w.prev_inputs.ranges.contains(a) ==> exists|i: int, k: int| #[trigger]
            bound_before(steps, n, i, k, a, false)
    &&& forall|p: usize| #[trigger]
        w.prev_outputs.ptrs.contains(p) ==> exists|i: int, k: int, a: BoundRange| #[trigger]
            bound_before(steps, n, i, k, a, true) && a.ptr == p
    &&& forall|p: usize| #[trigger]
        w.prev_inputs.ptrs.contains(p) ==> exists|i: int, k: int, a: BoundRange| #[trigger]
            bound_before(steps, n, i, k, a, false) && a.ptr == p
    &&& forall|a: BoundRange| #[trigger]
        w.next_outputs.ranges.contains(a) ==> exists|i: int|
            0 <= i < n && #[trigger] steps[i] == (EncoderStep::Write { range: a })
    &&& forall|a: BoundRange| #[trigger]
        w.next_inputs.ranges.contains(a) ==> exists|i: int|
            0 <= i < n && (#[trigger] steps[i]).binds() == Some(a) && !(steps[i] is Write)
    &&& forall|p: usize| #[trigger]
        w.next_outputs.ptrs.contains(p) ==> exists|i: int|
            0 <= i < n && #[trigger] steps[i] is Write && (steps[i].binds()->0).ptr == p
    &&& forall|p: usize| #[trigger]
        w.next_inputs.ptrs.contains(p) ==> exists|i: int|
            0 <= i < n && (#[trigger] steps[i]).binds() is Some && !(steps[i] is Write) && (
            steps[i].binds()->0).ptr == p
}

proof fn lemma_accounted(key: HazardKey, steps: Seq<EncoderStep>, n: int)
    requires
        0 <= n <= steps.len(),
    ensures
        accounted(EncoderView::fresh(key), steps, n),
    decreases n,
{
    reveal(EncoderView::after);
    let v = EncoderView::fresh(key);
    if n > 0 {
        lemma_accounted(key, steps, n - 1);
        let b = v.after_steps(steps, n - 1);
        let w = v.after_steps(steps, n);
        let step = steps[n - 1];
        assert(accounted(v, steps, n - 1));
        assert forall|a: BoundRange| #[trigger] w.prev_outputs.ranges.contains(a) implies exists|
            i: int,
            k: int,
        | #[trigger] bound_before(steps, n, i, k, a, true) by {
            if b.prev_outputs.ranges.contains(a) {
                let (i, k) = choose|i: int, k: int| #[trigger]
                    bound_before(steps, n - 1, i, k, a, true);
                assert(bound_before(steps, n, i, k, a, true));
            } else {
                assert(b.next_outputs.ranges.contains(a));
                let i = choose|i: int|
                    0 <= i < n - 1 && #[trigger] steps[i] == (EncoderStep::Write { range: a });
                assert(bound_before(steps, n, i, n - 1, a, true));
            }
        }
        assert forall|a: BoundRange| #[trigger] w.prev_inputs.ranges.contains(a) implies exists|
            i: int,
            k: int,
        | #[trigger] bound_before(steps, n, i, k, a, false) by {
            if b.prev_inputs.ranges.contains(a) {
                let (i, k) = choose|i: int, k: int| #[trigger]
                    bound_before(steps, n - 1, i, k, a, false);
                assert(bound_before(steps, n, i, k, a, false));
            } else {
                assert(b.next_inputs.ranges.contains(a));
                let i = choose|i: int|
                    0 <= i < n - 1 && (#[trigger] steps[i]).binds() == Some(a) && !(
                    steps[i] is Write);
                assert(bound_before(steps, n, i, n - 1, a, false));
            }
        }
        assert forall|p: usize| #[trigger] w.prev_outputs.ptrs.contains(p) implies exists|
            i: int,
            k: int,
            a: BoundRange,
        | #[trigger] bound_before(steps, n, i, k, a, true) && a.ptr == p by {
            if b.prev_outputs.ptrs.contains(p) {
                let (i, k, a) = choose|i: int, k: int, a: BoundRange| #[trigger]
                    bound_before(steps, n - 1, i, k, a, true) && a.ptr == p;
                assert(bound_before(steps, n, i, k, a, true));
            } else {
                assert(b.next_outputs.ptrs.contains(p));
                let i = choose|i: int|
                    0 <= i < n - 1 && #[trigger] steps[i] is Write && (steps[i].binds()->0).ptr
                        == p;
                assert(bound_before(steps, n, i, n - 1, steps[i].binds()->0, true));
            }
        }
        assert forall|p: usize| #[trigger] w.prev_inputs.ptrs.contains(p) implies exists|
            i: int,
            k: int,
            a: BoundRange,
        | #[trigger] bound_before(steps, n, i, k, a, false) && a.ptr == p by {
            if b.prev_inputs.ptrs.contains(p) {
                let (i, k, a) = choose|i: int, k: int, a: BoundRange| #[trigger]
                    bound_before(steps, n - 1, i, k, a, false) && a.ptr == p;
                assert(bound_before(steps, n, i, k, a, false));
            } else {
                assert(b.next_inputs.ptrs.contains(p));
                let i = choose|i: int|
                    0 <= i < n - 1 && (#[trigger] steps[i]).binds() is Some && !(steps[i] is Write)
                        && (steps[i].binds()->0).ptr == p;
                assert(bound_before(steps, n, i, n - 1, steps[i].binds()->0, false));
            }
        }
        assert forall|a: BoundRange| #[trigger] w.next_outputs.ranges.contains(a) implies exists|
            i: int,
        | 0 <= i < n && #[trigger] steps[i] == (EncoderStep::Write { range: a }) by {
            if !b.next_outputs.ranges.contains(a) {
                assert(steps[n - 1] == (EncoderStep::Write { range: a }));
            }
        }
        assert forall|a: BoundRange| #[trigger] w.next_inputs.ranges.contains(a) implies exists|
            i: int,
        | 0 <= i < n && (#[trigger] steps[i]).binds() == Some(a) && !(steps[i] is Write) by {
            if !b.next_inputs.ranges.contains(a) {
                assert(steps[n - 1].binds() == Some(a));
            }
        }
        assert forall|p: usize| #[trigger] w.next_outputs.ptrs.contains(p) implies exists|i: int|
            0 <= i < n && #[trigger] steps[i] is Write && (steps[i].binds()->0).ptr == p by {
            if !b.next_outputs.ptrs.contains(p) {
                assert(steps[n - 1] is Write);
            }
        }
        assert forall|p: usize| #[trigger] w.next_inputs.ptrs.contains(p) implies exists|i: int|
            0 <= i < n && (#[trigger] steps[i]).binds() is Some && !(steps[i] is Write) && (
            steps[i].binds()->0).ptr == p by {
            if !b.next_inputs.ptrs.contains(p) {
                assert(steps[n - 1].binds() is Some);
            }
        }
    }
}

/// Steps `i` and `j` bind for different dispatches what can meet, in this direction.
pub open spec fn meet(
    key: HazardKey,
    steps: Seq<EncoderStep>,
    i: int,
    k: int,
    j: int,
    kind: HazardKind,
) -> bool {
    &&& 0 <= i < k < j < steps.len()
    &&& steps[k] is Dispatch
    &&& steps[i].binds() is Some && steps[j].binds() is Some
    &&& (steps[i].binds()->0).ptr == (steps[j].binds()->0).ptr
    &&& key is Range ==> (steps[i].binds()->0).spec_overlaps(steps[j].binds()->0)
    &&& kind is Raw ==> steps[i] is Write && steps[j] is Read
    &&& kind is Waw ==> steps[i] is Write && steps[j] is Write
    &&& kind is War ==> !(steps[i] is Write) && steps[j] is Write
}

/// No barrier is pending without a hazard: a direction that is pending is that of two bindings for
/// different dispatches that meet, in the same bytes where hazards are keyed by range.
pub proof fn law_no_barrier_without_a_hazard(
    key: HazardKey,
    steps: Seq<EncoderStep>,
    n: int,
    kind: HazardKind,
)
    requires
        0 <= n <= steps.len(),
        EncoderView::fresh(key).after_steps(steps, n).pending_kinds.contains(kind),
    ensures
        exists|i: int, k: int, j: int| j < n && #[trigger] meet(key, steps, i, k, j, kind),
    decreases n,
{
    reveal(EncoderView::after);
    let v = EncoderView::fresh(key);
    if n > 0 {
        let b = v.after_steps(steps, n - 1);
        if b.pending_kinds.contains(kind) {
            law_no_barrier_without_a_hazard(key, steps, n - 1, kind);
            let (i, k, j) = choose|i: int, k: int, j: int|
                j < n - 1 && #[trigger] meet(key, steps, i, k, j, kind);
            assert(j < n && meet(key, steps, i, k, j, kind));
        } else {
            lemma_accounted(key, steps, n - 1);
            lemma_key_kept(v, steps, n - 1);
            let r = steps[n - 1].binds()->0;
            let write = !(kind is War);
            let set = if write {
                b.prev_outputs
            } else {
                b.prev_inputs
            };
            assert(set.conflicts(key, r));
            let (i, k) = if key is Range {
                let a = choose|a: BoundRange| #[trigger]
                    set.ranges.contains(a) && a.spec_overlaps(r);
                let (i, k) = choose|i: int, k: int| #[trigger]
                    bound_before(steps, n - 1, i, k, a, write);
                assert(bound_before(steps, n - 1, i, k, a, write));
                (i, k)
            } else {
                let (i, k, a) = choose|i: int, k: int, a: BoundRange| #[trigger]
                    bound_before(steps, n - 1, i, k, a, write) && a.ptr == r.ptr;
                assert(bound_before(steps, n - 1, i, k, a, write));
                (i, k)
            };
            assert(meet(key, steps, i, k, n - 1, kind));
        }
    }
}

/// A session's inputs are the allocations that it was told are read, and its outputs those that it
/// was told are written, over all its dispatches.
pub proof fn law_a_session_remembers_what_it_touched(
    key: HazardKey,
    steps: Seq<EncoderStep>,
    n: int,
    p: usize,
)
    requires
        0 <= n <= steps.len(),
    ensures
        EncoderView::fresh(key).after_steps(steps, n).all_outputs.contains(p) <==> exists|i: int|
            0 <= i < n && #[trigger] steps[i] is Write && (steps[i].binds()->0).ptr == p,
        EncoderView::fresh(key).after_steps(steps, n).all_inputs.contains(p) <==> exists|i: int|
            0 <= i < n && (#[trigger] steps[i]).binds() is Some && !(steps[i] is Write) && (
            steps[i].binds()->0).ptr == p,
    decreases n,
{
    reveal(EncoderView::after);
    let v = EncoderView::fresh(key);
    if n > 0 {
        law_a_session_remembers_what_it_touched(key, steps, n - 1, p);
        let step = steps[n - 1];
        if exists|i: int|
            0 <= i < n && #[trigger] steps[i] is Write && (steps[i].binds()->0).ptr == p {
            let i = choose|i: int|
                0 <= i < n && #[trigger] steps[i] is Write && (steps[i].binds()->0).ptr == p;
            assert(i == n - 1 || 0 <= i < n - 1);
        }
        if exists|i: int|
            0 <= i < n && (#[trigger] steps[i]).binds() is Some && !(steps[i] is Write) && (
            steps[i].binds()->0).ptr == p {
            let i = choose|i: int|
                0 <= i < n && (#[trigger] steps[i]).binds() is Some && !(steps[i] is Write) && (
                steps[i].binds()->0).ptr == p;
            assert(i == n - 1 || 0 <= i < n - 1);
        }
        assert(step == steps[n - 1]);
    }
}

/// A session waits on the fence of an allocation's last writer before it touches it, unless it has
/// waited on that fence before, and never on another; having waited, it need not again.
pub proof fn law_a_fence_is_waited_on_once(
    v: EncoderView,
    writers: Map<usize, usize>,
    ptr: usize,
    f: usize,
)
    ensures
        v.wait_of(writers, ptr) == Some(f) <==> writers.contains_key(ptr) && writers[ptr] == f
            && !v.waited_fences.contains(f),
        v.waited(writers, ptr).wait_of(writers, ptr) is None,
        writers.contains_key(ptr) ==> v.waited(writers, ptr).waited_fences.contains(writers[ptr]),
        v.waited_fences.contains(f) ==> v.waited(writers, ptr).waited_fences.contains(f),
        v.waited(writers, ptr).waited_fences.contains(f) ==> v.waited_fences.contains(f)
            || v.wait_of(writers, ptr) == Some(f),
        v.waited(writers, ptr).prev_outputs == v.prev_outputs,
        v.waited(writers, ptr).next_outputs == v.next_outputs,
        v.waited(writers, ptr).prev_inputs == v.prev_inputs,
        v.waited(writers, ptr).next_inputs == v.next_inputs,
        v.waited(writers, ptr).needs_barrier == v.needs_barrier,
        v.waited(writers, ptr).pending_kinds == v.pending_kinds,
{
}

/// A bound buffer is tracked as the bytes of its allocation that it names, from where it starts on,
/// whichever way it is bound; it goes to the slot asked for, or to the next one of an open block.
pub proof fn law_a_binding_is_the_bytes_it_names(
    v: ComputeView,
    writers: Map<usize, usize>,
    buffer: Buffer,
    index: usize,
    offset: usize,
)
    requires
        offset + buffer.base_offset <= usize::MAX,
        v.capturing ==> v.capture.next_buffer < usize::MAX,
    ensures
        ({
            let range = BoundRange {
                ptr: buffer.raw,
                offset: (offset + buffer.base_offset) as usize,
                len: buffer.spec_length(),
            };
            let waited = v.state.waited(writers, buffer.raw);
            let read = v.binds_input(writers, buffer, offset);
            let written = v.binds_output(writers, buffer, offset);
            let bound = v.bound(writers, index, Some(&buffer), offset);
            &&& read.state == waited.after(EncoderStep::Read { range })
            &&& written.state == waited.after(EncoderStep::Write { range })
            &&& bound.offset == offset + buffer.base_offset
            &&& bound.wait == v.state.wait_of(writers, buffer.raw)
            &&& v.capturing ==> bound.index == v.capture.next_buffer
                && read.capture.next_buffer == v.capture.next_buffer + 1
                && written.capture.next_buffer == v.capture.next_buffer + 1
            &&& !v.capturing ==> bound.index == index && read.capture == v.capture
                && written.capture == v.capture
            &&& read.capture.bytes == v.capture.bytes && written.capture.bytes == v.capture.bytes
            &&& read.capture.staged == v.capture.staged && written.capture.staged
                == v.capture.staged
            &&& read.capturing == v.capturing && written.capturing == v.capturing
        }),
{
    reveal(EncoderView::after);
}

/// The directions are listed in one order, each once.
pub proof fn law_directions_are_listed_in_order(kinds: Set<HazardKind>)
    ensures
        forall|k: HazardKind| #[trigger] listed(kinds).contains(k) <==> kinds.contains(k),
        forall|i: int, j: int|
            0 <= i < j < listed(kinds).len() ==> (#[trigger] listed(kinds)[i] is Raw && !(
            #[trigger] listed(kinds)[j] is Raw)) || (listed(kinds)[i] is Waw
                && listed(kinds)[j] is War),
{
    let l = listed(kinds);
    assert forall|k: HazardKind| #[trigger] l.contains(k) <==> kinds.contains(k) by {
        if kinds.contains(k) {
            let raw = if kinds.contains(HazardKind::Raw) {
                1int
            } else {
                0
            };
            let waw = if kinds.contains(HazardKind::Waw) {
                1int
            } else {
                0
            };
            match k {
                HazardKind::Raw => {
                    assert(l[0] == k);
                },
                HazardKind::Waw => {
                    assert(l[raw] == k);
                },
                HazardKind::War => {
                    assert(l[raw + waw] == k);
                },
            }
        }
    }
}

/// A session starts with nothing bound, waited on or pending, and at every point in it a barrier is
/// pending exactly where a direction is.
pub proof fn law_a_barrier_is_owed_to_a_direction(key: HazardKey, steps: Seq<EncoderStep>, n: int)
    requires
        n <= steps.len(),
    ensures
        EncoderView::fresh(key).hazard_key == key,
        EncoderView::fresh(key).waited_fences == Set::<usize>::empty(),
        EncoderView::fresh(key).pipeline is None,
        EncoderView::fresh(key).after_steps(steps, n).needs_barrier <==> exists|k: HazardKind|
            #[trigger]
            EncoderView::fresh(key).after_steps(steps, n).pending_kinds.contains(k),
    decreases n,
{
    reveal(EncoderView::after);
    let v = EncoderView::fresh(key);
    if n > 0 {
        law_a_barrier_is_owed_to_a_direction(key, steps, n - 1);
        let b = v.after_steps(steps, n - 1);
        let w = v.after_steps(steps, n);
        let step = steps[n - 1];
        if step is Read || step is Write {
            let r = step.binds()->0;
            let kinds = if step is Read {
                read_kinds(b.prev_outputs, b.hazard_key, r)
            } else {
                write_kinds(b.prev_outputs, b.prev_inputs, b.hazard_key, r)
            };
            if w.needs_barrier && b.needs_barrier {
                let k = choose|k: HazardKind| #[trigger] b.pending_kinds.contains(k);
                assert(w.pending_kinds.contains(k));
            } else if w.needs_barrier {
                let k = choose|k: HazardKind| #[trigger] kinds.contains(k);
                if !kinds.contains(k) {
                    assert(kinds =~= Set::empty());
                }
                assert(w.pending_kinds.contains(k));
            }
            if exists|k: HazardKind| #[trigger] w.pending_kinds.contains(k) {
                let k = choose|k: HazardKind| #[trigger] w.pending_kinds.contains(k);
                assert(b.pending_kinds.contains(k) || kinds.contains(k));
            }
        }
    }
}

/// Padding is made of zeros, and two paddings of the same bytes to one alignment are one: a second
/// one adds nothing.
pub proof fn law_padding_is_zeros(bytes: Seq<u8>, align: int, i: int)
    requires
        align > 0,
    ensures
        bytes.len() <= i < padded_bytes(bytes, align).len() ==> padded_bytes(bytes, align)[i] == 0,
        padded_bytes(padded_bytes(bytes, align), align) == padded_bytes(bytes, align),
{
    law_padding_aligns(bytes, align);
    let once = padded_bytes(bytes, align);
    assert(once.len() as int % align == 0);
    assert(padded_bytes(once, align) =~= once);
}

/// A blit waits on nothing but last writers of what it touches, and what it touches later adds to
/// what it waits on without changing the order.
pub proof fn law_only_last_writers_are_waited_on(
    writers: Map<usize, usize>,
    ptrs: Seq<usize>,
    p: usize,
    f: usize,
)
    ensures
        last_writers(writers, ptrs).contains(f) ==> exists|i: int|
            0 <= i < ptrs.len() && writers.contains_key(#[trigger] ptrs[i]) && writers[ptrs[i]]
                == f,
        last_writers(writers, ptrs.push(p)) == last_writers(writers, ptrs) || last_writers(
            writers,
            ptrs.push(p),
        ) == last_writers(writers, ptrs).push(writers[p]),
    decreases ptrs.len(),
{
    assert(ptrs.push(p).drop_last() =~= ptrs);
    if ptrs.len() > 0 && last_writers(writers, ptrs).contains(f) {
        let rest = ptrs.drop_last();
        law_only_last_writers_are_waited_on(writers, rest, p, f);
        if last_writers(writers, rest).contains(f) {
            let i = choose|i: int|
                0 <= i < rest.len() && writers.contains_key(#[trigger] rest[i]) && writers[rest[i]]
                    == f;
            assert(ptrs[i] == rest[i]);
        } else {
            let before = last_writers(writers, rest);
            lemma_push_contains(before, writers[ptrs.last()], f);
            assert(writers.contains_key(ptrs[ptrs.len() - 1]));
        }
    }
}

/// A slot that is bound to nothing waits on nothing and starts where the caller says.
pub proof fn law_an_empty_slot_takes_its_place(
    v: ComputeView,
    writers: Map<usize, usize>,
    index: usize,
    offset: usize,
)
    requires
        v.capturing ==> v.capture.next_buffer < usize::MAX,
    ensures
        v.bound(writers, index, None, offset).offset == offset,
        v.bound(writers, index, None, offset).wait is None,
        v.capturing ==> v.bound(writers, index, None, offset).index == v.capture.next_buffer
            && v.numbered().capture.next_buffer == v.capture.next_buffer + 1,
        !v.capturing ==> v.bound(writers, index, None, offset).index == index && v.numbered() == v,
        v.numbered().state == v.state,
        v.numbered().capture.bytes == v.capture.bytes,
        v.numbered().capture.staged == v.capture.staged,
        v.numbered().capturing == v.capturing,
{
}

/// A dispatch is recorded with its own grid and threadgroup size, under the name of the pipeline set
/// last, and under none where none was set.
pub proof fn law_a_record_names_its_dispatch(
    v: ComputeView,
    grid: Grid,
    threads: Size3,
    r: DispatchRecord,
)
    requires
        v.records(grid, threads, r),
    ensures
        r.grid == grid,
        r.threads_per_threadgroup == threads,
        r.kernel is Some <==> v.state.pipeline is Some,
        r.kernel is Some ==> (r.kernel->0)@ == v.state.pipeline->0,
{
}

} // verus!
