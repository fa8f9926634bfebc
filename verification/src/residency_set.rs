//! Which allocations are kept resident on the device.
//!
//! Asking the device to drop an allocation that its residency set does not hold is fatal, so the
//! set knows what it holds and names nothing else. It is keyed by the allocation: the views of one
//! allocation are one member.
//!
//! The decisions are made here. The caller hands the named buffers to the device, and commits
//! where any were named.

use std::collections::HashSet;
use vstd::prelude::*;

use crate::buffer::Buffer;

verus! {

broadcast use vstd::std_specs::hash::group_hash_axioms;

/// What the set has done.
#[derive(Debug, Clone, Copy, PartialEq, Eq, Structural)]
pub struct ResidencyCounters {
    /// Commits, from every path that makes one.
    pub commits: u64,
    /// Allocations added.
    pub added: u64,
    /// Allocations removed one by one.
    pub removed: u64,
    /// Members forgotten without a call to the device.
    pub retired: u64,
    /// Batches of additions, whether or not anything was added.
    pub insert_batches: u64,
    /// Batches of removals, whether or not anything was removed.
    pub remove_batches: u64,
}

pub open spec fn no_counts() -> ResidencyCounters {
    ResidencyCounters {
        commits: 0,
        added: 0,
        removed: 0,
        retired: 0,
        insert_batches: 0,
        remove_batches: 0,
    }
}

impl Default for ResidencyCounters {
    fn default() -> (c: Self)
        ensures
            c == no_counts(),
    {
        ResidencyCounters {
            commits: 0,
            added: 0,
            removed: 0,
            retired: 0,
            insert_batches: 0,
            remove_batches: 0,
        }
    }
}

/// The allocations of the first `n` of these buffers.
pub open spec fn allocations(bufs: Seq<Buffer>, n: int) -> Set<usize>
    decreases n,
{
    if n <= 0 {
        Set::empty()
    } else {
        allocations(bufs, n - 1).insert(bufs[n - 1].raw)
    }
}

/// Of the first `n` buffers those that are the first of their allocation, where the allocation is
/// a member or is none, as asked.
pub open spec fn named(members: Set<usize>, bufs: Seq<Buffer>, member: bool, n: int) -> Seq<Buffer>
    decreases n,
{
    if n <= 0 {
        Seq::empty()
    } else {
        let before = named(members, bufs, member, n - 1);
        let b = bufs[n - 1];
        if members.contains(b.raw) == member && !allocations(bufs, n - 1).contains(b.raw) {
            before.push(b)
        } else {
            before
        }
    }
}

/// The set as mathematical values.
#[verifier::ext_equal]
pub struct ResidencyView {
    /// Whether the device has a residency set at all.
    pub available: bool,
    /// The allocations that are members.
    pub members: Set<usize>,
    pub counters: ResidencyCounters,
}

/// Keeps track of the allocations that are resident.
#[derive(Debug)]
pub struct ResidencySet {
    available: bool,
    members: HashSet<usize>,
    counters: ResidencyCounters,
}

impl View for ResidencySet {
    type V = ResidencyView;

    closed spec fn view(&self) -> ResidencyView {
        ResidencyView {
            available: self.available,
            members: self.members@,
            counters: self.counters,
        }
    }
}

impl ResidencyView {
    /// The buffers that a batch of additions names.
    pub open spec fn joining(self, bufs: Seq<Buffer>) -> Seq<Buffer> {
        if self.available {
            named(self.members, bufs, false, bufs.len() as int)
        } else {
            Seq::empty()
        }
    }

    /// The buffers that a batch of removals names.
    pub open spec fn leaving(self, bufs: Seq<Buffer>) -> Seq<Buffer> {
        if self.available {
            named(self.members, bufs, true, bufs.len() as int)
        } else {
            Seq::empty()
        }
    }

    /// After a batch of additions.
    pub open spec fn inserted(self, bufs: Seq<Buffer>) -> ResidencyView {
        let n = self.joining(bufs).len();
        if !self.available {
            self
        } else {
            ResidencyView {
                members: self.members.union(allocations(bufs, bufs.len() as int)),
                counters: ResidencyCounters {
                    insert_batches: self.counters.insert_batches.wrapping_add(1),
                    commits: if n > 0 {
                        self.counters.commits.wrapping_add(1)
                    } else {
                        self.counters.commits
                    },
                    added: self.counters.added.wrapping_add(n as u64),
                    ..self.counters
                },
                ..self
            }
        }
    }

    /// After a batch of removals.
    pub open spec fn removed(self, bufs: Seq<Buffer>) -> ResidencyView {
        let n = self.leaving(bufs).len();
        if !self.available {
            self
        } else {
            ResidencyView {
                members: self.members.difference(allocations(bufs, bufs.len() as int)),
                counters: ResidencyCounters {
                    remove_batches: self.counters.remove_batches.wrapping_add(1),
                    commits: if n > 0 {
                        self.counters.commits.wrapping_add(1)
                    } else {
                        self.counters.commits
                    },
                    removed: self.counters.removed.wrapping_add(n as u64),
                    ..self.counters
                },
                ..self
            }
        }
    }

    /// After these were forgotten without a word to the device.
    pub open spec fn retired(self, bufs: Seq<Buffer>) -> ResidencyView {
        if !self.available {
            self
        } else {
            ResidencyView {
                members: self.members.difference(allocations(bufs, bufs.len() as int)),
                counters: ResidencyCounters {
                    retired: self.counters.retired.wrapping_add(self.leaving(bufs).len() as u64),
                    ..self.counters
                },
                ..self
            }
        }
    }

    /// After everything was removed at once.
    pub open spec fn emptied(self) -> ResidencyView {
        if !self.available {
            self
        } else {
            ResidencyView {
                members: Set::empty(),
                counters: ResidencyCounters {
                    commits: self.counters.commits.wrapping_add(1),
                    ..self.counters
                },
                ..self
            }
        }
    }
}

impl ResidencySet {
    /// An empty set. Where the device has none, nothing ever joins it.
    pub fn new(available: bool) -> (s: Self)
        ensures
            s@ == (ResidencyView { available, members: Set::empty(), counters: no_counts() }),
    {
        ResidencySet { available, members: HashSet::new(), counters: ResidencyCounters::default() }
    }

    /// What this set has done.
    pub fn counters(&self) -> (c: ResidencyCounters)
        ensures
            c == self@.counters,
    {
        self.counters
    }

    /// Starts the counts anew, so that a window can be measured.
    pub fn reset_counters(&mut self)
        ensures
            final(self)@ == (ResidencyView { counters: no_counts(), ..old(self)@ }),
    {
        self.counters = ResidencyCounters::default();
    }

    pub fn insert(&mut self, buf: &Buffer) -> (v: Vec<Buffer>)
        ensures
            v@ == old(self)@.joining(seq![*buf]),
            final(self)@ == old(self)@.inserted(seq![*buf]),
    {
        let mut one: Vec<Buffer> = Vec::new();
        one.push(*buf);
        assert(one@ =~= seq![*buf]);
        self.insert_batch(one.as_slice())
    }

    /// Adds buffers, and names those that the device has to add. An allocation that is a member
    /// already is skipped.
    pub fn insert_batch(&mut self, bufs: &[Buffer]) -> (v: Vec<Buffer>)
        ensures
            v@ == old(self)@.joining(bufs@),
            final(self)@ == old(self)@.inserted(bufs@),
    {
        let mut v: Vec<Buffer> = Vec::new();
        if !self.available {
            return v;
        }
        self.counters.insert_batches = self.counters.insert_batches.wrapping_add(1);
        let ghost before = self.members@;
        let ghost counters = self.counters;
        assert(before.union(allocations(bufs@, 0)) =~= before);
        for i in 0..bufs.len()
            invariant
                self.available == old(self)@.available,
                self.counters == counters,
                before == old(self)@.members,
                self.members@ == before.union(allocations(bufs@, i as int)),
                v@ == named(before, bufs@, false, i as int),
        {
            let b = bufs[i];
            if self.members.insert(b.raw) {
                v.push(b);
            }
            assert(self.members@ =~= before.union(allocations(bufs@, i + 1)));
        }
        let n: usize = v.len();
        if n > 0 {
            self.counters.commits = self.counters.commits.wrapping_add(1);
            self.counters.added = self.counters.added.wrapping_add(n as u64);
        }
        v
    }

    /// Removes buffers, and names those that the device has to remove. One that is no member is
    /// skipped.
    pub fn remove_batch(&mut self, bufs: &[Buffer]) -> (v: Vec<Buffer>)
        ensures
            v@ == old(self)@.leaving(bufs@),
            final(self)@ == old(self)@.removed(bufs@),
    {
        if !self.available {
            return Vec::new();
        }
        self.counters.remove_batches = self.counters.remove_batches.wrapping_add(1);
        let v = self.forget(bufs);
        let n: usize = v.len();
        if n > 0 {
            self.counters.commits = self.counters.commits.wrapping_add(1);
            self.counters.removed = self.counters.removed.wrapping_add(n as u64);
        }
        v
    }

    /// Takes the allocations of these buffers off the list of members, and says which were on it.
    fn forget(&mut self, bufs: &[Buffer]) -> (v: Vec<Buffer>)
        ensures
            v@ == named(old(self)@.members, bufs@, true, bufs@.len() as int),
            final(self)@ == (ResidencyView {
                members: old(self)@.members.difference(allocations(bufs@, bufs@.len() as int)),
                ..old(self)@
            }),
    {
        let mut v: Vec<Buffer> = Vec::new();
        let ghost before = self.members@;
        assert(before.difference(allocations(bufs@, 0)) =~= before);
        for i in 0..bufs.len()
            invariant
                self.available == old(self)@.available,
                self.counters == old(self)@.counters,
                before == old(self)@.members,
                self.members@ == before.difference(allocations(bufs@, i as int)),
                v@ == named(before, bufs@, true, i as int),
        {
            let b = bufs[i];
            if self.members.remove(&b.raw) {
                v.push(b);
            }
            assert(self.members@ =~= before.difference(allocations(bufs@, i + 1)));
        }
        v
    }

    pub fn remove(&mut self, buf: &Buffer) -> (v: Vec<Buffer>)
        ensures
            v@ == old(self)@.leaving(seq![*buf]),
            final(self)@ == old(self)@.removed(seq![*buf]),
    {
        let mut one: Vec<Buffer> = Vec::new();
        one.push(*buf);
        assert(one@ =~= seq![*buf]);
        self.remove_batch(one.as_slice())
    }

    /// Forgets these buffers without a word to the device, and says how many were members. The
    /// device keeps them until everything is removed at once, which names none of them.
    pub fn retire_batch(&mut self, bufs: &[Buffer]) -> (n: usize)
        ensures
            n == old(self)@.leaving(bufs@).len(),
            final(self)@ == old(self)@.retired(bufs@),
    {
        if !self.available {
            return 0;
        }
        let v = self.forget(bufs);
        let n: usize = v.len();
        self.counters.retired = self.counters.retired.wrapping_add(n as u64);
        n
    }

    /// How many allocations are members.
    pub fn len(&self) -> (n: usize)
        ensures
            n == self@.members.len(),
    {
        self.members.len()
    }

    pub fn is_empty(&self) -> (b: bool)
        ensures
            b == (self@.members.len() == 0),
    {
        self.len() == 0
    }

    /// Whether this buffer's allocation is a member.
    pub fn contains(&self, buf: &Buffer) -> (b: bool)
        ensures
            b == self@.members.contains(buf.raw),
    {
        self.members.contains(&buf.raw)
    }

    /// Empties the set. Where there is one, the device is asked to remove everything and commit,
    /// whether or not there are members: what was retired is on the device's list and not on this
    /// one. Says how many members there were.
    pub fn remove_all(&mut self) -> (n: usize)
        ensures
            n == (if old(self)@.available {
                old(self)@.members.len()
            } else {
                0
            }),
            final(self)@ == old(self)@.emptied(),
    {
        if !self.available {
            return 0;
        }
        let n: usize = self.members.len();
        self.counters.commits = self.counters.commits.wrapping_add(1);
        self.members.clear();
        n
    }
}

/// Buffer `i` of those named is one of the first `n` given, with what was asked of it, and is named
/// once.
proof fn lemma_named(members: Set<usize>, bufs: Seq<Buffer>, member: bool, n: int)
    requires
        0 <= n <= bufs.len(),
    ensures
        forall|i: int|
            0 <= i < named(members, bufs, member, n).len() ==> members.contains(
                (#[trigger] named(members, bufs, member, n)[i]).raw,
            ) == member && allocations(bufs, n).contains(named(members, bufs, member, n)[i].raw),
        forall|i: int, j: int|
            0 <= i < j < named(members, bufs, member, n).len() ==> (
            #[trigger] named(members, bufs, member, n)[i]).raw != (
            #[trigger] named(members, bufs, member, n)[j]).raw,
        forall|p: usize|
            allocations(bufs, n).contains(p) && members.contains(p) == member
                ==> #[trigger] allocations(
                named(members, bufs, member, n),
                named(members, bufs, member, n).len() as int,
            ).contains(p),
    decreases n,
{
    if n > 0 {
        lemma_named(members, bufs, member, n - 1);
        let before = named(members, bufs, member, n - 1);
        let after = named(members, bufs, member, n);
        let b = bufs[n - 1];
        if members.contains(b.raw) == member && !allocations(bufs, n - 1).contains(b.raw) {
            lemma_allocations_prefix(before, after, before.len() as int);
        }
    }
}

proof fn lemma_allocations_prefix(a: Seq<Buffer>, b: Seq<Buffer>, n: int)
    requires
        0 <= n <= a.len() <= b.len(),
        forall|i: int| 0 <= i < a.len() ==> #[trigger] a[i] == b[i],
    ensures
        allocations(a, n) == allocations(b, n),
    decreases n,
{
    if n > 0 {
        lemma_allocations_prefix(a, b, n - 1);
        assert(a[n - 1] == b[n - 1]);
    }
}

proof fn lemma_allocations_within(bufs: Seq<Buffer>, n: int, held: Set<usize>)
    requires
        0 <= n <= bufs.len(),
        forall|i: int| 0 <= i < bufs.len() ==> held.contains((#[trigger] bufs[i]).raw),
    ensures
        allocations(bufs, n).subset_of(held),
    decreases n,
{
    if n > 0 {
        lemma_allocations_within(bufs, n - 1, held);
    }
}

/// What the device is asked to remove, it holds, and it is asked once. `held` is what the device
/// holds: every member, and perhaps more. After the removal that is still so.
pub proof fn law_removals_name_only_what_is_held(v: ResidencyView, held: Set<usize>, bufs: Seq<Buffer>)
    requires
        v.members.subset_of(held),
    ensures
        ({
            let out = v.leaving(bufs);
            &&& forall|i: int| 0 <= i < out.len() ==> held.contains((#[trigger] out[i]).raw)
            &&& forall|i: int, j: int|
                0 <= i < j < out.len() ==> (#[trigger] out[i]).raw != (#[trigger] out[j]).raw
            &&& v.removed(bufs).members.subset_of(
                held.difference(allocations(out, out.len() as int)),
            )
        }),
{
    let out = v.leaving(bufs);
    if v.available {
        lemma_named(v.members, bufs, true, bufs.len() as int);
        lemma_allocations_within(
            out,
            out.len() as int,
            allocations(bufs, bufs.len() as int),
        );
    }
}

/// What joins is added to what the device holds, once each, so that every member is held.
pub proof fn law_members_are_held(v: ResidencyView, held: Set<usize>, bufs: Seq<Buffer>)
    requires
        v.members.subset_of(held),
    ensures
        ({
            let out = v.joining(bufs);
            &&& forall|i: int| 0 <= i < out.len() ==> !v.members.contains((#[trigger] out[i]).raw)
            &&& forall|i: int, j: int|
                0 <= i < j < out.len() ==> (#[trigger] out[i]).raw != (#[trigger] out[j]).raw
            &&& v.inserted(bufs).members.subset_of(held.union(allocations(out, out.len() as int)))
        }),
{
    let out = v.joining(bufs);
    if v.available {
        lemma_named(v.members, bufs, false, bufs.len() as int);
        assert forall|p: usize| v.inserted(bufs).members.contains(p) implies held.union(
            allocations(out, out.len() as int),
        ).contains(p) by {
            if !v.members.contains(p) {
                assert(allocations(out, out.len() as int).contains(p));
            }
        }
    }
}

/// Retiring leaves the device's list as it is, and so does every member stay held; emptying leaves
/// no member.
pub proof fn law_retiring_keeps_members_held(v: ResidencyView, held: Set<usize>, bufs: Seq<Buffer>)
    requires
        v.members.subset_of(held),
    ensures
        v.retired(bufs).members.subset_of(held),
        v.available ==> v.emptied().members == Set::<usize>::empty(),
{
}

/// A batch makes one commit where it names anything, and none otherwise.
pub proof fn law_a_batch_commits_at_most_once(v: ResidencyView, bufs: Seq<Buffer>)
    requires
        v.counters.commits < u64::MAX,
    ensures
        v.inserted(bufs).counters.commits == v.counters.commits + (if v.joining(bufs).len() > 0 {
            1int
        } else {
            0
        }),
        v.removed(bufs).counters.commits == v.counters.commits + (if v.leaving(bufs).len() > 0 {
            1int
        } else {
            0
        }),
        v.retired(bufs).counters.commits == v.counters.commits,
{
}

proof fn lemma_allocation(bufs: Seq<Buffer>, n: int, p: usize)
    requires
        n <= bufs.len(),
    ensures
        allocations(bufs, n).contains(p) <==> exists|i: int|
            0 <= i < n && (#[trigger] bufs[i]).raw == p,
    decreases n,
{
    if n > 0 {
        lemma_allocation(bufs, n - 1, p);
        if exists|i: int| 0 <= i < n && (#[trigger] bufs[i]).raw == p {
            let i = choose|i: int| 0 <= i < n && (#[trigger] bufs[i]).raw == p;
            assert(i == n - 1 || 0 <= i < n - 1);
        }
        assert(bufs[n - 1].raw == bufs[n - 1].raw);
    }
}

/// A batch changes the membership of the allocations that its buffers name, and of no other: after
/// an addition they are members, after a removal or a retirement they are not. Without a residency
/// set nothing changes.
pub proof fn law_a_batch_changes_what_it_names(v: ResidencyView, bufs: Seq<Buffer>, p: usize)
    ensures
        ({
            let named = exists|i: int| 0 <= i < bufs.len() && (#[trigger] bufs[i]).raw == p;
            let was = v.members.contains(p);
            &&& v.available ==> (v.inserted(bufs).members.contains(p) <==> was || named)
            &&& v.available ==> (v.removed(bufs).members.contains(p) <==> was && !named)
            &&& v.available ==> (v.retired(bufs).members.contains(p) <==> was && !named)
            &&& v.available ==> !v.emptied().members.contains(p)
            &&& !v.available ==> v.inserted(bufs) == v && v.removed(bufs) == v && v.retired(bufs)
                == v && v.emptied() == v
            &&& v.inserted(bufs).available == v.available && v.removed(bufs).available
                == v.available && v.retired(bufs).available == v.available
                && v.emptied().available == v.available
        }),
{
    lemma_allocation(bufs, bufs.len() as int, p);
}

proof fn lemma_named_prefix(
    members: Set<usize>,
    a: Seq<Buffer>,
    b: Seq<Buffer>,
    member: bool,
    n: int,
)
    requires
        forall|i: int| 0 <= i < n ==> a[i] == b[i],
    ensures
        named(members, a, member, n) == named(members, b, member, n),
        allocations(a, n) == allocations(b, n),
    decreases n,
{
    if n > 0 {
        lemma_named_prefix(members, a, b, member, n - 1);
    }
}

/// The device is told of each allocation that changes, once, in the order in which the batch names
/// them: a batch with one buffer more names one more where that buffer is the first of its
/// allocation and the allocation is not a member yet, for an addition, or is one, for a removal.
pub proof fn law_one_more_buffer_in_a_batch(v: ResidencyView, bufs: Seq<Buffer>, b: Buffer)
    requires
        v.available,
    ensures
        ({
            let seen = exists|i: int| 0 <= i < bufs.len() && (#[trigger] bufs[i]).raw == b.raw;
            let member = v.members.contains(b.raw);
            &&& v.joining(bufs.push(b)) == (if seen || member {
                v.joining(bufs)
            } else {
                v.joining(bufs).push(b)
            })
            &&& v.leaving(bufs.push(b)) == (if seen || !member {
                v.leaving(bufs)
            } else {
                v.leaving(bufs).push(b)
            })
            &&& v.joining(Seq::empty()).len() == 0 && v.leaving(Seq::empty()).len() == 0
        }),
{
    let n = bufs.len() as int;
    lemma_allocation(bufs, n, b.raw);
    lemma_named_prefix(v.members, bufs, bufs.push(b), false, n);
    lemma_named_prefix(v.members, bufs, bufs.push(b), true, n);
}

/// Every batch counts itself and what it names under its own heading, and leaves the others alone.
pub proof fn law_batches_are_counted(v: ResidencyView, bufs: Seq<Buffer>)
    requires
        v.available,
        v.counters.insert_batches < u64::MAX,
        v.counters.remove_batches < u64::MAX,
        v.counters.commits < u64::MAX,
        v.counters.added + v.joining(bufs).len() <= u64::MAX,
        v.counters.removed + v.leaving(bufs).len() <= u64::MAX,
        v.counters.retired + v.leaving(bufs).len() <= u64::MAX,
    ensures
        ({
            let c = v.counters;
            let i = v.inserted(bufs).counters;
            let r = v.removed(bufs).counters;
            let t = v.retired(bufs).counters;
            let e = v.emptied().counters;
            &&& i.insert_batches == c.insert_batches + 1 && i.added == c.added + v.joining(
                bufs,
            ).len()
            &&& i.remove_batches == c.remove_batches && i.removed == c.removed && i.retired
                == c.retired
            &&& r.remove_batches == c.remove_batches + 1 && r.removed == c.removed + v.leaving(
                bufs,
            ).len()
            &&& r.insert_batches == c.insert_batches && r.added == c.added && r.retired
                == c.retired
            &&& t.retired == c.retired + v.leaving(bufs).len() && t.commits == c.commits
            &&& t.insert_batches == c.insert_batches && t.remove_batches == c.remove_batches
                && t.added == c.added && t.removed == c.removed
            &&& e.commits == c.commits + 1 && e.added == c.added && e.removed == c.removed
                && e.retired == c.retired
        }),
{
}

} // verus!
