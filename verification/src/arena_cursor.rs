//! State of the arena's bump allocator, where the device computes the offsets.
//!
//! A device allocator bumps one cursor through the request sizes in ordinal order. Its offsets
//! must be equal to the planned ones, entry by entry: then every binding addresses the bytes it
//! would have addressed, and nothing that is computed can differ.

use vstd::prelude::*;

use crate::text;

verus! {

/// The offset value that says "this ordinal is not the arena's".
pub const ARENA_DECLINED: u32 = u32::MAX;

/// Where an arena offset is computed.
#[derive(Clone, Copy, Debug, PartialEq, Eq, Structural)]
pub enum ArenaOffsets {
    /// On the host, from the plan.
    Cpu,
    /// On the device, by a bump allocator.
    Gpu,
}

impl Default for ArenaOffsets {
    fn default() -> (r: Self)
        ensures
            r == ArenaOffsets::Cpu,
    {
        ArenaOffsets::Cpu
    }
}

impl ArenaOffsets {
    pub fn is_gpu(self) -> (b: bool)
        ensures
            b == (self == ArenaOffsets::Gpu),
    {
        match self {
            ArenaOffsets::Gpu => true,
            ArenaOffsets::Cpu => false,
        }
    }
}

/// The device gave the ordinal the offset that the plan gives it: the planned one, or the
/// sentinel where the plan declines it.
pub open spec fn agrees(got: u32, expected: Option<usize>) -> bool {
    match expected {
        Some(want) => got == want,
        None => got == ARENA_DECLINED,
    }
}

/// What is said of ordinal `i` where the two disagree.
pub open spec fn disagreement(i: int, got: u32, expected: Option<usize>) -> Seq<char> {
    match expected {
        Some(want) => "ordinal "@ + text::decimal(i as nat) + ": GPU offset "@ + text::decimal(
            got as nat,
        ) + ", plan offset "@ + text::decimal(want as nat),
        None => "ordinal "@ + text::decimal(i as nat) + ": plan declines it, GPU offset "@
            + text::decimal(got as nat),
    }
}

pub open spec fn count_mismatch(got: nat, expected: nat) -> Seq<char> {
    "GPU produced "@ + text::decimal(got) + " offsets, the plan has "@ + text::decimal(expected)
        + " ordinals"@
}

pub open spec fn unaddressable(capacity: usize) -> Seq<char> {
    "arena is "@ + text::decimal(capacity as nat)
        + " B; the cursor is a uint and cannot address it"@
}

/// What the bump allocator walks: the request sizes, and the bytes it may hand out.
#[derive(Debug)]
pub struct ArenaCursor {
    sizes: Vec<u32>,
    capacity: u32,
}

impl ArenaCursor {
    /// One byte size per ordinal. 0 marks an ordinal that the arena does not serve.
    pub closed spec fn requests(self) -> Seq<u32> {
        self.sizes@
    }

    pub closed spec fn spec_capacity(self) -> u32 {
        self.capacity
    }

    /// Cursor state for requests of `sizes`, over an arena of `capacity` bytes.
    pub fn new(sizes: &[u32], capacity: usize) -> (res: Result<Self, String>)
        ensures
            res is Ok <==> capacity <= u32::MAX,
            res matches Ok(c) ==> c.requests() == sizes@ && c.spec_capacity() == capacity,
            res matches Err(e) ==> e@ == unaddressable(capacity),
    {
        if capacity > u32::MAX as usize {
            let mut s = String::new();
            s.push_str("arena is ");
            text::push_usize(&mut s, capacity);
            s.push_str(" B; the cursor is a uint and cannot address it");
            proof {
                assert(s@ =~= unaddressable(capacity));
            }
            return Err(s);
        }
        let mut copy: Vec<u32> = Vec::with_capacity(sizes.len());
        for i in 0..sizes.len()
            invariant
                copy@ == sizes@.take(i as int),
        {
            copy.push(sizes[i]);
            assert(copy@ =~= sizes@.take(i + 1));
        }
        assert(sizes@.take(sizes@.len() as int) =~= sizes@);
        Ok(ArenaCursor { sizes: copy, capacity: capacity as u32 })
    }

    /// The request sizes, as the allocator walks them.
    pub fn sizes(&self) -> (s: &[u32])
        ensures
            s@ == self.requests(),
    {
        self.sizes.as_slice()
    }

    /// Bytes of the table of sizes, and of the table of offsets: one entry each at least, since
    /// an empty buffer cannot be made.
    pub fn table_bytes(&self) -> (n: usize)
        requires
            self.requests().len() <= usize::MAX / 4,
        ensures
            n == 4 * (if self.requests().len() == 0 {
                1
            } else {
                self.requests().len() as int
            }),
    {
        if self.sizes.is_empty() {
            4
        } else {
            self.sizes.len() * 4
        }
    }

    /// Ordinals the plan covers, in the width the allocator counts them in.
    pub fn len(&self) -> (n: u32)
        ensures
            self.requests().len() <= u32::MAX ==> n == self.requests().len(),
            n == (self.requests().len() as usize) as u32,
    {
        self.sizes.len() as u32
    }

    pub fn is_empty(&self) -> (b: bool)
        ensures
            b == ((self.requests().len() as usize) as u32 == 0),
    {
        self.len() == 0
    }

    pub fn capacity(&self) -> (n: u32)
        ensures
            n == self.spec_capacity(),
    {
        self.capacity
    }

    /// Compares the offsets that the device produced against the planned ones. The first
    /// disagreement is named.
    pub fn verify_against(&self, got: &[u32], expected: &[Option<usize>]) -> (res: Result<(), String>)
        ensures
            res is Ok <==> got@.len() == expected@.len() && forall|i: int|
                0 <= i < got@.len() ==> agrees(#[trigger] got@[i], expected@[i]),
            res matches Err(e) ==> if got@.len() != expected@.len() {
                e@ == count_mismatch(got@.len(), expected@.len())
            } else {
                exists|i: int|
                    0 <= i < got@.len() && !agrees(#[trigger] got@[i], expected@[i]) && e@
                        == disagreement(i, got@[i], expected@[i]) && forall|k: int|
                        0 <= k < i ==> agrees(#[trigger] got@[k], expected@[k])
            },
    {
        if got.len() != expected.len() {
            let mut s = String::new();
            s.push_str("GPU produced ");
            text::push_usize(&mut s, got.len());
            s.push_str(" offsets, the plan has ");
            text::push_usize(&mut s, expected.len());
            s.push_str(" ordinals");
            proof {
                assert(s@ =~= count_mismatch(got@.len(), expected@.len()));
            }
            return Err(s);
        }
        for i in 0..got.len()
            invariant
                got@.len() == expected@.len(),
                forall|k: int| 0 <= k < i ==> agrees(#[trigger] got@[k], expected@[k]),
        {
            let g: u32 = got[i];
            match expected[i] {
                Some(want) => {
                    if g as usize != want {
                        let mut s = String::new();
                        s.push_str("ordinal ");
                        text::push_usize(&mut s, i);
                        s.push_str(": GPU offset ");
                        text::push_u64(&mut s, g as u64);
                        s.push_str(", plan offset ");
                        text::push_usize(&mut s, want);
                        proof {
                            assert(s@ =~= disagreement(i as int, g, expected@[i as int]));
                            assert(!agrees(got@[i as int], expected@[i as int]));
                        }
                        return Err(s);
                    }
                },
                None => {
                    if g != ARENA_DECLINED {
                        let mut s = String::new();
                        s.push_str("ordinal ");
                        text::push_usize(&mut s, i);
                        s.push_str(": plan declines it, GPU offset ");
                        text::push_u64(&mut s, g as u64);
                        proof {
                            assert(s@ =~= disagreement(i as int, g, expected@[i as int]));
                            assert(!agrees(got@[i as int], expected@[i as int]));
                        }
                        return Err(s);
                    }
                },
            }
        }
        Ok(())
    }
}

/// An offset agrees with the plan where it is the planned one; where the plan has none, only the
/// value that no offset can take does.
pub proof fn law_one_offset_agrees(got: u32, other: u32, expected: Option<usize>)
    ensures
        agrees(got, expected) && agrees(other, expected) ==> got == other,
        expected matches Some(want) ==> (agrees(got, expected) <==> got as int == want as int),
        expected is None ==> (agrees(got, expected) <==> got == 0xffff_ffff),
{
}

} // verus!
