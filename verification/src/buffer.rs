//! Buffer handles: which allocation a handle addresses, and which of its bytes.

use vstd::prelude::*;

verus! {

/// A handle that addresses a region of one device allocation.
///
/// The allocation itself lives with the device. What the bookkeeping reads of it is its identity,
/// its length and where the host maps it.
#[derive(Clone, Copy, Debug, PartialEq, Eq, Hash, Structural)]
pub struct Buffer {
    /// Identity of the device allocation.
    pub raw: usize,
    /// Bytes of the device allocation.
    pub raw_length: usize,
    /// Host address of the first byte of the allocation; 0 where the host has no mapping.
    pub raw_contents: usize,
    /// Byte offset that this handle addresses within the allocation. 0 but for a view.
    pub base_offset: usize,
    /// Bytes that this handle addresses, where it is a view. `None` is the whole allocation.
    pub view_length: Option<usize>,
}

impl Buffer {
    /// Bytes that this handle addresses.
    pub open spec fn spec_length(self) -> usize {
        match self.view_length {
            Some(n) => n,
            None => self.raw_length,
        }
    }

    /// The region lies within the allocation, and the host can address all of it.
    pub open spec fn well_formed(self) -> bool {
        &&& self.base_offset + self.spec_length() <= self.raw_length
        &&& self.raw_contents + self.raw_length <= usize::MAX
    }

    /// A handle on the whole of an allocation.
    pub fn new(raw: usize, raw_length: usize, raw_contents: usize) -> (b: Buffer)
        ensures
            b == (Buffer { raw, raw_length, raw_contents, base_offset: 0, view_length: None }),
            b.spec_length() == raw_length,
            raw_contents + raw_length <= usize::MAX ==> b.well_formed(),
    {
        Buffer { raw, raw_length, raw_contents, base_offset: 0, view_length: None }
    }

    /// A handle that addresses `base_offset..base_offset + length` of this one. It shares the
    /// allocation: nothing is copied. A view of a view adds the offsets.
    pub fn view(&self, base_offset: usize, length: usize) -> (b: Buffer)
        requires
            self.well_formed(),
            base_offset + length <= self.spec_length(),
        ensures
            b.raw == self.raw,
            b.raw_length == self.raw_length,
            b.raw_contents == self.raw_contents,
            b.base_offset == self.base_offset + base_offset,
            b.view_length == Some(length),
            b.well_formed(),
    {
        Buffer {
            raw: self.raw,
            raw_length: self.raw_length,
            raw_contents: self.raw_contents,
            base_offset: self.base_offset + base_offset,
            view_length: Some(length),
        }
    }

    /// Byte offset this handle addresses within the allocation.
    pub fn base_offset(&self) -> (n: usize)
        ensures
            n == self.base_offset,
    {
        self.base_offset
    }

    /// Identity of the allocation. Every view of one allocation has the same.
    pub fn raw_id(&self) -> (n: usize)
        ensures
            n == self.raw,
    {
        self.raw
    }

    /// Bytes this handle addresses: of a view its own extent, never its parent's.
    pub fn length(&self) -> (n: usize)
        ensures
            n == self.spec_length(),
    {
        match self.view_length {
            Some(n) => n,
            None => self.raw_length,
        }
    }

    /// Host address of the first byte this handle addresses; 0 where the host has no mapping.
    pub fn data(&self) -> (n: usize)
        requires
            self.well_formed(),
        ensures
            n == (if self.raw_contents == 0 {
                0
            } else {
                self.raw_contents + self.base_offset
            }),
    {
        if self.raw_contents == 0 {
            return 0;
        }
        self.raw_contents + self.base_offset
    }

    /// As `data`.
    pub fn contents(&self) -> (n: usize)
        requires
            self.well_formed(),
        ensures
            n == (if self.raw_contents == 0 {
                0
            } else {
                self.raw_contents + self.base_offset
            }),
    {
        self.data()
    }
}

/// Two views cut from one buffer at disjoint ranges address no byte in common, and each lies
/// within the buffer it was cut from.
pub proof fn law_views_address_their_own_bytes(parent: Buffer, a: Buffer, b: Buffer, at: int, to: int)
    requires
        parent.well_formed(),
        a.raw == parent.raw,
        b.raw == parent.raw,
        a.base_offset == parent.base_offset + at,
        b.base_offset == parent.base_offset + to,
        at + a.spec_length() <= to,
        0 <= at,
        to + b.spec_length() <= parent.spec_length(),
    ensures
        a.base_offset + a.spec_length() <= b.base_offset,
        parent.base_offset <= a.base_offset,
        b.base_offset + b.spec_length() <= parent.base_offset + parent.spec_length(),
{
}

/// A handle addresses the whole of its allocation, unless it is a view, which addresses as many bytes
/// as it was cut to.
pub proof fn law_a_handle_is_as_long_as_it_was_cut(b: Buffer, n: usize)
    ensures
        b.view_length is None ==> b.spec_length() == b.raw_length,
        b.view_length == Some(n) ==> b.spec_length() == n,
        b.well_formed() ==> b.base_offset + b.spec_length() <= b.raw_length && b.raw_contents
            + b.base_offset + b.spec_length() <= usize::MAX,
{
}

} // verus!
