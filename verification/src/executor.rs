//! How a dispatch reaches the device.
//!
//! Every dispatch passes one point of submission. An executor that stands there sees dispatches
//! in order, and may forward one, hold it back, or have a pre-encoded range run in its place. The
//! classical path forwards everything, and is what runs with no executor installed.

use vstd::prelude::*;

use crate::buffer::Buffer;

verus! {

/// A size in three dimensions.
#[derive(Clone, Copy, Debug, PartialEq, Eq, Hash, Structural)]
pub struct Size3 {
    pub width: usize,
    pub height: usize,
    pub depth: usize,
}

/// Which of the two dispatch forms a record came from.
///
/// Kept apart because the conversion loses something: a grid in threads lets the device size the
/// last, partial threadgroup.
#[derive(Clone, Copy, Debug, PartialEq, Eq, Structural)]
pub enum Grid {
    Threadgroups(Size3),
    Threads(Size3),
}

/// One dispatch, as the executor sees it.
#[derive(Debug)]
pub struct DispatchRecord {
    /// Kernel function name, where the pipeline carried one.
    pub kernel: Option<String>,
    /// Threadgroups per grid, or threads per grid.
    pub grid: Grid,
    pub threads_per_threadgroup: Size3,
}

/// What an executor will do with the position about to be dispatched, as far as it can be known
/// before the dispatch is offered.
#[derive(Clone, Copy, Debug, PartialEq, Eq, Structural)]
pub enum Disposition {
    /// Nothing is known, or the position will be encoded classically.
    Unknown,
    /// The position belongs to a run that is already in flight, and is not its head. Its command
    /// was executed by the range that the head asked for, with its ordering encoded on it. Only
    /// this licenses holding back a barrier.
    ReplayedInFlightRun,
}

impl Default for Disposition {
    fn default() -> (d: Self)
        ensures
            d == Disposition::Unknown,
    {
        Disposition::Unknown
    }
}

/// What the encoder should do at a dispatch position.
#[derive(Clone, Copy, Debug, PartialEq, Eq, Structural)]
pub enum DispatchAction {
    /// Encode the dispatch normally.
    Encode,
    /// Do not encode it, and run nothing in its place.
    Suppress,
    /// Do not encode it; execute `length` pre-encoded commands from `location` here.
    ExecuteIcb { location: usize, length: usize },
}

impl DispatchAction {
    /// What a plain yes or no to a dispatch comes to.
    pub fn forwarding(forward: bool) -> (a: DispatchAction)
        ensures
            a == (if forward {
                DispatchAction::Encode
            } else {
                DispatchAction::Suppress
            }),
    {
        if forward {
            DispatchAction::Encode
        } else {
            DispatchAction::Suppress
        }
    }

    /// Whether the encoder still has to encode the dispatch itself.
    pub fn encodes(self) -> (b: bool)
        ensures
            b == (self is Encode),
    {
        match self {
            DispatchAction::Encode => true,
            _ => false,
        }
    }
}

/// How a dispatch is submitted to the device.
///
/// Every method has a default, so an executor that only counts dispatches writes one of them.
pub trait Executor: Sized {
    /// Called before a dispatch is forwarded. `false` holds the dispatch back.
    fn dispatch(&mut self, record: &DispatchRecord) -> (b: bool)
        default_ensures
            b,
            *final(self) == *old(self),
    {
        true
    }

    /// As `dispatch`, but able to ask for a pre-encoded range to run here instead.
    fn dispatch_action(&mut self, record: &DispatchRecord) -> (a: DispatchAction)
        default_ensures
            exists|e: &mut Self, b: bool|
                *e == *old(self) && *final(e) == *final(self) && #[trigger] call_ensures(
                    Self::dispatch,
                    (e, record),
                    b,
                ) && a == (if b {
                    DispatchAction::Encode
                } else {
                    DispatchAction::Suppress
                }),
    {
        DispatchAction::forwarding(self.dispatch(record))
    }

    /// What this position's disposition will be, without advancing anything.
    fn disposition(&self) -> (d: Disposition)
        default_ensures
            d == Disposition::Unknown,
    {
        Disposition::Unknown
    }

    /// Called when a buffer is bound, before the binding reaches the device.
    fn will_bind_buffer(&mut self, index: usize, buffer: &Buffer, offset: usize, is_output: bool)
        default_ensures
            *final(self) == *old(self),
    {
    }

    /// Called when pipeline state is set, before it reaches the device. `pipeline` identifies it.
    fn will_set_pipeline(&mut self, pipeline: usize)
        default_ensures
            *final(self) == *old(self),
    {
    }
}

/// The default: forward every dispatch unchanged.
#[derive(Clone, Copy, Debug, PartialEq, Eq, Structural)]
pub struct Classical;

impl Default for Classical {
    fn default() -> (c: Self) {
        Classical
    }
}

impl Executor for Classical {

}

/// What a pre-encoded command can and cannot hold.
///
/// It can bind buffers of any length, and it can carry a barrier. It cannot carry an inline
/// constant: a kernel that takes one is encodable only through an entry point that reads its
/// constants from a buffer.
#[derive(Clone, Copy, Debug)]
pub struct IcbFeasibility;

/// Which executor a device is using.
#[derive(Debug)]
pub enum ExecutorSlot<E> {
    /// No executor. The default.
    Classical,
    /// An executor that a caller installed.
    Custom(E),
}

impl<E> Default for ExecutorSlot<E> {
    fn default() -> (s: Self)
        ensures
            s is Classical,
    {
        ExecutorSlot::Classical
    }
}

/// An installed executor is asked with the very arguments that came in: what it answers, and what
/// it is left as, is what its own method gives.
impl<E: Executor> ExecutorSlot<E> {
    /// Whether no executor is installed, so that a caller need not build a record at all.
    pub fn is_classical(&self) -> (b: bool)
        ensures
            b == (self is Classical),
    {
        match self {
            ExecutorSlot::Classical => true,
            ExecutorSlot::Custom(_) => false,
        }
    }

    pub fn dispatch(&mut self, record: &DispatchRecord) -> (b: bool)
        ensures
            *old(self) is Classical ==> b && *final(self) == *old(self),
            *old(self) is Custom <==> *final(self) is Custom,
            *old(self) is Custom ==> exists|e: &mut E|
                *e == old(self)->Custom_0 && *final(e) == final(self)->Custom_0
                    && #[trigger] call_ensures(E::dispatch, (e, record), b),
    {
        match self {
            ExecutorSlot::Classical => true,
            ExecutorSlot::Custom(e) => e.dispatch(record),
        }
    }

    pub fn dispatch_action(&mut self, record: &DispatchRecord) -> (a: DispatchAction)
        ensures
            *old(self) is Classical ==> a is Encode && *final(self) == *old(self),
            *old(self) is Custom <==> *final(self) is Custom,
            *old(self) is Custom ==> exists|e: &mut E|
                *e == old(self)->Custom_0 && *final(e) == final(self)->Custom_0
                    && #[trigger] call_ensures(E::dispatch_action, (e, record), a),
    {
        match self {
            ExecutorSlot::Classical => DispatchAction::Encode,
            ExecutorSlot::Custom(e) => e.dispatch_action(record),
        }
    }

    pub fn disposition(&self) -> (d: Disposition)
        ensures
            self is Classical ==> d == Disposition::Unknown,
            self is Custom ==> call_ensures(E::disposition, (&self->Custom_0,), d),
    {
        match self {
            ExecutorSlot::Classical => Disposition::Unknown,
            ExecutorSlot::Custom(e) => e.disposition(),
        }
    }

    pub fn will_bind_buffer(&mut self, index: usize, buffer: &Buffer, offset: usize, is_output: bool)
        ensures
            *old(self) is Classical ==> *final(self) == *old(self),
            *old(self) is Custom <==> *final(self) is Custom,
            *old(self) is Custom ==> exists|e: &mut E|
                *e == old(self)->Custom_0 && *final(e) == final(self)->Custom_0
                    && #[trigger] call_ensures(E::will_bind_buffer, (e, index, buffer, offset, is_output), ()),
    {
        match self {
            ExecutorSlot::Classical => {},
            ExecutorSlot::Custom(e) => e.will_bind_buffer(index, buffer, offset, is_output),
        }
    }

    pub fn will_set_pipeline(&mut self, pipeline: usize)
        ensures
            *old(self) is Classical ==> *final(self) == *old(self),
            *old(self) is Custom <==> *final(self) is Custom,
            *old(self) is Custom ==> exists|e: &mut E|
                *e == old(self)->Custom_0 && *final(e) == final(self)->Custom_0
                    && #[trigger] call_ensures(E::will_set_pipeline, (e, pipeline), ()),
    {
        match self {
            ExecutorSlot::Classical => {},
            ExecutorSlot::Custom(e) => e.will_set_pipeline(pipeline),
        }
    }
}

} // verus!
