//! The consumer of the memory events of one traced process: it decides what
//! each event means for the tally of the pages of the process, and when the
//! process has outgrown its limit.
//!
//! The consumer only decides. Whoever drives it keeps the tally, and sends the
//! signal where the decision asks for one.

use vstd::prelude::*;

verus! {

/// What the consumer reads of an event.
#[derive(Clone, Copy, PartialEq, Eq, Structural, Debug)]
pub enum EventKind {
    PageAlloc { pfn: u64, order: u32 },
    PageFree { pfn: u64 },
    AddToPageCache { pfn: u64 },
    RemoveFromPageCache { pfn: u64 },
    /// The size of one part of the resident set, in bytes.
    RssStat { member: i32, size: i64 },
    /// An event that the tally does not follow.
    Other { discriminant: u32 },
}

/// An event with the process that caused it.
#[derive(Clone, Copy, Debug)]
pub struct Event {
    pub pid: u32,
    pub event: EventKind,
}

/// What is to be done on an event.
#[derive(Clone, Copy, PartialEq, Eq, Structural, Debug)]
pub enum Action {
    /// Nothing.
    Ignore,
    /// Pages were allocated: they are put on the tally.
    TrackAlloc { pfn: u32, order: u8 },
    /// Pages were freed: they are taken off the tally.
    TrackFree { pfn: u32 },
    /// A page went into the page cache, or out of it.
    MarkCache { pfn: u32, cached: bool },
    /// The anonymous part of the resident set has this size.
    TrackRss { size: u64 },
    /// The process is over its limit: it is killed, and the size is tallied.
    KillAndTrackRss { pid: u32, size: u64 },
}

/// What the consumer holds, as mathematical values.
pub struct ConsumerState {
    /// Whether an allocation has told which process is traced.
    pub has_pid: bool,
    pub pid: u32,
    /// The event before this one.
    pub last: Option<EventKind>,
    /// Whether the process was killed.
    pub killed: bool,
}

/// The low 32 bits of a page frame number.
pub open spec fn low_u32(value: u64) -> u32 {
    (value % 0x1_0000_0000) as u32
}

/// The low 8 bits of an order.
pub open spec fn low_u8(value: u32) -> u8 {
    (value % 0x100) as u8
}

/// The 64 bits of a size, read without a sign.
pub open spec fn bits_u64(value: i64) -> u64 {
    if value >= 0 {
        value as u64
    } else {
        (value + 0x1_0000_0000_0000_0000) as u64
    }
}

/// A size in thousands of bytes, rounded towards zero, its low 32 bits.
pub open spec fn thousands(size: i64) -> u32 {
    let quotient: int = if size >= 0 {
        size / 1000
    } else {
        -((-size) / 1000)
    };
    (quotient % 0x1_0000_0000) as u32
}

/// Whether an event is passed over: the process was killed, or the event
/// repeats the one before it.
pub open spec fn passed_over(state: ConsumerState, event: Event) -> bool {
    state.killed || state.last == Some(event.event)
}

/// Whether a size of the resident set is over the limit. A limit of zero is no limit.
pub open spec fn over_limit(size: i64, limit: u32) -> bool {
    limit != 0 && thousands(size) > limit
}

/// What is to be done on an event.
pub open spec fn action_of(state: ConsumerState, event: Event, limit: u32) -> Action {
    if passed_over(state, event) {
        Action::Ignore
    } else {
        match event.event {
            EventKind::PageAlloc { pfn, order } => if pfn != 0 {
                Action::TrackAlloc { pfn: low_u32(pfn), order: low_u8(order) }
            } else {
                Action::Ignore
            },
            EventKind::PageFree { pfn } => if pfn != 0 && state.has_pid {
                Action::TrackFree { pfn: low_u32(pfn) }
            } else {
                Action::Ignore
            },
            EventKind::AddToPageCache { pfn } => if pfn != 0 && state.has_pid {
                Action::MarkCache { pfn: low_u32(pfn), cached: true }
            } else {
                Action::Ignore
            },
            EventKind::RemoveFromPageCache { pfn } => if pfn != 0 && state.has_pid {
                Action::MarkCache { pfn: low_u32(pfn), cached: false }
            } else {
                Action::Ignore
            },
            EventKind::RssStat { member, size } => if member == 1 && state.has_pid {
                if over_limit(size, limit) {
                    Action::KillAndTrackRss { pid: state.pid, size: bits_u64(size) }
                } else {
                    Action::TrackRss { size: bits_u64(size) }
                }
            } else {
                Action::Ignore
            },
            EventKind::Other { .. } => Action::Ignore,
        }
    }
}

/// The consumer after an event.
pub open spec fn arrived(state: ConsumerState, event: Event, limit: u32) -> ConsumerState {
    if passed_over(state, event) {
        state
    } else {
        match event.event {
            EventKind::PageAlloc { pfn, order } => if pfn != 0 {
                ConsumerState { has_pid: true, pid: event.pid, last: Some(event.event), ..state }
            } else {
                ConsumerState { last: Some(event.event), ..state }
            },
            EventKind::RssStat { member, size } => ConsumerState {
                last: Some(event.event),
                killed: member == 1 && state.has_pid && over_limit(size, limit),
                ..state
            },
            _ => ConsumerState { last: Some(event.event), ..state },
        }
    }
}

/// The consumer of the events of one traced process.
#[derive(Debug)]
pub struct Consumer {
    has_pid: bool,
    pid: u32,
    last: Option<EventKind>,
    killed: bool,
}

impl View for Consumer {
    type V = ConsumerState;

    closed spec fn view(&self) -> ConsumerState {
        ConsumerState { has_pid: self.has_pid, pid: self.pid, last: self.last, killed: self.killed }
    }
}

impl Consumer {
    /// A consumer that has seen no event.
    pub fn new() -> (consumer: Consumer)
        ensures
            consumer@ == (ConsumerState { has_pid: false, pid: 0, last: None, killed: false }),
    {
        Consumer { has_pid: false, pid: 0, last: None, killed: false }
    }

    /// The process that is traced, zero as long as no allocation has told.
    pub fn pid(&self) -> (pid: u32)
        ensures
            pid == self@.pid,
    {
        self.pid
    }

    /// Takes an event and decides what is to be done on it, under the limit of
    /// the moment for the resident set, in thousands of bytes.
    pub fn arrive(&mut self, event: &Event, limit: u32) -> (action: Action)
        ensures
            action == action_of(old(self)@, *event, limit),
            final(self)@ == arrived(old(self)@, *event, limit),
    {
        if self.killed {
            return Action::Ignore;
        }
        let repeated = match self.last {
            Some(last) => last == event.event,
            None => false,
        };
        if repeated {
            return Action::Ignore;
        }
        let action = match event.event {
            EventKind::PageAlloc { pfn, order } => {
                if pfn != 0 {
                    self.has_pid = true;
                    self.pid = event.pid;
                    Action::TrackAlloc { pfn: low_bits_u32(pfn), order: low_bits_u8(order) }
                } else {
                    Action::Ignore
                }
            },
            EventKind::PageFree { pfn } => {
                if pfn != 0 && self.has_pid {
                    Action::TrackFree { pfn: low_bits_u32(pfn) }
                } else {
                    Action::Ignore
                }
            },
            EventKind::AddToPageCache { pfn } => {
                if pfn != 0 && self.has_pid {
                    Action::MarkCache { pfn: low_bits_u32(pfn), cached: true }
                } else {
                    Action::Ignore
                }
            },
            EventKind::RemoveFromPageCache { pfn } => {
                if pfn != 0 && self.has_pid {
                    Action::MarkCache { pfn: low_bits_u32(pfn), cached: false }
                } else {
                    Action::Ignore
                }
            },
            EventKind::RssStat { member, size } => {
                if member == 1 && self.has_pid {
                    let bits = unsigned_bits(size);
                    if limit != 0 && in_thousands(size) > limit {
                        self.killed = true;
                        Action::KillAndTrackRss { pid: self.pid, size: bits }
                    } else {
                        Action::TrackRss { size: bits }
                    }
                } else {
                    Action::Ignore
                }
            },
            EventKind::Other { .. } => Action::Ignore,
        };
        self.last = Some(event.event);
        action
    }
}

fn low_bits_u32(value: u64) -> (low: u32)
    ensures
        low == low_u32(value),
{
    (value % 0x1_0000_0000) as u32
}

fn low_bits_u8(value: u32) -> (low: u8)
    ensures
        low == low_u8(value),
{
    (value % 0x100) as u8
}

fn unsigned_bits(value: i64) -> (bits: u64)
    ensures
        bits == bits_u64(value),
{
    if value >= 0 {
        value as u64
    } else {
        // The value below zero that is nearest to it is the greatest number without a sign.
        let below: u64 = (-(value + 1)) as u64;
        u64::MAX - below
    }
}

fn in_thousands(size: i64) -> (thousands_of: u32)
    ensures
        thousands_of == thousands(size),
{
    if size >= 0 {
        let quotient: u64 = (size / 1000) as u64;
        (quotient % 0x1_0000_0000) as u32
    } else if size == i64::MIN {
        // 9223372036854775808 / 1000 = 9223372036854775, with the sign turned.
        let quotient: u64 = 9223372036854775;
        let low: u64 = quotient % 0x1_0000_0000;
        ((0x1_0000_0000 - low) % 0x1_0000_0000) as u32
    } else {
        let quotient: u64 = ((-size) / 1000) as u64;
        let low: u64 = quotient % 0x1_0000_0000;
        ((0x1_0000_0000 - low) % 0x1_0000_0000) as u32
    }
}

} // verus!
