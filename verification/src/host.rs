//! What the host operations of the execution engine need around the
//! dispatcher: the first message of a connection, the timeout of a call for
//! events, and the fixed number of slots in which events are handed over.

use crate::error::Error;
use crate::message::Message;
use std::time::Duration;
use vstd::prelude::*;

verus! {

/// The nanoseconds in a second.
pub const NANOS_PER_SEC: u32 = 1_000_000_000;

/// The time that `Duration::new` makes of `secs` seconds and `nanos`
/// nanoseconds.
pub uninterp spec fn duration_of(secs: u64, nanos: u32) -> Duration;

/// `Duration::new`: the time of `secs` seconds and `nanos` nanoseconds,
/// which depends on the two numbers alone. It is not asked for a time whose
/// seconds, with the whole seconds in `nanos`, do not fit in a `u64`.
#[verifier::external_body]
pub(crate) fn duration(secs: u64, nanos: u32) -> (d: Duration)
    requires
        secs + nanos / NANOS_PER_SEC <= u64::MAX,
    ensures
        d == duration_of(secs, nanos),
{
    Duration::new(secs, nanos)
}

/// The unit's own address and its parent's, as the first message of the
/// connection gives them. `Err(InvalidStartup)` exactly when the message
/// lacks one of the two or names another unit than `address` as the
/// receiver of the connection.
pub fn check_startup(first: &Message, address: u64) -> (r: Result<(u64, u64), Error>)
    ensures
        match r {
            Ok((own, parent)) => {
                &&& own == address
                &&& own == first@.your_address
                &&& parent == first@.parent_address
                &&& own != 0
                &&& parent != 0
            },
            Err(e) => {
                &&& e == Error::InvalidStartup
                &&& (first@.parent_address == 0 || first@.your_address == 0 || first@.your_address
                    != address)
            },
        },
{
    if first.parent_address == 0 || first.your_address == 0 || first.your_address != address {
        Err(Error::InvalidStartup)
    } else {
        Ok((first.your_address, first.parent_address))
    }
}

/// The timeout of a call for events, as `timeout_for` gives it.
pub open spec fn timeout_of(non_blocking: u8, secs: u64, nanos: u32) -> Option<Duration> {
    if non_blocking == 0 {
        None
    } else if secs + nanos / NANOS_PER_SEC <= u64::MAX {
        Some(duration_of(secs, nanos))
    } else {
        Some(duration_of(u64::MAX, (NANOS_PER_SEC - 1) as u32))
    }
}

/// The timeout of a call for events: the given time where `non_blocking` is
/// set, none where it is clear, which lets the call wait without limit. A
/// time whose seconds would not fit in a `u64` counts as the longest time
/// that does.
pub fn timeout_for(non_blocking: u8, secs: u64, nanos: u32) -> (timeout: Option<Duration>)
    ensures
        timeout == timeout_of(non_blocking, secs, nanos),
{
    if non_blocking == 0 {
        return None;
    }
    let carried: u64 = (nanos / NANOS_PER_SEC) as u64;
    if secs <= u64::MAX - carried {
        Some(duration(secs, nanos))
    } else {
        Some(duration(u64::MAX, NANOS_PER_SEC - 1))
    }
}

/// The slots handed to a caller that asked for at most `capacity` events:
/// the events in their order, then zeros, which no descriptor is, up to
/// `capacity` slots. Events beyond `capacity` are left out.
pub open spec fn padded(events: Seq<i32>, capacity: int) -> Seq<i32> {
    Seq::new(
        capacity as nat,
        |i: int|
            if i < events.len() {
                events[i]
            } else {
                0i32
            },
    )
}

/// Fills the slots of a caller that asked for at most `capacity` events.
pub fn pad_events(events: Vec<i32>, capacity: usize) -> (slots: Vec<i32>)
    ensures
        slots@ == padded(events@, capacity as int),
{
    let mut slots = events;
    if slots.len() > capacity {
        slots.truncate(capacity);
    }
    while slots.len() < capacity
        invariant
            slots@.len() <= capacity,
            events@.len() <= slots@.len() || slots@.len() == capacity,
            slots@ =~= padded(events@, slots@.len() as int),
        decreases capacity - slots@.len(),
    {
        slots.push(0);
    }
    slots
}

} // verus!
