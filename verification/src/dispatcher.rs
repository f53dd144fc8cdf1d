//! The dispatcher: a broker fed by the channel on which the reader of the
//! connection leaves the messages it decoded. What arrives on the channel,
//! and when, is not this library's to say: each operation states what holds
//! whichever messages had arrived.

use crate::broker::{Broker, Incoming};
use crate::directory::{address_of, AddressDirectory};
use crate::error::Error;
use crate::host::duration;
use crate::message::{Message, MessageView};
use crate::directory::MAX_DESCRIPTORS;
use crate::model::{data_fits, failed_receiving, received, spawn_fits, State};
use crate::wire::fits_frame;
use std::sync::mpsc::{Receiver, RecvTimeoutError, TryRecvError};
use std::time::Duration;
use vstd::prelude::*;

verus! {

/// The receiving end of a channel of the standard library.
#[verifier::external_type_specification]
#[verifier::external_body]
#[verifier::reject_recursive_types(T)]
pub struct ExReceiver<T>(Receiver<T>);

/// `Receiver::try_recv`: the message that waits, or that none waits, or
/// that none waits and the sending end is gone. Nothing is claimed of which
/// of the three comes back.
#[verifier::external_body]
fn try_receive(receiver: &Receiver<Message>) -> Incoming {
    match receiver.try_recv() {
        Ok(msg) => Incoming::Message(msg),
        Err(TryRecvError::Empty) => Incoming::Nothing,
        Err(TryRecvError::Disconnected) => Incoming::Closed,
    }
}

/// `Receiver::recv_timeout`: the message that comes within `timeout`, or
/// that none came, or that the sending end is gone. Nothing is claimed of
/// which of the three comes back.
#[verifier::external_body]
fn receive_within(receiver: &Receiver<Message>, timeout: Duration) -> Incoming {
    match receiver.recv_timeout(timeout) {
        Ok(msg) => Incoming::Message(msg),
        Err(RecvTimeoutError::Timeout) => Incoming::Nothing,
        Err(RecvTimeoutError::Disconnected) => Incoming::Closed,
    }
}

/// `Receiver::recv`: the next message, however long it takes, or that the
/// sending end is gone. Nothing is claimed of which of the two comes back.
#[verifier::external_body]
fn receive(receiver: &Receiver<Message>) -> Incoming {
    match receiver.recv() {
        Ok(msg) => Incoming::Message(msg),
        Err(_) => Incoming::Closed,
    }
}

/// `rand::random`: a `u64` drawn at random. Nothing is claimed of it.
#[verifier::external_body]
fn random_address() -> u64 {
    rand::random::<u64>()
}

/// What is left to do once the channel has been drained.
#[derive(Clone, Copy, Debug, PartialEq, Eq)]
pub enum Wait {
    /// Nothing: messages were recorded.
    No,
    /// To wait for one message, for at most this time.
    Within(Duration),
    /// To wait for one message, however long it takes.
    Unbounded,
}

/// What `wait_for` gives.
pub open spec fn wait_of(drained: bool, timeout: Option<Duration>) -> Wait {
    if drained {
        Wait::No
    } else {
        match timeout {
            Some(limit) => Wait::Within(limit),
            None => Wait::Unbounded,
        }
    }
}

/// What is left to do once the channel has been drained: nothing where a
/// message was recorded; else one wait for a message, within the caller's
/// timeout if there is one, without limit otherwise.
pub fn wait_for(drained: bool, timeout: Option<Duration>) -> (wait: Wait)
    ensures
        wait == wait_of(drained, timeout),
{
    if drained {
        Wait::No
    } else {
        match timeout {
            Some(limit) => Wait::Within(limit),
            None => Wait::Unbounded,
        }
    }
}

/// The state of one compute unit's broker, and the channel that feeds it.
pub struct EmblyCtx {
    receiver: Receiver<Message>,
    broker: Broker,
}

impl View for EmblyCtx {
    type V = State;

    closed spec fn view(&self) -> State {
        self.broker@
    }
}

impl EmblyCtx {
    /// The dispatcher of the unit at `address`, fed by `receiver`, which
    /// knows the master's address under descriptor 1 and nothing else.
    pub fn new(receiver: Receiver<Message>, address: u64, master: u64) -> (ctx: EmblyCtx)
        ensures
            ctx@ == State::initial(address, master),
            ctx@.wf(),
    {
        EmblyCtx { receiver, broker: Broker::new(address, master) }
    }

    /// Records every message that waits on the channel. If none waited, it
    /// waits once for one, as `wait_for` says: for at most `timeout` if there
    /// is one, without limit otherwise. It fails with `Disconnected` when
    /// nothing waited and the channel is closed, and with `DirectoryFull`
    /// when a message comes from a new address and every descriptor is
    /// taken; the messages before that one are recorded.
    pub fn process_messages(&mut self, timeout: Option<Duration>) -> (r: Result<(), Error>)
        ensures
            old(self)@.wf(),
            final(self)@.wf(),
            received(old(self)@, final(self)@),
            r matches Err(e) ==> failed_receiving(e, old(self)@, final(self)@),
    {
        let ghost start = self@;
        let ghost mut arrivals: Seq<MessageView> = Seq::empty();
        // Asking the broker anything tells that it is well formed.
        let _ = self.broker.address();
        let mut drained = false;
        let mut budget: usize = usize::MAX;
        while budget > 0
            invariant
                start == old(self)@,
                start.wf(),
                self@.wf(),
                start.record_all(arrivals) == self@,
                !drained ==> self@ == start,
            decreases budget,
        {
            let found = try_receive(&self.receiver);
            let ghost seen = found;
            proof {
                if let Incoming::Message(msg) = seen {
                    assert(arrivals.push(msg@).drop_last() =~= arrivals);
                    arrivals = arrivals.push(msg@);
                }
            }
            match self.broker.take_in(found) {
                Ok(true) => {},
                Ok(false) | Err(Error::Disconnected) => {
                    break ;
                },
                Err(e) => {
                    assert(received(start, self@));
                    return Err(e);
                },
            }
            drained = true;
            budget = budget - 1;
        }
        let found = match wait_for(drained, timeout) {
            Wait::No => {
                assert(received(start, self@));
                return Ok(());
            },
            Wait::Within(limit) => receive_within(&self.receiver, limit),
            Wait::Unbounded => receive(&self.receiver),
        };
        let ghost seen = found;
        proof {
            if let Incoming::Message(msg) = seen {
                assert(arrivals.push(msg@).drop_last() =~= arrivals);
                arrivals = arrivals.push(msg@);
            }
        }
        match self.broker.take_in(found) {
            Ok(_) => {
                assert(start.record_all(arrivals) == self@);
                assert(received(start, self@));
                Ok(())
            },
            Err(e) => {
                assert(received(start, self@));
                Err(e)
            },
        }
    }

    /// Records what has arrived, as `process_messages` does, then takes at
    /// most `limit` events from the front of the event queue, in the order of
    /// their arrival; the others stay queued. Where `process_messages` fails
    /// it fails alike, and takes no event.
    pub fn events_limited(&mut self, timeout: Option<Duration>, limit: usize) -> (r: Result<
        Vec<i32>,
        Error,
    >)
        ensures
            old(self)@.wf(),
            final(self)@.wf(),
            exists|mid: State| #[trigger]
                received(old(self)@, mid) && match r {
                    Ok(events) => events@ == mid.events(limit as int) && final(self)@
                        == mid.after_events(limit as int),
                    Err(e) => failed_receiving(e, old(self)@, mid) && final(self)@ == mid,
                },
    {
        match self.process_messages(timeout) {
            Ok(()) => {},
            Err(e) => {
                return Err(e);
            },
        }
        let ghost mid = self@;
        let events = self.broker.events_limited(limit);
        assert(received(old(self)@, mid));
        Ok(events)
    }

    /// Records what has arrived, as `process_messages` does, then takes every
    /// event from the event queue, in the order of their arrival. Where
    /// `process_messages` fails it fails alike, and takes no event.
    pub fn events(&mut self, timeout: Option<Duration>) -> (r: Result<Vec<i32>, Error>)
        ensures
            old(self)@.wf(),
            final(self)@.wf(),
            exists|mid: State| #[trigger]
                received(old(self)@, mid) && match r {
                    Ok(events) => events@ == mid.pending && final(self)@ == (State {
                        pending: Seq::empty(),
                        ..mid
                    }),
                    Err(e) => failed_receiving(e, old(self)@, mid) && final(self)@ == mid,
                },
    {
        match self.process_messages(timeout) {
            Ok(()) => {},
            Err(e) => {
                return Err(e);
            },
        }
        let ghost mid = self@;
        let events = self.broker.events();
        assert(received(old(self)@, mid));
        Ok(events)
    }

    /// Records the messages that wait on the channel, without waiting for
    /// more, then reads from the mailbox of `id` as `read_buffered` does. A
    /// descriptor with nothing to read gives `Ok(0)`. Where `process_messages`
    /// fails it fails alike, and reads nothing.
    pub fn read(&mut self, id: i32, buf: &mut [u8]) -> (r: Result<usize, Error>)
        ensures
            old(self)@.wf(),
            final(self)@.wf(),
            exists|mid: State| #[trigger]
                received(old(self)@, mid) && match r {
                    Ok(n) => {
                        &&& n == mid.read_len(id as int, old(buf)@.len() as int)
                        &&& final(buf)@ == mid.read_data(id as int, old(buf)@.len() as int)
                            + old(buf)@.skip(n as int)
                        &&& final(self)@ == mid.after_read(id as int, old(buf)@.len() as int)
                    },
                    Err(e) => failed_receiving(e, old(self)@, mid) && final(self)@ == mid
                        && final(buf)@ == old(buf)@,
                },
    {
        match self.process_messages(Some(duration(0, 0))) {
            Ok(()) => {},
            Err(e) => {
                return Err(e);
            },
        }
        let ghost mid = self@;
        let n = self.broker.read(id, buf);
        assert(received(old(self)@, mid));
        Ok(n)
    }

    /// Copies into `buf` as many bytes of the first message of the mailbox
    /// of `id` as fit, takes them from the message, and drops the message if
    /// no byte of it is left; returns how many bytes it copied. An empty
    /// mailbox, or a descriptor that was never handed out, gives 0 and
    /// changes nothing.
    pub fn read_buffered(&mut self, id: i32, buf: &mut [u8]) -> (n: usize)
        ensures
            old(self)@.wf(),
            final(self)@.wf(),
            n == old(self)@.read_len(id as int, old(buf)@.len() as int),
            final(buf)@ == old(self)@.read_data(id as int, old(buf)@.len() as int) + old(buf)@.skip(
                n as int,
            ),
            final(self)@ == old(self)@.after_read(id as int, old(buf)@.len() as int),
    {
        self.broker.read(id, buf)
    }

    /// Takes at most `limit` events from the front of the event queue.
    pub fn take_events(&mut self, limit: usize) -> (events: Vec<i32>)
        ensures
            old(self)@.wf(),
            final(self)@.wf(),
            events@ == old(self)@.events(limit as int),
            final(self)@ == old(self)@.after_events(limit as int),
    {
        self.broker.events_limited(limit)
    }

    /// Frames for the master a message from this unit to the address that
    /// `id` stands for, with the bytes of `buf` as its data, and returns how
    /// many bytes it took: all of them. It fails, with nothing written, for a
    /// descriptor that was never handed out, and for data too long for a
    /// frame.
    pub fn write(&mut self, id: i32, buf: &[u8]) -> (r: Result<usize, Error>)
        ensures
            old(self)@.wf(),
            final(self)@.wf(),
            match old(self)@.write_result(id as int, buf@) {
                Ok(state) => r == Ok::<usize, Error>(buf@.len() as usize) && final(self)@ == state,
                Err(e) => r == Err::<usize, Error>(e) && final(self)@ == old(self)@,
            },
            address_of(old(self)@.directory, id as int) is Some && data_fits(buf@) ==> r is Ok,
    {
        self.broker.write(id, buf)
    }

    /// Records the arrival of `msg`: gives its sender a descriptor if it has
    /// none, puts `msg` last in that descriptor's mailbox and the descriptor
    /// last in the event queue, and returns the descriptor. It fails, with
    /// nothing changed, exactly when the sender is new and every descriptor
    /// is taken.
    pub fn save_msg(&mut self, msg: Message) -> (r: Result<i32, Error>)
        ensures
            old(self)@.wf(),
            final(self)@.wf(),
            match old(self)@.record_result(msg@) {
                Ok(state) => r == Ok::<i32, Error>(old(self)@.descriptor_for(msg.from) as i32)
                    && final(self)@ == state,
                Err(e) => r == Err::<i32, Error>(e) && final(self)@ == old(self)@,
            },
    {
        self.broker.save_msg(msg)
    }

    /// Gives `addr` a descriptor, with an empty mailbox, if it has none, and
    /// returns its descriptor. `None`, with nothing changed, exactly when the
    /// address is new and every descriptor is taken.
    pub fn add_address(&mut self, addr: u64) -> (r: Option<i32>)
        ensures
            old(self)@.wf(),
            final(self)@.wf(),
            match r {
                Some(d) => {
                    &&& old(self)@.can_register(addr)
                    &&& final(self)@ == old(self)@.register(addr)
                    &&& d == old(self)@.descriptor_for(addr)
                    &&& 1 <= d <= final(self)@.directory.len()
                },
                None => !old(self)@.can_register(addr) && final(self)@ == old(self)@,
            },
    {
        self.broker.add_address(addr)
    }

    /// Draws an address at random, gives it a descriptor and frames for the
    /// master the request to spawn `name` there; returns the descriptor
    /// without waiting for the master. Whatever address was drawn, the
    /// outcome is that of `spawn_at` for it; it succeeds where a descriptor
    /// is free and the name is short enough for a frame.
    pub fn spawn(&mut self, name: &str) -> (r: Result<i32, Error>)
        ensures
            old(self)@.wf(),
            final(self)@.wf(),
            exists|spawn_address: u64|
                match #[trigger] old(self)@.spawn_result(name@, spawn_address) {
                    Ok(state) => r == Ok::<i32, Error>(
                        old(self)@.descriptor_for(spawn_address) as i32,
                    ) && final(self)@ == state,
                    Err(e) => r == Err::<i32, Error>(e) && final(self)@ == old(self)@,
                },
            old(self)@.directory.len() < MAX_DESCRIPTORS && spawn_fits(name@) ==> r is Ok,
    {
        let spawn_address = random_address();
        let r = self.broker.spawn_at(name, spawn_address);
        assert(old(self)@.spawn_result(name@, spawn_address) is Ok || old(self)@.spawn_result(
            name@,
            spawn_address,
        ) is Err);
        r
    }

    /// Gives `spawn_address` a descriptor and frames for the master the
    /// request to spawn `name` there; returns the descriptor. It fails, with
    /// nothing changed, when the address is new and every descriptor is
    /// taken, and when the name is too long for a frame.
    pub fn spawn_at(&mut self, name: &str, spawn_address: u64) -> (r: Result<i32, Error>)
        ensures
            old(self)@.wf(),
            final(self)@.wf(),
            match old(self)@.spawn_result(name@, spawn_address) {
                Ok(state) => r == Ok::<i32, Error>(
                    old(self)@.descriptor_for(spawn_address) as i32,
                ) && final(self)@ == state,
                Err(e) => r == Err::<i32, Error>(e) && final(self)@ == old(self)@,
            },
            old(self)@.can_register(spawn_address) && spawn_fits(name@) ==> r is Ok,
    {
        self.broker.spawn_at(name, spawn_address)
    }

    /// Frames for the master the notice that the unit has exited with
    /// `code`.
    pub fn exit(&mut self, code: i32) -> (r: Result<(), Error>)
        ensures
            old(self)@.wf(),
            final(self)@.wf(),
            r is Ok,
            final(self)@ == old(self)@.send(MessageView::exit_notice(code)),
    {
        self.broker.exit(code)
    }

    /// Frames `msg` for the master. It fails, with nothing written, exactly
    /// when the payload is too long for a frame.
    pub fn write_msg(&mut self, msg: &Message) -> (r: Result<(), Error>)
        ensures
            old(self)@.wf(),
            final(self)@.wf(),
            match old(self)@.send_result(msg@) {
                Ok(state) => r is Ok && final(self)@ == state,
                Err(e) => r == Err::<(), Error>(e) && final(self)@ == old(self)@,
            },
            fits_frame(msg@) ==> r is Ok,
    {
        self.broker.write_msg(msg)
    }

    /// Hands out the bytes framed for the master since the last call, for the
    /// connection to send.
    pub fn take_outbound(&mut self) -> (bytes: Vec<u8>)
        ensures
            old(self)@.wf(),
            final(self)@.wf(),
            bytes@ == old(self)@.outbound,
            final(self)@ == (State { outbound: Seq::empty(), ..old(self)@ }),
    {
        self.broker.take_outbound()
    }

    /// The directory of descriptors and addresses.
    pub fn address_map(&self) -> (dir: &AddressDirectory)
        ensures
            dir@ == self@.directory,
            self@.wf(),
    {
        self.broker.address_map()
    }

    /// The unit's own address.
    pub fn address(&self) -> (a: u64)
        ensures
            a == self@.address,
            self@.wf(),
    {
        self.broker.address()
    }

    /// How many descriptors have been handed out; the last one is this
    /// number.
    pub fn address_count(&self) -> (n: i32)
        ensures
            n == self@.directory.len(),
            self@.wf(),
    {
        self.broker.address_count()
    }

    /// How many arrivals lacked a sender or a receiver.
    pub fn flagged(&self) -> (n: u64)
        ensures
            n == self@.flagged,
            self@.wf(),
    {
        self.broker.flagged()
    }
}

} // verus!
