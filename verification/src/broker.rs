//! The broker's state and the operations on it that need nothing from
//! outside: registering addresses, recording arrivals, handing out events,
//! reading mailboxes and framing what goes to the master.

use crate::directory::{address_of, lemma_bijection, lemma_registered, well_formed};
use crate::directory::{AddressDirectory, MAX_DESCRIPTORS};
use crate::error::Error;
use crate::frame::write_msg;
use crate::message::{Message, MessageView, MASTER_ADDRESS};
use crate::events::{count_of, remove_first};
use crate::model::{data_fits, spawn_fits, State};
use crate::model::{lemma_events_wf, lemma_read_wf, lemma_record_wf};
use crate::wire::fits_frame;
use std::collections::{HashMap, VecDeque};
use vstd::prelude::*;
use vstd::slice::slice_to_vec;

verus! {

/// What a mailbox holds, message by message.
pub open spec fn queue_view(queue: Seq<Message>) -> Seq<MessageView> {
    queue.map_values(|m: Message| m@)
}

/// What the mailbox of descriptor `d` holds: nothing where there is none.
pub open spec fn mailbox_view(mailboxes: Map<i32, VecDeque<Message>>, d: int) -> Seq<MessageView> {
    if mailboxes.contains_key(d as i32) {
        queue_view(mailboxes[d as i32]@)
    } else {
        Seq::empty()
    }
}

/// What the mailboxes of the descriptors from 1 to `count` hold.
pub open spec fn mailboxes_view(
    mailboxes: Map<i32, VecDeque<Message>>,
    count: nat,
) -> Seq<Seq<MessageView>> {
    Seq::new(count, |i: int| mailbox_view(mailboxes, i + 1))
}

/// Overwrites the first `n` bytes of `buf` with the first `n` bytes of
/// `data`.
fn copy_prefix(buf: &mut [u8], data: &Vec<u8>, n: usize)
    requires
        n <= old(buf)@.len(),
        n <= data@.len(),
    ensures
        final(buf)@ == data@.take(n as int) + old(buf)@.skip(n as int),
{
    let mut i: usize = 0;
    while i < n
        invariant
            i <= n,
            n <= data@.len(),
            buf@.len() == old(buf)@.len(),
            n <= buf@.len(),
            buf@ =~= data@.take(i as int) + old(buf)@.skip(i as int),
        decreases n - i,
    {
        buf[i] = data[i];
        i = i + 1;
    }
}

/// What a look at the channel from the reader of the connection found.
pub enum Incoming {
    /// A message that the reader had decoded.
    Message(Message),
    /// No message yet, or none within the time allowed.
    Nothing,
    /// No message, and the reader is gone.
    Closed,
}

/// The address directory, the mailboxes, the event queue and the bytes
/// bound for the master, of one compute unit.
pub struct Broker {
    address: u64,
    address_map: AddressDirectory,
    read_buffers: HashMap<i32, VecDeque<Message>>,
    pending_events: Vec<i32>,
    outbound: Vec<u8>,
    flagged: u64,
}

impl View for Broker {
    type V = State;

    closed spec fn view(&self) -> State {
        State {
            address: self.address,
            directory: self.address_map@,
            mailboxes: mailboxes_view(self.read_buffers@, self.address_map@.len()),
            pending: self.pending_events@,
            outbound: self.outbound@,
            flagged: self.flagged,
        }
    }
}

impl Broker {
    #[verifier::type_invariant]
    spec fn inv(self) -> bool {
        &&& self@.wf()
        &&& forall|d: i32| #[trigger]
            self.read_buffers@.contains_key(d) ==> 1 <= d <= self.address_map@.len()
    }

    /// A broker that holds nothing, to stand in while another is being
    /// rebuilt.
    fn vacant() -> (b: Broker)
        ensures
            b@ == State::vacant(),
    {
        let b = Broker {
            address: 0,
            address_map: AddressDirectory::new(),
            read_buffers: HashMap::new(),
            pending_events: Vec::new(),
            outbound: Vec::new(),
            flagged: 0,
        };
        assert(b@.mailboxes =~= Seq::<Seq<MessageView>>::empty());
        b
    }

    /// The broker of the unit at `address`, which knows the master's address
    /// under descriptor 1 and nothing else.
    pub fn new(address: u64, master: u64) -> (b: Broker)
        ensures
            b@ == State::initial(address, master),
            b@.wf(),
    {
        let mut address_map = AddressDirectory::new();
        let _ = address_map.add_address(master);
        let read_buffers: HashMap<i32, VecDeque<Message>> = HashMap::new();
        proof {
            assert(address_map@ =~= seq![master]);
            assert(mailboxes_view(read_buffers@, 1) =~= seq![Seq::<MessageView>::empty()]);
        }
        Broker {
            address,
            address_map,
            read_buffers,
            pending_events: Vec::new(),
            outbound: Vec::new(),
            flagged: 0,
        }
    }

    /// The broker's own address.
    pub fn address(&self) -> (a: u64)
        ensures
            a == self@.address,
            self@.wf(),
    {
        proof {
            use_type_invariant(self);
        }
        self.address
    }

    /// How many descriptors have been handed out; the last one is this
    /// number.
    pub fn address_count(&self) -> (n: i32)
        ensures
            n == self@.directory.len(),
            self@.wf(),
    {
        proof {
            use_type_invariant(self);
        }
        self.address_map.len() as i32
    }

    /// The directory of descriptors and addresses.
    pub fn address_map(&self) -> (dir: &AddressDirectory)
        ensures
            dir@ == self@.directory,
            self@.wf(),
    {
        proof {
            use_type_invariant(self);
        }
        &self.address_map
    }

    /// How many arrivals lacked a sender or a receiver.
    pub fn flagged(&self) -> (n: u64)
        ensures
            n == self@.flagged,
            self@.wf(),
    {
        proof {
            use_type_invariant(self);
        }
        self.flagged
    }

    /// Gives `address` a descriptor, with an empty mailbox, if it has none,
    /// and returns its descriptor. `None`, with nothing changed, exactly when
    /// the address is new and every descriptor is taken.
    pub fn add_address(&mut self, address: u64) -> (r: Option<i32>)
        ensures
            old(self)@.wf(),
            final(self)@.wf(),
            match r {
                Some(d) => {
                    &&& old(self)@.can_register(address)
                    &&& final(self)@ == old(self)@.register(address)
                    &&& d == old(self)@.descriptor_for(address)
                    &&& 1 <= d <= final(self)@.directory.len()
                },
                None => !old(self)@.can_register(address) && final(self)@ == old(self)@,
            },
    {
        proof {
            use_type_invariant(&*self);
            lemma_registered(self@.directory, address);
        }
        let mut taken = Broker::vacant();
        core::mem::swap(self, &mut taken);
        let Broker {
            address: own,
            mut address_map,
            read_buffers,
            pending_events,
            outbound,
            flagged,
        } = taken;
        let ghost known = address_map@.len();
        let r = address_map.add_address(address);
        proof {
            if r is Some {
                lemma_bijection(address_map@, address, r.unwrap() as int);
            }
            if address_map@.len() > known {
                let after = mailboxes_view(read_buffers@, address_map@.len());
                assert(after =~= old(self)@.mailboxes.push(Seq::empty()));
            }
            assert(well_formed(address_map@));
            assert(pending_events@ == old(self)@.pending);
            assert(known <= address_map@.len());
        }
        *self = Broker {
            address: own,
            address_map,
            read_buffers,
            pending_events,
            outbound,
            flagged,
        };
        r
    }

    /// Records the arrival of `msg`: gives its sender a descriptor if it has
    /// none, puts `msg` last in that descriptor's mailbox and the descriptor
    /// last in the event queue, and returns the descriptor. A message without
    /// sender or receiver is recorded like any other, and counted. It fails,
    /// with nothing changed, exactly when the sender is new and every
    /// descriptor is taken.
    pub fn save_msg(&mut self, msg: Message) -> (r: Result<i32, Error>)
        ensures
            old(self)@.wf(),
            final(self)@.wf(),
            match old(self)@.record_result(msg@) {
                Ok(state) => r == Ok::<i32, Error>(old(self)@.descriptor_for(msg.from) as i32)
                    && final(self)@ == state,
                Err(e) => r == Err::<i32, Error>(e) && final(self)@ == old(self)@,
            },
    {
        let d = match self.add_address(msg.from) {
            Some(d) => d,
            None => {
                return Err(Error::DirectoryFull);
            },
        };
        proof {
            use_type_invariant(&*self);
        }
        let ghost registered_state = self@;
        let mut taken = Broker::vacant();
        core::mem::swap(self, &mut taken);
        let Broker {
            address,
            address_map,
            mut read_buffers,
            mut pending_events,
            outbound,
            mut flagged,
        } = taken;
        if (msg.from == 0 || msg.to == 0) && flagged < u64::MAX {
            flagged = flagged + 1;
        }
        let ghost before = read_buffers@;
        let ghost arrived = msg@;
        let mut queue = match read_buffers.remove(&d) {
            Some(queue) => queue,
            None => VecDeque::new(),
        };
        let ghost waiting = queue@;
        queue.push_back(msg);
        read_buffers.insert(d, queue);
        pending_events.push(d);
        proof {
            let count = address_map@.len();
            assert(queue_view(waiting) =~= mailbox_view(before, d as int));
            assert(queue_view(read_buffers@[d]@) =~= queue_view(waiting).push(arrived));
            assert(mailboxes_view(read_buffers@, count) =~= registered_state.mailboxes.update(
                d - 1,
                registered_state.mailboxes[d - 1].push(arrived),
            )) by {
                assert forall|i: int| 0 <= i < count implies mailbox_view(read_buffers@, i + 1)
                    == #[trigger] registered_state.mailboxes.update(
                    d - 1,
                    registered_state.mailboxes[d - 1].push(arrived),
                )[i] by {
                    if i != d - 1 {
                        assert(((i + 1) as i32) != d);
                        assert(mailbox_view(read_buffers@, i + 1) == mailbox_view(before, i + 1));
                    }
                }
            }
        }
        proof {
            let target = old(self)@.record(arrived);
            lemma_record_wf(old(self)@, arrived);
            assert(mailboxes_view(read_buffers@, address_map@.len()) == target.mailboxes);
            assert(pending_events@ == target.pending);
            assert(address_map@ == target.directory);
        }
        *self = Broker { address, address_map, read_buffers, pending_events, outbound, flagged };
        Ok(d)
    }

    /// Takes in what a look at the channel found: a message is recorded as
    /// `save_msg` records it, and the result says that one was; nothing
    /// changes where there was none; a closed channel is
    /// `Err(Disconnected)`, with nothing changed.
    pub fn take_in(&mut self, found: Incoming) -> (r: Result<bool, Error>)
        ensures
            old(self)@.wf(),
            final(self)@.wf(),
            match found {
                Incoming::Message(msg) => match old(self)@.record_result(msg@) {
                    Ok(state) => r == Ok::<bool, Error>(true) && final(self)@ == state,
                    Err(e) => r == Err::<bool, Error>(e) && final(self)@ == old(self)@,
                },
                Incoming::Nothing => r == Ok::<bool, Error>(false) && final(self)@ == old(self)@,
                Incoming::Closed => r == Err::<bool, Error>(Error::Disconnected) && final(self)@
                    == old(self)@,
            },
    {
        proof {
            use_type_invariant(&*self);
        }
        match found {
            Incoming::Message(msg) => match self.save_msg(msg) {
                Ok(_) => Ok(true),
                Err(e) => Err(e),
            },
            Incoming::Nothing => Ok(false),
            Incoming::Closed => Err(Error::Disconnected),
        }
    }

    /// Takes at most `limit` events from the front of the event queue, in the
    /// order of their arrival; the others stay queued.
    pub fn events_limited(&mut self, limit: usize) -> (events: Vec<i32>)
        ensures
            old(self)@.wf(),
            final(self)@.wf(),
            events@ == old(self)@.events(limit as int),
            final(self)@ == old(self)@.after_events(limit as int),
    {
        proof {
            use_type_invariant(&*self);
        }
        let mut taken = Broker::vacant();
        core::mem::swap(self, &mut taken);
        let Broker {
            address,
            address_map,
            read_buffers,
            pending_events,
            outbound,
            flagged,
        } = taken;
        let mut events = pending_events;
        let n = if events.len() <= limit {
            events.len()
        } else {
            limit
        };
        let pending_events = events.split_off(n);
        proof {
            assert(events@ =~= old(self)@.events(limit as int));
            assert(pending_events@ =~= old(self)@.after_events(limit as int).pending);
            lemma_events_wf(old(self)@, limit as int);
        }
        *self = Broker { address, address_map, read_buffers, pending_events, outbound, flagged };
        events
    }

    /// Takes every event from the event queue, in the order of their
    /// arrival.
    pub fn events(&mut self) -> (events: Vec<i32>)
        ensures
            old(self)@.wf(),
            final(self)@.wf(),
            events@ == old(self)@.pending,
            final(self)@ == (State { pending: Seq::empty(), ..old(self)@ }),
    {
        proof {
            use_type_invariant(&*self);
        }
        let all = self.pending_events.len();
        let events = self.events_limited(all);
        proof {
            assert(events@ =~= old(self)@.pending);
            assert(final(self)@.pending =~= Seq::<i32>::empty());
        }
        events
    }

    /// Copies into `buf` as many bytes of the first message of the mailbox
    /// of `id` as fit, takes them from the message, and drops the message if
    /// no byte of it is left; returns how many bytes it copied. With the
    /// message goes the oldest event of `id`, where the event queue would
    /// else name `id` more often than its mailbox holds messages. An empty
    /// mailbox, or a descriptor that was never handed out, gives 0 and
    /// changes nothing. One call never reads from two messages.
    pub fn read(&mut self, id: i32, buf: &mut [u8]) -> (n: usize)
        ensures
            old(self)@.wf(),
            final(self)@.wf(),
            n == old(self)@.read_len(id as int, old(buf)@.len() as int),
            final(buf)@ == old(self)@.read_data(id as int, old(buf)@.len() as int) + old(buf)@.skip(
                n as int,
            ),
            final(self)@ == old(self)@.after_read(id as int, old(buf)@.len() as int),
    {
        proof {
            use_type_invariant(&*self);
        }
        let ghost cap = old(buf)@.len() as int;
        let ghost before = self@.queue(id as int);
        let mut taken = Broker::vacant();
        core::mem::swap(self, &mut taken);
        let Broker {
            address,
            address_map,
            mut read_buffers,
            mut pending_events,
            outbound,
            flagged,
        } = taken;
        let ghost count = address_map@.len();
        let ghost held = read_buffers@;
        let ghost mailboxes = mailboxes_view(held, count);
        let n = match read_buffers.remove(&id) {
            None => {
                proof {
                    assert(before.len() == 0);
                    assert(read_buffers@ =~= held);
                    assert(buf@ =~= Seq::<u8>::empty() + old(buf)@.skip(0));
                }
                0
            },
            Some(mut queue) => {
                assert(1 <= id <= count);
                assert(queue_view(queue@) == before);
                let n = match queue.pop_front() {
                    None => {
                        proof {
                            assert(buf@ =~= Seq::<u8>::empty() + old(buf)@.skip(0));
                        }
                        0
                    },
                    Some(mut msg) => {
                        let ghost head = msg@;
                        assert(head == before[0]);
                        let n = if buf.len() < msg.data.len() {
                            buf.len()
                        } else {
                            msg.data.len()
                        };
                        copy_prefix(buf, &msg.data, n);
                        proof {
                            assert(queue_view(queue@) =~= before.drop_first());
                        }
                        if n < msg.data.len() {
                            let rest = msg.data.split_off(n);
                            msg.data = rest;
                            proof {
                                assert(msg@.data =~= head.data.skip(n as int));
                            }
                            let ghost kept = msg@;
                            queue.push_front(msg);
                            proof {
                                assert(queue_view(queue@) =~= before.update(0, kept));
                            }
                        } else {
                            proof {
                                assert(head.data.skip(n as int).len() == 0);
                            }
                            if count_of(&pending_events, id) > queue.len() {
                                remove_first(&mut pending_events, id);
                            }
                        }
                        n
                    },
                };
                let ghost left = queue_view(queue@);
                read_buffers.insert(id, queue);
                proof {
                    assert(mailboxes_view(read_buffers@, count) =~= mailboxes.update(id - 1, left))
                        by {
                        assert forall|i: int| 0 <= i < count implies mailbox_view(
                            read_buffers@,
                            i + 1,
                        ) == #[trigger] mailboxes.update(id - 1, left)[i] by {
                            if i != id - 1 {
                                assert(((i + 1) as i32) != id);
                                assert(mailbox_view(read_buffers@, i + 1) == mailbox_view(
                                    held,
                                    i + 1,
                                ));
                            }
                        }
                    }
                    if before.len() == 0 {
                        assert(mailboxes.update(id - 1, left) =~= mailboxes);
                    }
                }
                n
            },
        };
        proof {
            assert(mailboxes_view(read_buffers@, count) == old(self)@.after_read(
                id as int,
                cap,
            ).mailboxes);
            assert(address_map@ == old(self)@.directory);
            assert(pending_events@ == old(self)@.after_read(id as int, cap).pending);
            lemma_read_wf(old(self)@, id as int, cap);
        }
        *self = Broker { address, address_map, read_buffers, pending_events, outbound, flagged };
        n
    }

    /// Frames for the master a message from this unit to the address that
    /// `id` stands for, with the bytes of `buf` as its data, and returns how
    /// many bytes it took: all of them. It fails, with nothing written, for a
    /// descriptor that was never handed out, and for data too long for a
    /// frame.
    pub fn write(&mut self, id: i32, buf: &[u8]) -> (r: Result<usize, Error>)
        ensures
            old(self)@.wf(),
            final(self)@.wf(),
            match old(self)@.write_result(id as int, buf@) {
                Ok(state) => r == Ok::<usize, Error>(buf@.len() as usize) && final(self)@ == state,
                Err(e) => r == Err::<usize, Error>(e) && final(self)@ == old(self)@,
            },
            address_of(old(self)@.directory, id as int) is Some && data_fits(buf@) ==> r is Ok,
    {
        proof {
            use_type_invariant(&*self);
        }
        let to = match self.address_map.get_value(id) {
            Some(to) => to,
            None => {
                return Err(Error::UnknownDescriptor);
            },
        };
        let mut msg = Message::new();
        msg.to = to;
        msg.from = self.address;
        msg.data = slice_to_vec(buf);
        assert(msg@ == MessageView::data_message(self@.address, to, buf@));
        match self.write_msg(&msg) {
            Ok(()) => Ok(buf.len()),
            Err(e) => Err(e),
        }
    }

    /// Gives `spawn_address` a descriptor and frames for the master the
    /// request to spawn `name` there; returns the descriptor. It fails, with
    /// nothing changed, when the address is new and every descriptor is
    /// taken, and when the name is too long for a frame.
    pub fn spawn_at(&mut self, name: &str, spawn_address: u64) -> (r: Result<i32, Error>)
        ensures
            old(self)@.wf(),
            final(self)@.wf(),
            match old(self)@.spawn_result(name@, spawn_address) {
                Ok(state) => r == Ok::<i32, Error>(
                    old(self)@.descriptor_for(spawn_address) as i32,
                ) && final(self)@ == state,
                Err(e) => r == Err::<i32, Error>(e) && final(self)@ == old(self)@,
            },
            old(self)@.can_register(spawn_address) && spawn_fits(name@) ==> r is Ok,
    {
        proof {
            use_type_invariant(&*self);
        }
        if self.address_map.get_key(spawn_address).is_none() && self.address_map.len()
            >= MAX_DESCRIPTORS {
            return Err(Error::DirectoryFull);
        }
        let mut msg = Message::new();
        msg.spawn = name.to_owned();
        msg.to = MASTER_ADDRESS;
        msg.from = self.address;
        msg.spawn_address = spawn_address;
        assert(msg@ == MessageView::spawn_request(self@.address, name@, spawn_address));
        match self.write_msg(&msg) {
            Ok(()) => {},
            Err(e) => {
                return Err(e);
            },
        }
        match self.add_address(spawn_address) {
            Some(d) => Ok(d),
            None => Err(Error::DirectoryFull),
        }
    }

    /// Frames for the master the notice that the unit has exited with
    /// `code`.
    pub fn exit(&mut self, code: i32) -> (r: Result<(), Error>)
        ensures
            old(self)@.wf(),
            final(self)@.wf(),
            r is Ok,
            final(self)@ == old(self)@.send(MessageView::exit_notice(code)),
    {
        let mut msg = Message::new();
        msg.to = MASTER_ADDRESS;
        msg.from = MASTER_ADDRESS;
        msg.exit = code;
        assert(msg@ == MessageView::exit_notice(code));
        self.write_msg(&msg)
    }

    /// Frames `msg` for the master. It fails, with nothing written, exactly
    /// when the payload is too long for a frame.
    pub fn write_msg(&mut self, msg: &Message) -> (r: Result<(), Error>)
        ensures
            old(self)@.wf(),
            final(self)@.wf(),
            match old(self)@.send_result(msg@) {
                Ok(state) => r is Ok && final(self)@ == state,
                Err(e) => r == Err::<(), Error>(e) && final(self)@ == old(self)@,
            },
            fits_frame(msg@) ==> r is Ok,
    {
        proof {
            use_type_invariant(&*self);
        }
        let mut taken = Broker::vacant();
        core::mem::swap(self, &mut taken);
        let Broker {
            address,
            address_map,
            read_buffers,
            pending_events,
            mut outbound,
            flagged,
        } = taken;
        let r = write_msg(&mut outbound, msg);
        *self = Broker { address, address_map, read_buffers, pending_events, outbound, flagged };
        r
    }

    /// Hands out the bytes framed for the master since the last call, for the
    /// connection to send.
    pub fn take_outbound(&mut self) -> (bytes: Vec<u8>)
        ensures
            old(self)@.wf(),
            final(self)@.wf(),
            bytes@ == old(self)@.outbound,
            final(self)@ == (State { outbound: Seq::empty(), ..old(self)@ }),
    {
        proof {
            use_type_invariant(&*self);
        }
        let mut taken = Broker::vacant();
        core::mem::swap(self, &mut taken);
        let Broker {
            address,
            address_map,
            read_buffers,
            pending_events,
            outbound,
            flagged,
        } = taken;
        *self = Broker {
            address,
            address_map,
            read_buffers,
            pending_events,
            outbound: Vec::new(),
            flagged,
        };
        outbound
    }
}

} // verus!
