//! The broker as a mathematical state, and what each operation makes of it.
//! The contracts of the broker are stated over these functions, and the laws
//! at the end of this file are proved of them.

use crate::directory::{address_of, descriptor_of, registered, well_formed, MAX_DESCRIPTORS};
use crate::directory::{lemma_bijection, lemma_registered};
use crate::error::Error;
use crate::events::{occurrences, without_first};
use crate::events::{lemma_occurrences_contains, lemma_occurrences_push};
use crate::events::{lemma_occurrences_split, lemma_without_first};
use crate::frame::frame_of;
use crate::message::MessageView;
use crate::wire::{fits_frame, payload};
use vstd::prelude::*;

verus! {

/// Everything a broker holds.
pub ghost struct State {
    /// The broker's own address.
    pub address: u64,
    /// The addresses in the order of their descriptors.
    pub directory: Seq<u64>,
    /// The mailbox of descriptor `d` at index `d - 1`: the messages that
    /// have not been read to their end, oldest first.
    pub mailboxes: Seq<Seq<MessageView>>,
    /// The event queue: the descriptor of each arrival that has neither been
    /// handed out nor read to its end, oldest first.
    pub pending: Seq<i32>,
    /// The bytes written for the master and not yet handed to the
    /// connection.
    pub outbound: Seq<u8>,
    /// How many arrivals lacked a sender or a receiver; it stops at
    /// `u64::MAX`.
    pub flagged: u64,
}

impl State {
    /// What holds of every broker: the directory is well formed, every
    /// descriptor has a mailbox and every mailbox a descriptor, the event
    /// queue names descriptors of the directory only, and it names none more
    /// often than the mailbox of that descriptor holds messages.
    pub open spec fn wf(self) -> bool {
        &&& well_formed(self.directory)
        &&& self.mailboxes.len() == self.directory.len()
        &&& forall|i: int|
            0 <= i < self.pending.len() ==> 1 <= #[trigger] self.pending[i] <= self.directory.len()
        &&& forall|d: i32| #[trigger] occurrences(self.pending, d) <= self.queue(d as int).len()
    }

    /// The directory has room for the senders of `arrivals`.
    pub open spec fn has_room_for(self, arrivals: Seq<MessageView>) -> bool {
        self.record_all(arrivals).directory.len() <= MAX_DESCRIPTORS
    }

    /// Every message in every mailbox has at least one byte of data left.
    pub open spec fn carries_data(self) -> bool {
        forall|d: int, j: int|
            0 <= j < self.queue(d).len() ==> (#[trigger] self.queue(d)[j]).data.len() > 0
    }

    /// The broker that holds nothing at all: no address of its own, no
    /// descriptor, no mailbox, no event and no byte for the master.
    pub open spec fn vacant() -> State {
        State {
            address: 0,
            directory: Seq::empty(),
            mailboxes: Seq::empty(),
            pending: Seq::empty(),
            outbound: Seq::empty(),
            flagged: 0,
        }
    }

    /// The broker at `address` that knows the master's address and nothing
    /// else.
    pub open spec fn initial(address: u64, master: u64) -> State {
        State {
            address,
            directory: seq![master],
            mailboxes: seq![Seq::<MessageView>::empty()],
            pending: Seq::empty(),
            outbound: Seq::empty(),
            flagged: 0,
        }
    }

    /// The mailbox of descriptor `d`; empty for a descriptor that was never
    /// handed out.
    pub open spec fn queue(self, d: int) -> Seq<MessageView> {
        if 1 <= d <= self.mailboxes.len() {
            self.mailboxes[d - 1]
        } else {
            Seq::empty()
        }
    }

    /// `address` has a descriptor or can be given one.
    pub open spec fn can_register(self, address: u64) -> bool {
        self.directory.contains(address) || self.directory.len() < MAX_DESCRIPTORS
    }

    /// The state once `address` has a descriptor; a new descriptor comes
    /// with an empty mailbox.
    pub open spec fn register(self, address: u64) -> State {
        State {
            directory: registered(self.directory, address),
            mailboxes: if self.directory.contains(address) {
                self.mailboxes
            } else {
                self.mailboxes.push(Seq::empty())
            },
            ..self
        }
    }

    /// The descriptor under which an arrival from `address` is recorded.
    pub open spec fn descriptor_for(self, address: u64) -> int {
        descriptor_of(registered(self.directory, address), address).unwrap()
    }

    /// The state once `m` has arrived: its sender has a descriptor, `m` is
    /// the last message of that descriptor's mailbox, and the descriptor is
    /// the last event. A message without sender or receiver is recorded like
    /// any other, and counted.
    pub open spec fn record(self, m: MessageView) -> State {
        let s = self.register(m.from);
        let d = self.descriptor_for(m.from);
        State {
            mailboxes: s.mailboxes.update(d - 1, s.mailboxes[d - 1].push(m)),
            pending: s.pending.push(d as i32),
            flagged: if !m.addressed() && s.flagged < u64::MAX {
                (s.flagged + 1) as u64
            } else {
                s.flagged
            },
            ..s
        }
    }

    /// The state once the messages of `arrivals` have arrived in that order.
    pub open spec fn record_all(self, arrivals: Seq<MessageView>) -> State
        decreases arrivals.len(),
    {
        if arrivals.len() == 0 {
            self
        } else {
            self.record_all(arrivals.drop_last()).record(arrivals.last())
        }
    }

    /// How many events a call that asks for at most `limit` takes.
    pub open spec fn events_len(self, limit: int) -> int {
        if self.pending.len() <= limit {
            self.pending.len() as int
        } else {
            limit
        }
    }

    /// The events that such a call returns: the oldest ones, in order.
    pub open spec fn events(self, limit: int) -> Seq<i32> {
        self.pending.take(self.events_len(limit))
    }

    /// The state after such a call: the returned events are gone, the others
    /// stay queued.
    pub open spec fn after_events(self, limit: int) -> State {
        State { pending: self.pending.skip(self.events_len(limit)), ..self }
    }

    /// How many bytes a read of descriptor `d` into a buffer of `cap` bytes
    /// copies: none from an empty mailbox, else as many of the first
    /// message's as fit.
    pub open spec fn read_len(self, d: int, cap: int) -> int {
        if self.queue(d).len() == 0 {
            0
        } else if self.queue(d)[0].data.len() <= cap {
            self.queue(d)[0].data.len() as int
        } else {
            cap
        }
    }

    /// The bytes that such a read copies.
    pub open spec fn read_data(self, d: int, cap: int) -> Seq<u8> {
        if self.queue(d).len() == 0 {
            Seq::empty()
        } else {
            self.queue(d)[0].data.take(self.read_len(d, cap))
        }
    }

    /// The state after such a read: the copied bytes are gone from the first
    /// message, and the message is gone if no byte of it is left. With the
    /// message goes the oldest event of the descriptor, where the event queue
    /// would else name the descriptor more often than its mailbox holds
    /// messages.
    pub open spec fn after_read(self, d: int, cap: int) -> State {
        if self.queue(d).len() == 0 {
            self
        } else {
            let head = self.queue(d)[0];
            let n = self.read_len(d, cap);
            let rest = MessageView { data: head.data.skip(n), ..head };
            if rest.data.len() == 0 {
                State {
                    mailboxes: self.mailboxes.update(d - 1, self.queue(d).drop_first()),
                    pending: if occurrences(self.pending, d as i32) >= self.queue(d).len() {
                        without_first(self.pending, d as i32)
                    } else {
                        self.pending
                    },
                    ..self
                }
            } else {
                State {
                    mailboxes: self.mailboxes.update(d - 1, self.queue(d).update(0, rest)),
                    ..self
                }
            }
        }
    }

    /// The state once `m` has been framed for the master.
    pub open spec fn send(self, m: MessageView) -> State {
        State { outbound: self.outbound + frame_of(payload(m)), ..self }
    }

    /// What sending `m` comes to: the frame joins the outbound bytes, unless
    /// the payload is longer than a length prefix can say.
    pub open spec fn send_result(self, m: MessageView) -> Result<State, Error> {
        if payload(m).len() <= u32::MAX {
            Ok(self.send(m))
        } else {
            Err(Error::FrameTooLarge)
        }
    }

    /// What writing `data` to descriptor `d` comes to: a message from this
    /// unit to the address that `d` stands for.
    pub open spec fn write_result(self, d: int, data: Seq<u8>) -> Result<State, Error> {
        match address_of(self.directory, d) {
            None => Err(Error::UnknownDescriptor),
            Some(to) => self.send_result(MessageView::data_message(self.address, to, data)),
        }
    }

    /// What spawning `name` at `spawn_address` comes to: the address gets a
    /// descriptor and the request goes to the master.
    pub open spec fn spawn_result(self, name: Seq<char>, spawn_address: u64) -> Result<
        State,
        Error,
    > {
        if !self.can_register(spawn_address) {
            Err(Error::DirectoryFull)
        } else {
            self.register(spawn_address).send_result(
                MessageView::spawn_request(self.address, name, spawn_address),
            )
        }
    }

    /// What recording the arrival of `m` comes to.
    pub open spec fn record_result(self, m: MessageView) -> Result<State, Error> {
        if self.can_register(m.from) {
            Ok(self.record(m))
        } else {
            Err(Error::DirectoryFull)
        }
    }
}

/// `post` is `pre` after some messages have arrived, in some order.
pub open spec fn received(pre: State, post: State) -> bool {
    exists|arrivals: Seq<MessageView>| #[trigger] pre.record_all(arrivals) == post
}

/// A message with `data` for its data is short enough for a frame, whoever
/// sends it to whom.
pub open spec fn data_fits(data: Seq<u8>) -> bool {
    fits_frame(MessageView::data_message(0, 0, data))
}

/// A request to spawn `name` is short enough for a frame, whoever asks and
/// whichever address is drawn.
pub open spec fn spawn_fits(name: Seq<char>) -> bool {
    fits_frame(MessageView::spawn_request(0, name, 0))
}

/// Why receiving, begun in state `pre`, stopped in state `post`: nothing
/// waited on the channel and the channel is closed, so that nothing has
/// changed; or a message came from a new address while every descriptor was
/// taken.
pub open spec fn failed_receiving(e: Error, pre: State, post: State) -> bool {
    ||| e == Error::Disconnected && post == pre
    ||| e == Error::DirectoryFull && post.directory.len() == MAX_DESCRIPTORS
}

/// The bytes that a mailbox still has to deliver: the data of its messages,
/// oldest first.
pub open spec fn stream_of(queue: Seq<MessageView>) -> Seq<u8>
    decreases queue.len(),
{
    if queue.len() == 0 {
        Seq::empty()
    } else {
        queue[0].data + stream_of(queue.drop_first())
    }
}

/// An arrival from a sender that has a descriptor, or can be given one,
/// keeps a state well formed.
pub proof fn lemma_record_wf(s: State, m: MessageView)
    requires
        s.wf(),
        s.can_register(m.from),
    ensures
        s.record(m).wf(),
        1 <= s.descriptor_for(m.from) <= s.record(m).directory.len(),
{
    lemma_registered(s.directory, m.from);
    let next = registered(s.directory, m.from);
    let d = s.descriptor_for(m.from);
    lemma_bijection(next, m.from, d);
    let after = s.record(m);
    assert forall|e: i32| #[trigger]
        occurrences(after.pending, e) <= after.queue(e as int).len() by {
        lemma_occurrences_push(s.pending, d as i32, e);
        lemma_record_queues(s, m, e as int);
        assert(occurrences(s.pending, e) <= s.queue(e as int).len());
    }
}

/// What an arrival does to the mailboxes: the message is last in the mailbox
/// of its sender's descriptor, and no other mailbox changes.
pub proof fn lemma_record_queues(s: State, m: MessageView, d: int)
    requires
        s.wf(),
    ensures
        d == s.descriptor_for(m.from) ==> s.record(m).queue(d) == s.queue(d).push(m),
        d != s.descriptor_for(m.from) ==> s.record(m).queue(d) == s.queue(d),
{
    lemma_registered(s.directory, m.from);
    let own = s.descriptor_for(m.from);
    let r = s.register(m.from);
    lemma_bijection(r.directory, m.from, own);
    if !s.directory.contains(m.from) {
        lemma_bijection(r.directory, m.from, s.directory.len() as int + 1);
        assert(r.directory[s.directory.len() as int] == m.from);
        assert(own == s.directory.len() + 1);
        assert(s.queue(own) =~= Seq::<MessageView>::empty());
        assert(r.mailboxes[own - 1] =~= Seq::<MessageView>::empty());
    }
    if d == own {
        assert(s.record(m).queue(d) =~= s.queue(d).push(m));
    } else {
        assert(s.record(m).queue(d) =~= s.queue(d));
    }
}

/// Asking twice for a descriptor of one address gives the same descriptor
/// both times, and the second time changes nothing.
pub proof fn lemma_register_twice(s: State, address: u64)
    requires
        s.wf(),
    ensures
        s.register(address).register(address) == s.register(address),
        s.register(address).descriptor_for(address) == s.descriptor_for(address),
        address_of(s.register(address).directory, s.descriptor_for(address)) == Some(address),
{
    lemma_registered(s.directory, address);
}

/// Arrivals leave alone what they do not concern: the unit's address, the
/// bytes bound for the master, the descriptors handed out so far and the
/// events queued so far.
pub proof fn lemma_arrivals_keep(s: State, arrivals: Seq<MessageView>)
    requires
        s.wf(),
        s.has_room_for(arrivals),
    ensures
        s.record_all(arrivals).wf(),
        s.record_all(arrivals).address == s.address,
        s.record_all(arrivals).outbound == s.outbound,
        s.record_all(arrivals).pending.len() == s.pending.len() + arrivals.len(),
        s.record_all(arrivals).pending.take(s.pending.len() as int) == s.pending,
        s.directory.len() <= s.record_all(arrivals).directory.len(),
        forall|d: int|
            1 <= d <= s.directory.len() ==> #[trigger] address_of(
                s.record_all(arrivals).directory,
                d,
            ) == address_of(s.directory, d),
        forall|a: u64| #[trigger]
            s.directory.contains(a) ==> descriptor_of(s.record_all(arrivals).directory, a)
                == descriptor_of(s.directory, a),
    decreases arrivals.len(),
{
    if arrivals.len() == 0 {
        assert(s.pending.take(s.pending.len() as int) =~= s.pending);
    } else {
        let before = s.record_all(arrivals.drop_last());
        let m = arrivals.last();
        assert(before.directory.len() <= before.record(m).directory.len());
        lemma_arrivals_keep(s, arrivals.drop_last());
        lemma_record_wf(before, m);
        lemma_registered(before.directory, m.from);
        let after = before.record(m);
        assert(after.pending.take(s.pending.len() as int) =~= before.pending.take(
            s.pending.len() as int,
        ));
        assert forall|d: int| 1 <= d <= s.directory.len() implies #[trigger] address_of(
            after.directory,
            d,
        ) == address_of(s.directory, d) by {
            assert(address_of(before.directory, d) == address_of(s.directory, d));
            assert(address_of(after.directory, d) == address_of(before.directory, d));
        }
        assert forall|a: u64| #[trigger] s.directory.contains(a) implies descriptor_of(
            after.directory,
            a,
        ) == descriptor_of(s.directory, a) by {
            assert(descriptor_of(before.directory, a) == descriptor_of(s.directory, a));
            assert(before.directory.contains(a));
        }
    }
}

/// Whatever arrived between two states of a broker, the later one has the
/// unit's address, the bytes bound for the master, the descriptors and the
/// queued events of the earlier one; new events come behind the old.
pub proof fn lemma_received_keeps(pre: State, post: State)
    requires
        pre.wf(),
        post.wf(),
        received(pre, post),
    ensures
        post.address == pre.address,
        post.outbound == pre.outbound,
        pre.pending.len() <= post.pending.len(),
        post.pending.take(pre.pending.len() as int) == pre.pending,
        forall|d: int|
            1 <= d <= pre.directory.len() ==> #[trigger] address_of(post.directory, d)
                == address_of(pre.directory, d),
        forall|a: u64| #[trigger]
            pre.directory.contains(a) ==> descriptor_of(post.directory, a) == descriptor_of(
                pre.directory,
                a,
            ),
{
    let arrivals = choose|arrivals: Seq<MessageView>| #[trigger]
        pre.record_all(arrivals) == post;
    lemma_arrivals_keep(pre, arrivals);
}

/// The data of one more message comes last in what a mailbox has to deliver.
pub proof fn lemma_stream_push(queue: Seq<MessageView>, m: MessageView)
    ensures
        stream_of(queue.push(m)) == stream_of(queue) + m.data,
    decreases queue.len(),
{
    if queue.len() == 0 {
        assert(queue.push(m).drop_first() =~= Seq::<MessageView>::empty());
        assert(stream_of(queue.push(m)) =~= m.data + stream_of(Seq::<MessageView>::empty()));
        assert(stream_of(queue.push(m)) =~= stream_of(queue) + m.data);
    } else {
        lemma_stream_push(queue.drop_first(), m);
        assert(queue.push(m).drop_first() =~= queue.drop_first().push(m));
        assert(stream_of(queue.push(m)) =~= stream_of(queue) + m.data);
    }
}

/// Order is kept, arrival: the data of a message that arrives comes after
/// everything that its sender's mailbox still has to deliver, and no other
/// mailbox changes.
pub proof fn lemma_arrival_joins_stream(s: State, m: MessageView)
    requires
        s.wf(),
    ensures
        stream_of(s.record(m).queue(s.descriptor_for(m.from))) == stream_of(
            s.queue(s.descriptor_for(m.from)),
        ) + m.data,
        forall|d: int|
            d != s.descriptor_for(m.from) ==> #[trigger] s.record(m).queue(d) == s.queue(d),
{
    let own = s.descriptor_for(m.from);
    lemma_record_queues(s, m, own);
    lemma_stream_push(s.queue(own), m);
    assert forall|d: int| d != own implies #[trigger] s.record(m).queue(d) == s.queue(d) by {
        lemma_record_queues(s, m, d);
    }
}

/// A read keeps a state well formed: the event queue names no descriptor
/// more often than its mailbox holds messages, also after a message has been
/// read to its end.
pub proof fn lemma_read_wf(s: State, d: int, cap: int)
    requires
        s.wf(),
    ensures
        s.after_read(d, cap).wf(),
        forall|other: int|
            other != d ==> #[trigger] s.after_read(d, cap).queue(other) == s.queue(other),
        s.queue(d).len() > 0 ==> s.after_read(d, cap).queue(d).len() >= s.queue(d).len() - 1,
{
    let after = s.after_read(d, cap);
    if s.queue(d).len() > 0 {
        let own = d as i32;
        lemma_without_first(s.pending, own);
        assert(occurrences(s.pending, own) <= s.queue(own as int).len());
        assert forall|i: int| 0 <= i < after.pending.len() implies 1 <= #[trigger] after.pending[i]
            <= after.directory.len() by {
            let x = after.pending[i];
            assert(after.pending.contains(x));
            assert(s.pending.contains(x));
            let j = choose|j: int| 0 <= j < s.pending.len() && s.pending[j] == x;
            assert(1 <= s.pending[j] <= s.directory.len());
        }
        assert forall|e: i32| #[trigger] occurrences(after.pending, e) <= after.queue(
            e as int,
        ).len() by {
            assert(occurrences(s.pending, e) <= s.queue(e as int).len());
            if e != own {
                assert(after.queue(e as int) == s.queue(e as int));
            }
        }
    }
}

/// Order is kept, read: a read copies the first bytes of what the mailbox
/// has to deliver, and leaves the bytes after them to be delivered, in the
/// same order. So no byte of a message is read before every byte of the
/// messages that arrived before it.
pub proof fn lemma_read_takes_from_stream(s: State, d: int, cap: int)
    requires
        s.wf(),
        cap >= 0,
    ensures
        s.read_data(d, cap) == stream_of(s.queue(d)).take(s.read_len(d, cap)),
        stream_of(s.after_read(d, cap).queue(d)) == stream_of(s.queue(d)).skip(s.read_len(d, cap)),
        s.after_read(d, cap).wf(),
        forall|other: int|
            other != d ==> #[trigger] s.after_read(d, cap).queue(other) == s.queue(other),
{
    let queue = s.queue(d);
    let n = s.read_len(d, cap);
    lemma_read_wf(s, d, cap);
    if queue.len() == 0 {
        assert(stream_of(queue) =~= Seq::<u8>::empty());
        assert(s.read_data(d, cap) =~= stream_of(queue).take(n));
        assert(stream_of(queue).skip(n) =~= stream_of(queue));
    } else {
        let head = queue[0];
        let tail = stream_of(queue.drop_first());
        assert(stream_of(queue) == head.data + tail);
        assert(s.read_data(d, cap) =~= stream_of(queue).take(n));
        let after = s.after_read(d, cap).queue(d);
        if head.data.skip(n).len() == 0 {
            assert(after == queue.drop_first());
            assert(stream_of(after) =~= stream_of(queue).skip(n));
        } else {
            let rest = MessageView { data: head.data.skip(n), ..head };
            assert(after == queue.update(0, rest));
            assert(after.drop_first() =~= queue.drop_first());
            assert(stream_of(after) == rest.data + tail);
            assert(stream_of(after) =~= stream_of(queue).skip(n));
        }
    }
}

/// A read into a buffer that is shorter than the first message's data fills
/// the buffer and leaves the message first in its mailbox, with the bytes
/// that were not read.
pub proof fn lemma_partial_read_keeps_rest(s: State, d: int, cap: int)
    requires
        s.queue(d).len() > 0,
        0 <= cap < s.queue(d)[0].data.len(),
    ensures
        s.read_len(d, cap) == cap,
        s.read_data(d, cap) == s.queue(d)[0].data.take(cap),
        s.after_read(d, cap).queue(d) == s.queue(d).update(
            0,
            (MessageView { data: s.queue(d)[0].data.skip(cap), ..s.queue(d)[0] }),
        ),
{
}

/// A read of a descriptor with nothing to read copies nothing and changes
/// nothing.
pub proof fn lemma_empty_read(s: State, d: int, cap: int)
    requires
        s.queue(d).len() == 0,
    ensures
        s.read_len(d, cap) == 0,
        s.read_data(d, cap) == Seq::<u8>::empty(),
        s.after_read(d, cap) == s,
{
}

/// Handing out events keeps a state well formed: the events that stay
/// queued name no descriptor more often than before.
pub proof fn lemma_events_wf(s: State, limit: int)
    requires
        s.wf(),
        limit >= 0,
    ensures
        s.after_events(limit).wf(),
{
    let n = s.events_len(limit);
    let after = s.after_events(limit);
    assert forall|i: int| 0 <= i < after.pending.len() implies 1 <= #[trigger] after.pending[i]
        <= after.directory.len() by {
        assert(after.pending[i] == s.pending[i + n]);
    }
    assert forall|d: i32| #[trigger]
        occurrences(after.pending, d) <= after.queue(d as int).len() by {
        lemma_occurrences_split(s.pending, n, d);
        assert(occurrences(s.pending, d) <= s.queue(d as int).len());
    }
}

/// Two calls for events, one after the other, return together what one call
/// with the sum of their limits returns, in the same order, and leave the
/// same events queued.
pub proof fn lemma_events_paginate(s: State, first: int, second: int)
    requires
        first >= 0,
        second >= 0,
    ensures
        s.events(first) + s.after_events(first).events(second) == s.events(first + second),
        s.after_events(first).after_events(second) == s.after_events(first + second),
        s.events(first) + s.after_events(first).pending == s.pending,
{
    let a = s.events_len(first);
    let rest = s.after_events(first);
    let b = rest.events_len(second);
    assert(s.events(first) + rest.events(second) =~= s.events(first + second));
    assert(rest.after_events(second).pending =~= s.after_events(first + second).pending);
    assert(s.events(first) + rest.pending =~= s.pending);
}

/// Arrivals that carry data keep every queued message with data.
pub proof fn lemma_arrivals_keep_data(s: State, arrivals: Seq<MessageView>)
    requires
        s.wf(),
        s.has_room_for(arrivals),
        s.carries_data(),
        forall|k: int| 0 <= k < arrivals.len() ==> (#[trigger] arrivals[k]).data.len() > 0,
    ensures
        s.record_all(arrivals).wf(),
        s.record_all(arrivals).carries_data(),
    decreases arrivals.len(),
{
    if arrivals.len() > 0 {
        let before = s.record_all(arrivals.drop_last());
        let m = arrivals.last();
        assert forall|k: int| 0 <= k < arrivals.drop_last().len() implies (
        #[trigger] arrivals.drop_last()[k]).data.len() > 0 by {
            assert(arrivals.drop_last()[k] == arrivals[k]);
        }
        assert(before.directory.len() <= before.record(m).directory.len());
        lemma_arrivals_keep_data(s, arrivals.drop_last());
        lemma_record_wf(before, m);
        let after = before.record(m);
        let own = before.descriptor_for(m.from);
        assert forall|d: int, j: int| 0 <= j < after.queue(d).len() implies (#[trigger] after.queue(
            d,
        )[j]).data.len() > 0 by {
            lemma_record_queues(before, m, d);
            if d == own && j == before.queue(d).len() {
            } else {
                assert(after.queue(d)[j] == before.queue(d)[j]);
            }
        }
    }
}

/// A descriptor that the event queue names has a message in its mailbox.
pub proof fn lemma_queued_event_is_backed(s: State, i: int)
    requires
        s.wf(),
        0 <= i < s.pending.len(),
    ensures
        s.queue(s.pending[i] as int).len() > 0,
{
    let d = s.pending[i];
    assert(s.pending.contains(d));
    lemma_occurrences_contains(s.pending, d);
    assert(occurrences(s.pending, d) <= s.queue(d as int).len());
}

/// Arrivals do not change which message is first in a mailbox that holds
/// one.
pub proof fn lemma_arrivals_keep_first(s: State, arrivals: Seq<MessageView>, d: int)
    requires
        s.wf(),
        s.has_room_for(arrivals),
        s.queue(d).len() > 0,
    ensures
        s.record_all(arrivals).queue(d).len() > 0,
        s.record_all(arrivals).queue(d)[0] == s.queue(d)[0],
    decreases arrivals.len(),
{
    if arrivals.len() > 0 {
        let before = s.record_all(arrivals.drop_last());
        assert(before.directory.len() <= before.record(arrivals.last()).directory.len());
        lemma_arrivals_keep_first(s, arrivals.drop_last(), d);
        lemma_arrivals_keep(s, arrivals.drop_last());
        lemma_record_queues(s.record_all(arrivals.drop_last()), arrivals.last(), d);
    }
}

/// An event that was handed out can be read. Take a state in which every
/// message carries data; let messages that carry data arrive, and let every
/// event be handed out. Then, whatever arrives later, a read of a descriptor
/// that was handed out, into a buffer that holds at least one byte, copies at
/// least one byte.
pub proof fn lemma_event_then_read(
    s: State,
    arrivals: Seq<MessageView>,
    later: Seq<MessageView>,
    i: int,
    cap: int,
)
    requires
        s.wf(),
        s.has_room_for(arrivals),
        (State { pending: Seq::empty(), ..s.record_all(arrivals) }).has_room_for(later),
        s.carries_data(),
        forall|k: int| 0 <= k < arrivals.len() ==> (#[trigger] arrivals[k]).data.len() > 0,
        0 <= i < s.record_all(arrivals).pending.len(),
        cap > 0,
    ensures
        (State { pending: Seq::empty(), ..s.record_all(arrivals) }).record_all(later).read_len(
            s.record_all(arrivals).pending[i] as int,
            cap,
        ) > 0,
{
    let mid = s.record_all(arrivals);
    lemma_arrivals_keep_data(s, arrivals);
    lemma_queued_event_is_backed(mid, i);
    let d = mid.pending[i] as int;
    assert(mid.queue(d)[0].data.len() > 0);
    let handed = State { pending: Seq::empty(), ..mid };
    assert(handed.queue(d) == mid.queue(d));
    assert(handed.wf()) by {
        assert forall|e: i32| #[trigger] occurrences(handed.pending, e) <= handed.queue(
            e as int,
        ).len() by {
        }
    }
    lemma_arrivals_keep_first(handed, later, d);
}

} // verus!
