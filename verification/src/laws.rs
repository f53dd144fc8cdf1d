//! Laws of runs of calls: what any number of arrivals, and any number of
//! reads one after the other, make of a broker.

use crate::directory::{address_of, descriptor_of, lemma_bijection};
use crate::message::MessageView;
use crate::model::{lemma_arrivals_keep, lemma_read_takes_from_stream, stream_of, State};
use vstd::prelude::*;

verus! {

/// The state after `times` reads of descriptor `d`, one after the other,
/// each into a buffer of `cap` bytes.
pub open spec fn after_reads(s: State, d: int, cap: int, times: nat) -> State
    decreases times,
{
    if times == 0 {
        s
    } else {
        after_reads(s, d, cap, (times - 1) as nat).after_read(d, cap)
    }
}

/// The bytes that those reads copy, in the order of the calls.
pub open spec fn reads_data(s: State, d: int, cap: int, times: nat) -> Seq<u8>
    decreases times,
{
    if times == 0 {
        Seq::empty()
    } else {
        reads_data(s, d, cap, (times - 1) as nat) + after_reads(
            s,
            d,
            cap,
            (times - 1) as nat,
        ).read_data(d, cap)
    }
}

/// How many reads into a buffer of `cap` bytes it takes to read `len` bytes
/// of one message to their end: `len` over `cap`, rounded up, and one read
/// for a message without data.
pub open spec fn reads_needed(len: nat, cap: int) -> nat
    decreases len,
{
    if cap <= 0 || len <= cap {
        1
    } else {
        1 + reads_needed((len - cap) as nat, cap)
    }
}

/// The addresses from which `arrivals` come, in the order of arrival.
pub open spec fn senders(arrivals: Seq<MessageView>) -> Seq<u64> {
    arrivals.map_values(|m: MessageView| m.from)
}

/// One read and then `times` more are `times + 1` reads.
pub proof fn lemma_reads_compose(s: State, d: int, cap: int, times: nat)
    ensures
        after_reads(s, d, cap, times + 1) == after_reads(s.after_read(d, cap), d, cap, times),
        reads_data(s, d, cap, times + 1) == s.read_data(d, cap) + reads_data(
            s.after_read(d, cap),
            d,
            cap,
            times,
        ),
    decreases times,
{
    let first = s.after_read(d, cap);
    if times == 0 {
        assert(after_reads(s, d, cap, 0) == s);
        assert(reads_data(s, d, cap, 0) =~= Seq::<u8>::empty());
        assert(reads_data(first, d, cap, 0) =~= Seq::<u8>::empty());
        assert(after_reads(s, d, cap, 1) == after_reads(s, d, cap, 0).after_read(d, cap));
        assert(reads_data(s, d, cap, 1) =~= s.read_data(d, cap) + reads_data(first, d, cap, 0));
    } else {
        lemma_reads_compose(s, d, cap, (times - 1) as nat);
        assert(reads_data(s, d, cap, times + 1) =~= s.read_data(d, cap) + reads_data(
            first,
            d,
            cap,
            times,
        ));
    }
}

/// Order is kept over any number of reads: together they copy the first
/// bytes of what the mailbox had to deliver, in order, none lost and none
/// twice, and leave the bytes after them to be delivered.
pub proof fn lemma_reads_deliver_stream(s: State, d: int, cap: int, times: nat)
    requires
        s.wf(),
        cap >= 0,
    ensures
        after_reads(s, d, cap, times).wf(),
        reads_data(s, d, cap, times).len() <= stream_of(s.queue(d)).len(),
        reads_data(s, d, cap, times) == stream_of(s.queue(d)).take(
            reads_data(s, d, cap, times).len() as int,
        ),
        stream_of(after_reads(s, d, cap, times).queue(d)) == stream_of(s.queue(d)).skip(
            reads_data(s, d, cap, times).len() as int,
        ),
    decreases times,
{
    let stream = stream_of(s.queue(d));
    if times == 0 {
        assert(reads_data(s, d, cap, 0) =~= stream.take(0));
        assert(stream.skip(0) =~= stream);
    } else {
        let before = after_reads(s, d, cap, (times - 1) as nat);
        let so_far = reads_data(s, d, cap, (times - 1) as nat);
        lemma_reads_deliver_stream(s, d, cap, (times - 1) as nat);
        lemma_read_takes_from_stream(before, d, cap);
        let n = before.read_len(d, cap);
        let left = stream_of(before.queue(d));
        assert(left == stream.skip(so_far.len() as int));
        assert(before.read_data(d, cap) == left.take(n));
        assert(before.read_data(d, cap).len() == n) by {
            assert(0 <= n <= left.len()) by {
                if before.queue(d).len() > 0 {
                    assert(left == before.queue(d)[0].data + stream_of(
                        before.queue(d).drop_first(),
                    ));
                }
            }
        }
        assert(so_far + left.take(n) =~= stream.take(so_far.len() + n));
        assert(left.skip(n) =~= stream.skip(so_far.len() + n));
    }
}

/// Every message of `queue` has at least one byte of data left.
pub open spec fn all_carry_data(queue: Seq<MessageView>) -> bool {
    forall|j: int| 0 <= j < queue.len() ==> (#[trigger] queue[j]).data.len() > 0
}

/// Read byte by byte, a mailbox whose messages all carry data delivers one
/// byte with every read, in the order of arrival and of the bytes in each
/// message, until as many reads as it had bytes have emptied it.
pub proof fn lemma_byte_reads_deliver_all(s: State, d: int, times: nat)
    requires
        s.wf(),
        all_carry_data(s.queue(d)),
        times <= stream_of(s.queue(d)).len(),
    ensures
        reads_data(s, d, 1, times) == stream_of(s.queue(d)).take(times as int),
        all_carry_data(after_reads(s, d, 1, times).queue(d)),
        times < stream_of(s.queue(d)).len() ==> after_reads(s, d, 1, times).read_len(d, 1) == 1,
        times == stream_of(s.queue(d)).len() ==> after_reads(s, d, 1, times).queue(d).len() == 0,
    decreases times,
{
    let stream = stream_of(s.queue(d));
    lemma_reads_deliver_stream(s, d, 1, times);
    let now = after_reads(s, d, 1, times);
    if times == 0 {
        assert(reads_data(s, d, 1, 0) =~= stream.take(0));
    } else {
        let before = after_reads(s, d, 1, (times - 1) as nat);
        lemma_byte_reads_deliver_all(s, d, (times - 1) as nat);
        lemma_reads_deliver_stream(s, d, 1, (times - 1) as nat);
        assert(before.read_len(d, 1) == 1);
        let head = before.queue(d)[0];
        assert(before.read_data(d, 1).len() == 1);
        assert(reads_data(s, d, 1, times).len() == times);
        assert forall|j: int| 0 <= j < now.queue(d).len() implies (#[trigger] now.queue(
            d,
        )[j]).data.len() > 0 by {
            if head.data.skip(1).len() == 0 {
                assert(now.queue(d)[j] == before.queue(d)[j + 1]);
            } else if j > 0 {
                assert(now.queue(d)[j] == before.queue(d)[j]);
            }
        }
    }
    assert(reads_data(s, d, 1, times).len() == times);
    assert(stream_of(now.queue(d)).len() == stream.len() - times);
    if now.queue(d).len() > 0 {
        assert(stream_of(now.queue(d)) == now.queue(d)[0].data + stream_of(
            now.queue(d).drop_first(),
        ));
        assert(now.queue(d)[0].data.len() > 0);
    }
}

/// Reads into a buffer of at least one byte, repeated as often as
/// `reads_needed` says, read the first message of a mailbox to its end: each
/// read copies as many of the bytes still unread as fit, the reads together
/// copy the data of the message, byte for byte, and the message is then gone
/// from the mailbox, with the messages behind it as they were.
pub proof fn lemma_reads_drain_message(s: State, d: int, cap: int)
    requires
        s.queue(d).len() > 0,
        cap >= 1,
    ensures
        reads_data(s, d, cap, reads_needed(s.queue(d)[0].data.len(), cap)) == s.queue(d)[0].data,
        after_reads(s, d, cap, reads_needed(s.queue(d)[0].data.len(), cap)).queue(d) == s.queue(
            d,
        ).drop_first(),
        forall|k: nat|
            k < reads_needed(s.queue(d)[0].data.len(), cap) ==> {
                let unread = s.queue(d)[0].data.len() - reads_data(s, d, cap, k).len();
                &&& #[trigger] after_reads(s, d, cap, k).read_len(d, cap) == if unread <= cap {
                    unread
                } else {
                    cap
                }
                &&& s.queue(d)[0].data.len() > 0 ==> after_reads(s, d, cap, k).read_len(d, cap) > 0
            },
    decreases s.queue(d)[0].data.len(),
{
    let head = s.queue(d)[0];
    let len = head.data.len();
    let times = reads_needed(len, cap);
    let first = s.after_read(d, cap);
    assert(after_reads(s, d, cap, 0) == s);
    assert(reads_data(s, d, cap, 0) =~= Seq::<u8>::empty());
    lemma_reads_compose(s, d, cap, 0);
    assert(reads_data(first, d, cap, 0) =~= Seq::<u8>::empty());
    assert(after_reads(first, d, cap, 0) == first);
    if len <= cap {
        assert(head.data.skip(len as int).len() == 0);
        assert(reads_data(s, d, cap, 1) =~= head.data);
        assert(first.queue(d) =~= s.queue(d).drop_first());
    } else {
        let rest = MessageView { data: head.data.skip(cap), ..head };
        assert(first.queue(d) == s.queue(d).update(0, rest));
        assert(first.queue(d)[0].data.len() == len - cap);
        let more = reads_needed((len - cap) as nat, cap);
        lemma_reads_drain_message(first, d, cap);
        lemma_reads_compose(s, d, cap, more);
        assert(reads_data(s, d, cap, times) =~= head.data);
        assert(first.queue(d).drop_first() =~= s.queue(d).drop_first());
        assert forall|k: nat| k < times implies {
            let unread = len - reads_data(s, d, cap, k).len();
            &&& #[trigger] after_reads(s, d, cap, k).read_len(d, cap) == if unread <= cap {
                unread
            } else {
                cap
            }
            &&& after_reads(s, d, cap, k).read_len(d, cap) > 0
        } by {
            if k > 0 {
                lemma_reads_compose(s, d, cap, (k - 1) as nat);
                let j = (k - 1) as nat;
                assert(after_reads(first, d, cap, j).read_len(d, cap) == {
                    let unread = (len - cap) - reads_data(first, d, cap, j).len();
                    if unread <= cap {
                        unread
                    } else {
                        cap
                    }
                });
                assert(s.read_data(d, cap).len() == cap);
            }
        }
    }
}

/// Senders that are new, and differ from one another, get the next
/// descriptors in the order in which their messages arrive, and no earlier
/// descriptor changes.
pub proof fn lemma_new_senders_in_order(s: State, arrivals: Seq<MessageView>)
    requires
        s.wf(),
        s.has_room_for(arrivals),
        forall|i: int|
            0 <= i < arrivals.len() ==> !s.directory.contains((#[trigger] arrivals[i]).from),
        forall|i: int, j: int|
            0 <= i < j < arrivals.len() ==> (#[trigger] arrivals[i]).from != (
            #[trigger] arrivals[j]).from,
    ensures
        s.record_all(arrivals).wf(),
        s.record_all(arrivals).directory == s.directory + senders(arrivals),
        forall|i: int|
            0 <= i < arrivals.len() ==> descriptor_of(
                s.record_all(arrivals).directory,
                (#[trigger] arrivals[i]).from,
            ) == Some(s.directory.len() + i + 1),
        forall|d: int|
            1 <= d <= s.directory.len() ==> #[trigger] address_of(
                s.record_all(arrivals).directory,
                d,
            ) == address_of(s.directory, d),
    decreases arrivals.len(),
{
    lemma_arrivals_keep(s, arrivals);
    let after = s.record_all(arrivals);
    if arrivals.len() == 0 {
        assert(after.directory =~= s.directory + senders(arrivals));
    } else {
        let earlier = arrivals.drop_last();
        let last = arrivals.last();
        let before = s.record_all(earlier);
        assert(before.directory.len() <= before.record(last).directory.len());
        assert forall|i: int| 0 <= i < earlier.len() implies !s.directory.contains(
            (#[trigger] earlier[i]).from,
        ) by {
            assert(earlier[i] == arrivals[i]);
        }
        assert forall|i: int, j: int| 0 <= i < j < earlier.len() implies (
        #[trigger] earlier[i]).from != (#[trigger] earlier[j]).from by {
            assert(earlier[i] == arrivals[i]);
            assert(earlier[j] == arrivals[j]);
        }
        lemma_new_senders_in_order(s, earlier);
        assert(!before.directory.contains(last.from)) by {
            if before.directory.contains(last.from) {
                let k = choose|k: int|
                    0 <= k < before.directory.len() && before.directory[k] == last.from;
                if k < s.directory.len() {
                    assert(s.directory[k] == last.from);
                    assert(s.directory.contains(arrivals[arrivals.len() - 1].from));
                } else {
                    let i = k - s.directory.len();
                    assert(senders(earlier)[i] == earlier[i].from);
                    assert(earlier[i] == arrivals[i]);
                    assert(arrivals[i].from != arrivals[arrivals.len() - 1].from);
                }
            }
        }
        assert(after.directory =~= s.directory + senders(arrivals)) by {
            assert(after.directory == before.directory.push(last.from));
            assert(senders(arrivals) =~= senders(earlier).push(last.from));
        }
    }
    assert forall|i: int| 0 <= i < arrivals.len() implies descriptor_of(
        after.directory,
        (#[trigger] arrivals[i]).from,
    ) == Some(s.directory.len() + i + 1) by {
        assert(after.directory[s.directory.len() + i] == senders(arrivals)[i]);
        lemma_bijection(after.directory, arrivals[i].from, s.directory.len() + i + 1);
    }
}

} // verus!
