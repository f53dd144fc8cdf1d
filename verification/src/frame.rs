//! Frames: a length of four little-endian bytes, then that many bytes of
//! payload.

use crate::error::Error;
use crate::le::{as_u32_le, le_bytes, le_u32, lemma_u32_le_round_trip, u32_as_u8_le};
use crate::message::{Message, MessageView};
use crate::wire::{fits_frame, parse_from_bytes, parsed, payload, write_to_bytes};
use vstd::prelude::*;
use vstd::slice::{slice_subrange, slice_to_vec};

verus! {

/// The bytes of the length prefix.
pub const HEADER_LEN: usize = 4;

/// The frame that carries `payload`.
pub open spec fn frame_of(payload: Seq<u8>) -> Seq<u8> {
    le_bytes(payload.len() as int, 4) + payload
}

/// Where the first frame of `stream` ends, if `stream` holds all of it.
pub open spec fn frame_end(stream: Seq<u8>) -> Option<int> {
    if stream.len() >= 4 && stream.len() >= 4 + le_u32(stream) {
        Some(4 + le_u32(stream))
    } else {
        None
    }
}

/// The payload of the first frame of `stream`, which ends at `end`.
pub open spec fn frame_payload(stream: Seq<u8>, end: int) -> Seq<u8> {
    stream.subrange(4, end)
}

/// A stream that starts with the frame of a payload holds that frame whole,
/// and its payload is the one that was framed.
pub proof fn lemma_frame_round_trip(payload: Seq<u8>, rest: Seq<u8>)
    requires
        payload.len() <= u32::MAX,
    ensures
        frame_end(frame_of(payload) + rest) == Some(4 + payload.len() as int),
        frame_payload(frame_of(payload) + rest, 4 + payload.len() as int) == payload,
{
    let stream = frame_of(payload) + rest;
    let prefix = le_bytes(payload.len() as int, 4);
    lemma_u32_le_round_trip(payload.len() as u32);
    assert(stream[0] == prefix[0] && stream[1] == prefix[1] && stream[2] == prefix[2] && stream[3]
        == prefix[3]);
    assert(le_u32(stream) == le_u32(prefix));
    assert(frame_payload(stream, 4 + payload.len() as int) =~= payload);
}

/// Appends the frame that carries `body` to `stream`. It fails, and leaves
/// `stream` as it was, exactly when `body` is longer than a length prefix
/// can say.
pub fn write_frame(stream: &mut Vec<u8>, body: &[u8]) -> (r: Result<(), Error>)
    ensures
        match r {
            Ok(()) => body@.len() <= u32::MAX && final(stream)@ == old(stream)@ + frame_of(body@),
            Err(e) => e == Error::FrameTooLarge && body@.len() > u32::MAX && final(stream)@
                == old(stream)@,
        },
{
    if body.len() > u32::MAX as usize {
        return Err(Error::FrameTooLarge);
    }
    let header = u32_as_u8_le(body.len() as u32);
    stream.extend_from_slice(header.as_slice());
    stream.extend_from_slice(body);
    assert(final(stream)@ =~= old(stream)@ + frame_of(body@));
    Ok(())
}

/// Appends the frame of `msg` to `stream`. It fails, and leaves `stream` as
/// it was, exactly when the payload of `msg` is longer than a length prefix
/// can say, which is not so of a message that `fits_frame`.
pub fn write_msg(stream: &mut Vec<u8>, msg: &Message) -> (r: Result<(), Error>)
    ensures
        match r {
            Ok(()) => payload(msg@).len() <= u32::MAX && final(stream)@ == old(stream)@
                + frame_of(payload(msg@)),
            Err(e) => e == Error::FrameTooLarge && payload(msg@).len() > u32::MAX && final(stream)@
                == old(stream)@,
        },
        fits_frame(msg@) ==> r is Ok,
{
    let body = write_to_bytes(msg);
    write_frame(stream, body.as_slice())
}

/// What a reader made of one chunk of the stream.
pub struct Accepted {
    /// The bytes of the chunk that were taken; the rest belongs to the next
    /// frame.
    pub used: usize,
    /// The payload of the frame that the chunk completed, if it completed one.
    pub payload: Option<Vec<u8>>,
}

/// Puts a frame together from the chunks in which the stream delivers it.
pub struct FrameReader {
    buf: Vec<u8>,
}

impl FrameReader {
    /// The bytes of the frame in progress that have arrived.
    pub closed spec fn view(&self) -> Seq<u8> {
        self.buf@
    }

    #[verifier::type_invariant]
    spec fn incomplete(self) -> bool {
        frame_end(self.buf@) is None
    }

    /// A reader at the start of a frame.
    pub fn new() -> (reader: FrameReader)
        ensures
            reader@ == Seq::<u8>::empty(),
    {
        FrameReader { buf: Vec::new() }
    }

    /// Takes the next chunk that the stream delivered; an empty chunk says
    /// that the stream has closed, which is `Err(Truncated)`. Where the bytes
    /// so far and the chunk hold a whole frame, the reader takes the chunk up
    /// to the frame's end, hands out the payload and starts afresh; otherwise
    /// it takes the whole chunk and waits for more.
    pub fn accept(&mut self, chunk: &[u8]) -> (r: Result<Accepted, Error>)
        ensures
            match r {
                Err(e) => e == Error::Truncated && chunk@.len() == 0 && final(self)@ == old(self)@,
                Ok(accepted) => chunk@.len() > 0 && match frame_end(old(self)@ + chunk@) {
                    Some(end) => {
                        &&& accepted.used == end - old(self)@.len()
                        &&& accepted.payload matches Some(payload)
                        &&& payload@ == frame_payload(old(self)@ + chunk@, end)
                        &&& final(self)@ == Seq::<u8>::empty()
                    },
                    None => {
                        &&& accepted.used == chunk@.len()
                        &&& accepted.payload is None
                        &&& final(self)@ == old(self)@ + chunk@
                    },
                },
            },
    {
        proof {
            use_type_invariant(&*self);
        }
        if chunk.len() == 0 {
            return Err(Error::Truncated);
        }
        let ghost all = old(self)@ + chunk@;
        let mut buf: Vec<u8> = Vec::new();
        core::mem::swap(&mut buf, &mut self.buf);
        let mut used: usize = 0;
        if buf.len() < HEADER_LEN {
            let need = HEADER_LEN - buf.len();
            let take = if chunk.len() < need {
                chunk.len()
            } else {
                need
            };
            buf.extend_from_slice(slice_subrange(chunk, 0, take));
            used = take;
            assert(buf@ =~= all.take(buf@.len() as int));
            if buf.len() < HEADER_LEN {
                assert(buf@ =~= all);
                self.buf = buf;
                return Ok(Accepted { used, payload: None });
            }
        }
        assert(buf@ =~= all.take(buf@.len() as int));
        assert(le_u32(buf@) == le_u32(all));
        let size = as_u32_le(buf.as_slice()) as usize;
        let have = buf.len() - HEADER_LEN;
        let need = size - have;
        let left = chunk.len() - used;
        let take = if left < need {
            left
        } else {
            need
        };
        buf.extend_from_slice(slice_subrange(chunk, used, used + take));
        used = used + take;
        assert(buf@ =~= all.take(buf@.len() as int));
        if buf.len() - HEADER_LEN == size {
            let payload = slice_to_vec(slice_subrange(buf.as_slice(), HEADER_LEN, buf.len()));
            assert(payload@ =~= frame_payload(all, 4 + le_u32(all)));
            Ok(Accepted { used, payload: Some(payload) })
        } else {
            assert(buf@ =~= all);
            self.buf = buf;
            Ok(Accepted { used, payload: None })
        }
    }
}

/// What `next_message` makes of a stream, given what its payload decodes to.
pub open spec fn first_message(stream: Seq<u8>) -> Result<(MessageView, int), Error> {
    match frame_end(stream) {
        None => Err(Error::Truncated),
        Some(end) => match parsed(frame_payload(stream, end)) {
            None => Err(Error::MalformedPayload),
            Some(m) => Ok((m, end)),
        },
    }
}

/// Decodes the first frame of `stream`, the bytes that a connection
/// delivered before it closed, and says where the frame ends.
/// `Err(Truncated)` where the stream ends before the frame does,
/// `Err(MalformedPayload)` where the frame is whole and its payload is not a
/// message.
pub fn next_message(stream: &[u8]) -> (r: Result<(Message, usize), Error>)
    ensures
        match r {
            Ok((msg, end)) => first_message(stream@) == Ok::<(MessageView, int), Error>(
                (msg@, end as int),
            ),
            Err(e) => first_message(stream@) == Err::<(MessageView, int), Error>(e),
        },
{
    let mut reader = FrameReader::new();
    assert(reader@ + stream@ =~= stream@);
    match reader.accept(stream) {
        Err(e) => Err(e),
        Ok(accepted) => match accepted.payload {
            None => Err(Error::Truncated),
            Some(payload) => match parse_from_bytes(payload.as_slice()) {
                Ok(msg) => Ok((msg, accepted.used)),
                Err(e) => Err(e),
            },
        },
    }
}

} // verus!
