//! The payload of a frame: a message as protocol-buffer fields. The fields
//! and their numbers are this library's; the bytes of each field are written
//! and read by the `protobuf` crate.

use crate::error::Error;
use crate::message::{Message, MessageView};
use protobuf::ProtobufError;
use vstd::prelude::*;
use vstd::slice::slice_subrange;

verus! {

/// The error type of the `protobuf` crate.
#[verifier::external_type_specification]
#[verifier::external_body]
pub struct ExProtobufError(ProtobufError);

/// The number of the field that holds the sender, a `uint64`.
pub const FIELD_FROM: u32 = 1;

/// The number of the field that holds the receiver, a `uint64`.
pub const FIELD_TO: u32 = 2;

/// The number of the field that holds the data, `bytes`.
pub const FIELD_DATA: u32 = 3;

/// The number of the field that names what is to be spawned, a `string`.
pub const FIELD_SPAWN: u32 = 4;

/// The number of the field that holds the address to spawn at, a `uint64`.
pub const FIELD_SPAWN_ADDRESS: u32 = 5;

/// The number of the field that holds the exit code, an `int32`.
pub const FIELD_EXIT: u32 = 6;

/// The number of the field that holds the parent's address, a `uint64`.
pub const FIELD_PARENT_ADDRESS: u32 = 7;

/// The number of the field that tells a unit its own address, a `uint64`.
pub const FIELD_YOUR_ADDRESS: u32 = 8;

/// The greatest number a field can have.
pub const FIELD_NUMBER_MAX: u32 = 0x1fff_ffff;

/// The wire type of integers.
pub const WIRE_VARINT: u32 = 0;

/// The wire type of byte strings and text.
pub const WIRE_LENGTH_DELIMITED: u32 = 2;

/// The greatest code that a wire type has.
pub const WIRE_TYPE_MAX: u32 = 5;

/// The most bytes that an integer field takes: a tag of at most five bytes
/// and a value of at most ten.
pub const VARINT_FIELD_MAX: usize = 15;

/// The most bytes that stand in front of the value of a `bytes` or `string`
/// field: a tag and a length of at most five bytes each.
pub const LENGTH_PREFIX_MAX: usize = 10;

/// The most bytes that one character takes in UTF-8.
pub const UTF8_CHAR_MAX: usize = 4;

/// The bytes that `CodedOutputStream::write_uint64` writes for a field.
pub uninterp spec fn uint64_field(number: u32, value: u64) -> Seq<u8>;

/// The bytes that `CodedOutputStream::write_int32` writes for a field.
pub uninterp spec fn int32_field(number: u32, value: i32) -> Seq<u8>;

/// The bytes that `CodedOutputStream::write_bytes` writes for a field.
pub uninterp spec fn bytes_field(number: u32, value: Seq<u8>) -> Seq<u8>;

/// The bytes that `CodedOutputStream::write_string` writes for a field.
pub uninterp spec fn string_field(number: u32, value: Seq<char>) -> Seq<u8>;

/// What `CodedInputStream::read_tag_unpack` finds at the start of `input`:
/// the field's number, the code of its wire type and the bytes read; `None`
/// where it fails.
pub uninterp spec fn tag_at(input: Seq<u8>) -> Option<(u32, u32, nat)>;

/// What `CodedInputStream::read_uint64` finds at the start of `input`: the
/// value and the bytes read; `None` where it fails.
pub uninterp spec fn uint64_at(input: Seq<u8>) -> Option<(u64, nat)>;

/// What `CodedInputStream::read_int32` finds at the start of `input`.
pub uninterp spec fn int32_at(input: Seq<u8>) -> Option<(i32, nat)>;

/// What `CodedInputStream::read_bytes` finds at the start of `input`.
pub uninterp spec fn bytes_at(input: Seq<u8>) -> Option<(Seq<u8>, nat)>;

/// What `CodedInputStream::read_string` finds at the start of `input`.
pub uninterp spec fn string_at(input: Seq<u8>) -> Option<(Seq<char>, nat)>;

/// How many bytes `protobuf::rt::read_unknown_or_skip_group` passes over at
/// the start of `input` for the value of a field with this number and this
/// code of a wire type; `None` where it fails.
pub uninterp spec fn unknown_value_at(number: u32, wire: u32, input: Seq<u8>) -> Option<nat>;

/// Appends one `uint64` field with `CodedOutputStream::write_uint64` on a
/// stream over `out`. Claimed: writing to a vector does not fail, the bytes
/// written depend on the number and the value alone, what `out` held stays
/// in front of them, and they are a tag and a value of at most
/// `VARINT_FIELD_MAX` bytes together.
#[verifier::external_body]
fn put_uint64(out: &mut Vec<u8>, number: u32, value: u64) -> (r: Result<(), ProtobufError>)
    requires
        1 <= number <= FIELD_NUMBER_MAX,
    ensures
        r is Ok,
        final(out)@ == old(out)@ + uint64_field(number, value),
        final(out)@.len() <= old(out)@.len() + VARINT_FIELD_MAX,
{
    let mut os = protobuf::CodedOutputStream::vec(out);
    os.write_uint64(number, value)?;
    os.flush()
}

/// Appends one `int32` field with `CodedOutputStream::write_int32`; claimed
/// as for `put_uint64`.
#[verifier::external_body]
fn put_int32(out: &mut Vec<u8>, number: u32, value: i32) -> (r: Result<(), ProtobufError>)
    requires
        1 <= number <= FIELD_NUMBER_MAX,
    ensures
        r is Ok,
        final(out)@ == old(out)@ + int32_field(number, value),
        final(out)@.len() <= old(out)@.len() + VARINT_FIELD_MAX,
{
    let mut os = protobuf::CodedOutputStream::vec(out);
    os.write_int32(number, value)?;
    os.flush()
}

/// Appends one `bytes` field with `CodedOutputStream::write_bytes`; claimed
/// as for `put_uint64`, but for the length: the bytes written are a tag, a
/// length of at most `LENGTH_PREFIX_MAX` bytes with it, and the value.
#[verifier::external_body]
fn put_bytes(out: &mut Vec<u8>, number: u32, value: &[u8]) -> (r: Result<(), ProtobufError>)
    requires
        1 <= number <= FIELD_NUMBER_MAX,
    ensures
        r is Ok,
        final(out)@ == old(out)@ + bytes_field(number, value@),
        final(out)@.len() <= old(out)@.len() + LENGTH_PREFIX_MAX + value@.len(),
{
    let mut os = protobuf::CodedOutputStream::vec(out);
    os.write_bytes(number, value)?;
    os.flush()
}

/// Appends one `string` field with `CodedOutputStream::write_string`;
/// claimed as for `put_bytes`, the value being the text in UTF-8, which
/// takes at most `UTF8_CHAR_MAX` bytes for a character.
#[verifier::external_body]
fn put_string(out: &mut Vec<u8>, number: u32, value: &str) -> (r: Result<(), ProtobufError>)
    requires
        1 <= number <= FIELD_NUMBER_MAX,
    ensures
        r is Ok,
        final(out)@ == old(out)@ + string_field(number, value@),
        final(out)@.len() <= old(out)@.len() + LENGTH_PREFIX_MAX + UTF8_CHAR_MAX * value@.len(),
{
    let mut os = protobuf::CodedOutputStream::vec(out);
    os.write_string(number, value)?;
    os.flush()
}

/// Reads a tag with `CodedInputStream::read_tag_unpack` from a stream over
/// `input`. Claimed: the outcome depends on the bytes alone.
#[verifier::external_body]
fn read_tag(input: &[u8]) -> (r: Result<(u32, u32, usize), ProtobufError>)
    ensures
        match r {
            Ok((number, wire, used)) => tag_at(input@) == Some((number, wire, used as nat)),
            Err(_) => tag_at(input@) is None,
        },
{
    let mut is = protobuf::CodedInputStream::from_bytes(input);
    let (number, wire) = is.read_tag_unpack()?;
    Ok((number, wire as u32, is.pos() as usize))
}

/// Reads a value with `CodedInputStream::read_uint64` from a stream over
/// `input`. Claimed: the outcome depends on the bytes alone.
#[verifier::external_body]
fn read_uint64(input: &[u8]) -> (r: Result<(u64, usize), ProtobufError>)
    ensures
        match r {
            Ok((value, used)) => uint64_at(input@) == Some((value, used as nat)),
            Err(_) => uint64_at(input@) is None,
        },
{
    let mut is = protobuf::CodedInputStream::from_bytes(input);
    let value = is.read_uint64()?;
    Ok((value, is.pos() as usize))
}

/// Reads a value with `CodedInputStream::read_int32`; claimed as for
/// `read_uint64`.
#[verifier::external_body]
fn read_int32(input: &[u8]) -> (r: Result<(i32, usize), ProtobufError>)
    ensures
        match r {
            Ok((value, used)) => int32_at(input@) == Some((value, used as nat)),
            Err(_) => int32_at(input@) is None,
        },
{
    let mut is = protobuf::CodedInputStream::from_bytes(input);
    let value = is.read_int32()?;
    Ok((value, is.pos() as usize))
}

/// Reads a value with `CodedInputStream::read_bytes`; claimed as for
/// `read_uint64`.
#[verifier::external_body]
fn read_bytes(input: &[u8]) -> (r: Result<(Vec<u8>, usize), ProtobufError>)
    ensures
        match r {
            Ok((value, used)) => bytes_at(input@) == Some((value@, used as nat)),
            Err(_) => bytes_at(input@) is None,
        },
{
    let mut is = protobuf::CodedInputStream::from_bytes(input);
    let value = is.read_bytes()?;
    Ok((value, is.pos() as usize))
}

/// Reads a value with `CodedInputStream::read_string`; claimed as for
/// `read_uint64`.
#[verifier::external_body]
fn read_string(input: &[u8]) -> (r: Result<(String, usize), ProtobufError>)
    ensures
        match r {
            Ok((value, used)) => string_at(input@) == Some((value@, used as nat)),
            Err(_) => string_at(input@) is None,
        },
{
    let mut is = protobuf::CodedInputStream::from_bytes(input);
    let value = is.read_string()?;
    Ok((value, is.pos() as usize))
}

/// Passes over the value of a field that this library does not know, with
/// `protobuf::rt::read_unknown_or_skip_group` on a stream over `input`; the
/// wire type is the one that `WireType::new` gives for the code, and there
/// is one for every code up to `WIRE_TYPE_MAX`. Claimed: the outcome depends
/// on the number, the code and the bytes alone.
#[verifier::external_body]
fn skip_value(number: u32, wire: u32, input: &[u8]) -> (r: Result<usize, ProtobufError>)
    requires
        wire <= WIRE_TYPE_MAX,
    ensures
        match r {
            Ok(used) => unknown_value_at(number, wire, input@) == Some(used as nat),
            Err(_) => unknown_value_at(number, wire, input@) is None,
        },
{
    let wire = protobuf::wire_format::WireType::new(wire).unwrap();
    let mut is = protobuf::CodedInputStream::from_bytes(input);
    let mut unknown = protobuf::UnknownFields::new();
    protobuf::rt::read_unknown_or_skip_group(number, wire, &mut is, &mut unknown)?;
    Ok(is.pos() as usize)
}

/// The payload of `m`: its fields in the order of their numbers, each one
/// left out where it is zero or empty.
pub open spec fn payload(m: MessageView) -> Seq<u8> {
    (if m.from != 0 {
        uint64_field(FIELD_FROM, m.from)
    } else {
        Seq::empty()
    }) + (if m.to != 0 {
        uint64_field(FIELD_TO, m.to)
    } else {
        Seq::empty()
    }) + (if m.data.len() != 0 {
        bytes_field(FIELD_DATA, m.data)
    } else {
        Seq::empty()
    }) + (if m.spawn.len() != 0 {
        string_field(FIELD_SPAWN, m.spawn)
    } else {
        Seq::empty()
    }) + (if m.spawn_address != 0 {
        uint64_field(FIELD_SPAWN_ADDRESS, m.spawn_address)
    } else {
        Seq::empty()
    }) + (if m.exit != 0 {
        int32_field(FIELD_EXIT, m.exit)
    } else {
        Seq::empty()
    }) + (if m.parent_address != 0 {
        uint64_field(FIELD_PARENT_ADDRESS, m.parent_address)
    } else {
        Seq::empty()
    }) + (if m.your_address != 0 {
        uint64_field(FIELD_YOUR_ADDRESS, m.your_address)
    } else {
        Seq::empty()
    })
}

/// A length that the payload of `m` does not exceed: six integer fields and
/// the two fields whose length goes with the data and the text.
pub open spec fn payload_bound(m: MessageView) -> int {
    6 * VARINT_FIELD_MAX + 2 * LENGTH_PREFIX_MAX + m.data.len() + UTF8_CHAR_MAX * m.spawn.len()
}

/// The payload of `m` is short enough for a frame, whatever its integers
/// hold.
pub open spec fn fits_frame(m: MessageView) -> bool {
    payload_bound(m) <= u32::MAX
}

/// Encodes `m` as the payload of a frame.
pub fn write_to_bytes(m: &Message) -> (bytes: Vec<u8>)
    ensures
        bytes@ == payload(m@),
        bytes@.len() <= payload_bound(m@),
{
    let mut out: Vec<u8> = Vec::new();
    if m.from != 0 {
        put_uint64(&mut out, FIELD_FROM, m.from).unwrap();
    }
    assert(out@.len() <= VARINT_FIELD_MAX);
    if m.to != 0 {
        put_uint64(&mut out, FIELD_TO, m.to).unwrap();
    }
    assert(out@.len() <= 2 * VARINT_FIELD_MAX);
    if m.data.len() != 0 {
        put_bytes(&mut out, FIELD_DATA, m.data.as_slice()).unwrap();
    }
    assert(out@.len() <= 2 * VARINT_FIELD_MAX + LENGTH_PREFIX_MAX + m.data@.len());
    if !m.spawn.as_str().is_empty() {
        put_string(&mut out, FIELD_SPAWN, m.spawn.as_str()).unwrap();
    }
    assert(out@.len() <= payload_bound(m@) - 4 * VARINT_FIELD_MAX);
    if m.spawn_address != 0 {
        put_uint64(&mut out, FIELD_SPAWN_ADDRESS, m.spawn_address).unwrap();
    }
    if m.exit != 0 {
        put_int32(&mut out, FIELD_EXIT, m.exit).unwrap();
    }
    if m.parent_address != 0 {
        put_uint64(&mut out, FIELD_PARENT_ADDRESS, m.parent_address).unwrap();
    }
    if m.your_address != 0 {
        put_uint64(&mut out, FIELD_YOUR_ADDRESS, m.your_address).unwrap();
    }
    assert(out@ =~= payload(m@));
    out
}

/// What kind of value a field holds.
#[derive(Clone, Copy, Debug, PartialEq, Eq, Structural)]
pub enum FieldKind {
    /// An unsigned 64-bit integer: an address.
    Uint64,
    /// A signed 32-bit integer: the exit code.
    Int32,
    /// Bytes: the data.
    Bytes,
    /// Text: what is to be spawned.
    Text,
    /// A field that this library does not know.
    Unknown,
}

/// The value of one field, as read from a payload.
#[derive(Debug, PartialEq, Eq)]
pub enum FieldValue {
    Uint64(u64),
    Int32(i32),
    Bytes(Vec<u8>),
    Text(String),
    /// The value of a field that this library does not know, passed over.
    Skipped,
}

/// What a `FieldValue` holds.
pub ghost enum FieldValueView {
    Uint64(u64),
    Int32(i32),
    Bytes(Seq<u8>),
    Text(Seq<char>),
    Skipped,
}

impl View for FieldValue {
    type V = FieldValueView;

    open spec fn view(&self) -> FieldValueView {
        match self {
            FieldValue::Uint64(value) => FieldValueView::Uint64(*value),
            FieldValue::Int32(value) => FieldValueView::Int32(*value),
            FieldValue::Bytes(value) => FieldValueView::Bytes(value@),
            FieldValue::Text(value) => FieldValueView::Text(value@),
            FieldValue::Skipped => FieldValueView::Skipped,
        }
    }
}

/// The kind of value that the field with this number holds.
pub open spec fn kind_of(number: u32) -> FieldKind {
    if number == FIELD_FROM || number == FIELD_TO || number == FIELD_SPAWN_ADDRESS || number
        == FIELD_PARENT_ADDRESS || number == FIELD_YOUR_ADDRESS {
        FieldKind::Uint64
    } else if number == FIELD_EXIT {
        FieldKind::Int32
    } else if number == FIELD_DATA {
        FieldKind::Bytes
    } else if number == FIELD_SPAWN {
        FieldKind::Text
    } else {
        FieldKind::Unknown
    }
}

/// `acc` with the integer field `number` set to `value`.
pub open spec fn with_uint64(acc: MessageView, number: u32, value: u64) -> MessageView {
    if number == FIELD_FROM {
        MessageView { from: value, ..acc }
    } else if number == FIELD_TO {
        MessageView { to: value, ..acc }
    } else if number == FIELD_SPAWN_ADDRESS {
        MessageView { spawn_address: value, ..acc }
    } else if number == FIELD_PARENT_ADDRESS {
        MessageView { parent_address: value, ..acc }
    } else if number == FIELD_YOUR_ADDRESS {
        MessageView { your_address: value, ..acc }
    } else {
        acc
    }
}

/// `acc` with the value of field `number` set to `value`, which came with
/// the wire type `wire`. A field of this library takes a value of its own
/// kind that came with the wire type of that kind, and a later value
/// replaces an earlier one; a field that this library does not know leaves
/// `acc` as it is. `None` for a value of another kind or with another wire
/// type.
pub open spec fn stored(
    acc: MessageView,
    number: u32,
    wire: u32,
    value: FieldValueView,
) -> Option<MessageView> {
    match value {
        FieldValueView::Uint64(v) => if kind_of(number) == FieldKind::Uint64 && wire
            == WIRE_VARINT {
            Some(with_uint64(acc, number, v))
        } else {
            None
        },
        FieldValueView::Int32(v) => if kind_of(number) == FieldKind::Int32 && wire == WIRE_VARINT {
            Some(MessageView { exit: v, ..acc })
        } else {
            None
        },
        FieldValueView::Bytes(v) => if kind_of(number) == FieldKind::Bytes && wire
            == WIRE_LENGTH_DELIMITED {
            Some(MessageView { data: v, ..acc })
        } else {
            None
        },
        FieldValueView::Text(v) => if kind_of(number) == FieldKind::Text && wire
            == WIRE_LENGTH_DELIMITED {
            Some(MessageView { spawn: v, ..acc })
        } else {
            None
        },
        FieldValueView::Skipped => if kind_of(number) == FieldKind::Unknown {
            Some(acc)
        } else {
            None
        },
    }
}

/// The value of field `number` at the start of `rest`, read as the kind of
/// the field asks, and the bytes it takes; the value of a field that this
/// library does not know is passed over as its wire type asks. `None` where
/// the value cannot be read.
pub open spec fn value_at(number: u32, wire: u32, rest: Seq<u8>) -> Option<(FieldValueView, nat)> {
    match kind_of(number) {
        FieldKind::Uint64 => match uint64_at(rest) {
            Some((value, used)) => Some((FieldValueView::Uint64(value), used)),
            None => None,
        },
        FieldKind::Int32 => match int32_at(rest) {
            Some((value, used)) => Some((FieldValueView::Int32(value), used)),
            None => None,
        },
        FieldKind::Bytes => match bytes_at(rest) {
            Some((value, used)) => Some((FieldValueView::Bytes(value), used)),
            None => None,
        },
        FieldKind::Text => match string_at(rest) {
            Some((value, used)) => Some((FieldValueView::Text(value), used)),
            None => None,
        },
        FieldKind::Unknown => if wire <= WIRE_TYPE_MAX {
            match unknown_value_at(number, wire, rest) {
                Some(used) => Some((FieldValueView::Skipped, used)),
                None => None,
            }
        } else {
            None
        },
    }
}

/// Reads the field that starts `input` into `acc`: the message with that
/// field stored and the bytes the field takes, tag included. `None` where
/// the tag or the value cannot be read, the value would end past the input,
/// or the value cannot be stored.
pub open spec fn parse_field(input: Seq<u8>, acc: MessageView) -> Option<(MessageView, nat)> {
    match tag_at(input) {
        None => None,
        Some((number, wire, tag_len)) => {
            let rest = input.skip(tag_len as int);
            if tag_len > input.len() {
                None
            } else {
                match value_at(number, wire, rest) {
                    None => None,
                    Some((value, used)) => if used > rest.len() {
                        None
                    } else {
                        match stored(acc, number, wire, value) {
                            Some(next) => Some((next, tag_len + used)),
                            None => None,
                        }
                    },
                }
            }
        },
    }
}

/// Reads field after field until `input` is used up. `None` where a field
/// cannot be read or takes no bytes.
pub open spec fn parse_fields(input: Seq<u8>, acc: MessageView) -> Option<MessageView>
    decreases input.len(),
{
    if input.len() == 0 {
        Some(acc)
    } else {
        match parse_field(input, acc) {
            Some((next, used)) => if 1 <= used <= input.len() {
                parse_fields(input.skip(used as int), next)
            } else {
                None
            },
            None => None,
        }
    }
}

/// The message that `payload` encodes, if it encodes one.
pub open spec fn parsed(payload: Seq<u8>) -> Option<MessageView> {
    parse_fields(payload, MessageView::empty())
}

/// The kind of value that the field with this number holds.
pub fn field_kind(number: u32) -> (kind: FieldKind)
    ensures
        kind == kind_of(number),
{
    if number == FIELD_FROM || number == FIELD_TO || number == FIELD_SPAWN_ADDRESS || number
        == FIELD_PARENT_ADDRESS || number == FIELD_YOUR_ADDRESS {
        FieldKind::Uint64
    } else if number == FIELD_EXIT {
        FieldKind::Int32
    } else if number == FIELD_DATA {
        FieldKind::Bytes
    } else if number == FIELD_SPAWN {
        FieldKind::Text
    } else {
        FieldKind::Unknown
    }
}

/// Stores in `msg` the value of field `number`, which came with the wire
/// type `wire`, and says whether it could: a field of this library takes a
/// value of its own kind that came with the wire type of that kind; a field
/// that this library does not know takes the value that was passed over, and
/// leaves `msg` as it is. Where it could not, `msg` is as it was.
pub fn set_field(msg: &mut Message, number: u32, wire: u32, value: FieldValue) -> (ok: bool)
    ensures
        match stored(old(msg)@, number, wire, value@) {
            Some(next) => ok && final(msg)@ == next,
            None => !ok && final(msg)@ == old(msg)@,
        },
{
    let kind = field_kind(number);
    match value {
        FieldValue::Uint64(v) => {
            if kind != FieldKind::Uint64 || wire != WIRE_VARINT {
                return false;
            }
            if number == FIELD_FROM {
                msg.from = v;
            } else if number == FIELD_TO {
                msg.to = v;
            } else if number == FIELD_SPAWN_ADDRESS {
                msg.spawn_address = v;
            } else if number == FIELD_PARENT_ADDRESS {
                msg.parent_address = v;
            } else {
                msg.your_address = v;
            }
            true
        },
        FieldValue::Int32(v) => {
            if kind != FieldKind::Int32 || wire != WIRE_VARINT {
                return false;
            }
            msg.exit = v;
            true
        },
        FieldValue::Bytes(v) => {
            if kind != FieldKind::Bytes || wire != WIRE_LENGTH_DELIMITED {
                return false;
            }
            msg.data = v;
            true
        },
        FieldValue::Text(v) => {
            if kind != FieldKind::Text || wire != WIRE_LENGTH_DELIMITED {
                return false;
            }
            msg.spawn = v;
            true
        },
        FieldValue::Skipped => kind == FieldKind::Unknown,
    }
}

/// Reads the value of field `number` from the start of `rest`, with the
/// reader that the kind of the field asks for.
fn read_value(number: u32, wire: u32, rest: &[u8]) -> (r: Option<(FieldValue, usize)>)
    ensures
        match r {
            Some((value, used)) => value_at(number, wire, rest@) == Some(
                (value@, used as nat),
            ),
            None => value_at(number, wire, rest@) is None,
        },
{
    match field_kind(number) {
        FieldKind::Uint64 => match read_uint64(rest) {
            Ok((value, used)) => Some((FieldValue::Uint64(value), used)),
            Err(_) => None,
        },
        FieldKind::Int32 => match read_int32(rest) {
            Ok((value, used)) => Some((FieldValue::Int32(value), used)),
            Err(_) => None,
        },
        FieldKind::Bytes => match read_bytes(rest) {
            Ok((value, used)) => Some((FieldValue::Bytes(value), used)),
            Err(_) => None,
        },
        FieldKind::Text => match read_string(rest) {
            Ok((value, used)) => Some((FieldValue::Text(value), used)),
            Err(_) => None,
        },
        FieldKind::Unknown => {
            if wire > WIRE_TYPE_MAX {
                return None;
            }
            match skip_value(number, wire, rest) {
                Ok(used) => Some((FieldValue::Skipped, used)),
                Err(_) => None,
            }
        },
    }
}

/// Reads the field that starts `input` into `msg` and says how many bytes it
/// took. Where it fails, `msg` is as it was.
fn read_field(input: &[u8], msg: &mut Message) -> (r: Option<usize>)
    ensures
        match r {
            Some(used) => parse_field(input@, old(msg)@) == Some((final(msg)@, used as nat)),
            None => parse_field(input@, old(msg)@) is None && final(msg)@ == old(msg)@,
        },
{
    let (number, wire, tag_len) = match read_tag(input) {
        Ok(tag) => tag,
        Err(_) => {
            return None;
        },
    };
    if tag_len > input.len() {
        return None;
    }
    let rest = slice_subrange(input, tag_len, input.len());
    assert(rest@ =~= input@.skip(tag_len as int));
    let (value, used) = match read_value(number, wire, rest) {
        Some(read) => read,
        None => {
            return None;
        },
    };
    if used > rest.len() {
        return None;
    }
    if set_field(msg, number, wire, value) {
        Some(tag_len + used)
    } else {
        None
    }
}

/// Decodes the payload of a frame. It is `Ok` exactly when `bytes` is a
/// sequence of well-formed fields, `Err(MalformedPayload)` otherwise.
pub fn parse_from_bytes(bytes: &[u8]) -> (r: Result<Message, Error>)
    ensures
        match r {
            Ok(m) => parsed(bytes@) == Some(m@),
            Err(e) => e == Error::MalformedPayload && parsed(bytes@) is None,
        },
{
    let mut msg = Message::new();
    let mut pos: usize = 0;
    assert(bytes@.skip(0) =~= bytes@);
    while pos < bytes.len()
        invariant
            pos <= bytes@.len(),
            parse_fields(bytes@.skip(pos as int), msg@) == parsed(bytes@),
        decreases bytes@.len() - pos,
    {
        let input = slice_subrange(bytes, pos, bytes.len());
        assert(input@ =~= bytes@.skip(pos as int));
        match read_field(input, &mut msg) {
            Some(used) => {
                if used == 0 || used > input.len() {
                    return Err(Error::MalformedPayload);
                }
                assert(input@.skip(used as int) =~= bytes@.skip(pos + used));
                pos = pos + used;
            },
            None => {
                return Err(Error::MalformedPayload);
            },
        }
    }
    Ok(msg)
}

} // verus!
