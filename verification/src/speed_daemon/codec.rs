//! The binary wire format.
//!
//! Every message starts with a one-byte tag.  Integers are big-endian.  A
//! string is one length byte followed by that many bytes of UTF-8; an array
//! of road numbers is one count byte followed by that many 16-bit integers.
//!
//! The format is stated twice, as spec functions: [`client_frame`] and
//! [`server_frame`] give the bytes of a message, [`parse_client`] and
//! [`parse_server`] read a message off the front of a byte sequence.  The
//! lemmas at the end of this module show that the two agree.

use crate::buffer::{advance, as_slice, buffered};
use crate::endian::{
    be_u16, be_u32, lemma_u16_bytes_round_trip, lemma_u16_round_trip,
    lemma_u32_bytes_round_trip, lemma_u32_round_trip, read_u16, read_u32, u16_be, u32_be,
    write_u16, write_u32,
};
use crate::text::string_from_utf8;
use bytes::BytesMut;
use vstd::prelude::*;
use vstd::slice::{slice_subrange, slice_to_vec};
use vstd::utf8::{
    decode_utf8, decode_utf8_encode_utf8, encode_utf8, encode_utf8_decode_utf8,
    encode_utf8_valid_utf8, valid_utf8,
};

verus! {

/// Tag of an `Error` message.
pub const TAG_ERROR: u8 = 0x10;

/// Tag of a `Plate` message.
pub const TAG_PLATE: u8 = 0x20;

/// Tag of a `Ticket` message.
pub const TAG_TICKET: u8 = 0x21;

/// Tag of a `WantHeartbeat` message.
pub const TAG_WANT_HEARTBEAT: u8 = 0x40;

/// Tag of a `Heartbeat` message.
pub const TAG_HEARTBEAT: u8 = 0x41;

/// Tag of an `IAmCamera` message.
pub const TAG_I_AM_CAMERA: u8 = 0x80;

/// Tag of an `IAmDispatcher` message.
pub const TAG_I_AM_DISPATCHER: u8 = 0x81;

/// The longest string or array that the one-byte length prefix can announce.
pub const MAX_FIELD_LEN: usize = 255;

/// What a client sends to the server.
#[derive(Debug, Clone, PartialEq, Eq)]
pub enum ClientToServerMessage {
    /// A camera saw `plate` at `timestamp` (seconds).
    Plate { plate: String, timestamp: u32 },
    /// The client asks for a heartbeat every `interval` deciseconds; zero
    /// asks for none.
    WantHeartbeat { interval: u32 },
    /// The client is a camera at `mile` of `road`, where the speed limit is
    /// `limit` miles per hour.
    IAmCamera { road: u16, mile: u16, limit: u16 },
    /// The client is a dispatcher for `roads`.
    IAmDispatcher { roads: Vec<u16> },
}

/// What the server sends to a client.
#[derive(Debug, Clone, PartialEq, Eq)]
pub enum ServerToClientMessage {
    /// The client broke the protocol; the connection is closed after this.
    Error(String),
    /// `plate` covered the stretch from `mile1` to `mile2` of `road` between
    /// `timestamp1` and `timestamp2` at `speed` hundredths of a mile per hour.
    Ticket {
        plate: String,
        road: u16,
        mile1: u16,
        timestamp1: u32,
        mile2: u16,
        timestamp2: u32,
        speed: u16,
    },
    /// A keepalive.
    Heartbeat,
}

/// Why bytes could not be turned into a message, or a message into bytes.
#[derive(Debug, Clone, Copy, PartialEq, Eq, Structural)]
pub enum CodecError {
    /// The frame starts with a byte that is no tag of the expected direction.
    UnknownMessageType { tag: u8 },
    /// A string field does not hold UTF-8.
    InvalidText,
    /// A string or array is longer than its length prefix can say.
    FieldTooLong,
    /// The stream ended inside a frame.
    Truncated,
}

/// The mathematical value of a [`ClientToServerMessage`].
pub enum ClientMessage {
    Plate { plate: Seq<char>, timestamp: u32 },
    WantHeartbeat { interval: u32 },
    IAmCamera { road: u16, mile: u16, limit: u16 },
    IAmDispatcher { roads: Seq<u16> },
}

/// The mathematical value of a [`ServerToClientMessage`].
pub enum ServerMessage {
    Error(Seq<char>),
    Ticket {
        plate: Seq<char>,
        road: u16,
        mile1: u16,
        timestamp1: u32,
        mile2: u16,
        timestamp2: u32,
        speed: u16,
    },
    Heartbeat,
}

impl View for ClientToServerMessage {
    type V = ClientMessage;

    open spec fn view(&self) -> ClientMessage {
        match *self {
            ClientToServerMessage::Plate { plate, timestamp } => ClientMessage::Plate {
                plate: plate@,
                timestamp,
            },
            ClientToServerMessage::WantHeartbeat { interval } => ClientMessage::WantHeartbeat {
                interval,
            },
            ClientToServerMessage::IAmCamera { road, mile, limit } => ClientMessage::IAmCamera {
                road,
                mile,
                limit,
            },
            ClientToServerMessage::IAmDispatcher { roads } => ClientMessage::IAmDispatcher {
                roads: roads@,
            },
        }
    }
}

impl View for ServerToClientMessage {
    type V = ServerMessage;

    open spec fn view(&self) -> ServerMessage {
        match *self {
            ServerToClientMessage::Error(message) => ServerMessage::Error(message@),
            ServerToClientMessage::Ticket {
                plate,
                road,
                mile1,
                timestamp1,
                mile2,
                timestamp2,
                speed,
            } => ServerMessage::Ticket {
                plate: plate@,
                road,
                mile1,
                timestamp1,
                mile2,
                timestamp2,
                speed,
            },
            ServerToClientMessage::Heartbeat => ServerMessage::Heartbeat,
        }
    }
}

/// The bytes of a string field: its length in bytes, then its UTF-8.
pub open spec fn str_field(text: Seq<char>) -> Seq<u8> {
    seq![encode_utf8(text).len() as u8] + encode_utf8(text)
}

/// The big-endian bytes of a run of 16-bit integers.
pub open spec fn u16s_be(values: Seq<u16>) -> Seq<u8> {
    Seq::new(2 * values.len(), |i: int| u16_be(values[i / 2])[i % 2])
}

/// The 16-bit integers that `2 * count` big-endian bytes hold.
pub open spec fn be_u16s(bytes: Seq<u8>, count: nat) -> Seq<u16> {
    Seq::new(count, |i: int| be_u16(bytes.subrange(2 * i, 2 * i + 2)) as u16)
}

/// The bytes of an array of road numbers: its length, then its elements.
pub open spec fn roads_field(roads: Seq<u16>) -> Seq<u8> {
    seq![roads.len() as u8] + u16s_be(roads)
}

/// Whether a string fits a string field.
pub open spec fn text_fits(text: Seq<char>) -> bool {
    encode_utf8(text).len() <= MAX_FIELD_LEN
}

/// Whether every field of the message fits its length prefix.
pub open spec fn client_encodable(message: ClientMessage) -> bool {
    match message {
        ClientMessage::Plate { plate, .. } => text_fits(plate),
        ClientMessage::IAmDispatcher { roads } => roads.len() <= MAX_FIELD_LEN,
        _ => true,
    }
}

/// Whether every field of the message fits its length prefix.
pub open spec fn server_encodable(message: ServerMessage) -> bool {
    match message {
        ServerMessage::Error(text) => text_fits(text),
        ServerMessage::Ticket { plate, .. } => text_fits(plate),
        ServerMessage::Heartbeat => true,
    }
}

/// The frame of a client message.
pub open spec fn client_frame(message: ClientMessage) -> Seq<u8> {
    match message {
        ClientMessage::Plate { plate, timestamp } => seq![TAG_PLATE] + str_field(plate) + u32_be(
            timestamp,
        ),
        ClientMessage::WantHeartbeat { interval } => seq![TAG_WANT_HEARTBEAT] + u32_be(interval),
        ClientMessage::IAmCamera { road, mile, limit } => seq![TAG_I_AM_CAMERA] + u16_be(road)
            + u16_be(mile) + u16_be(limit),
        ClientMessage::IAmDispatcher { roads } => seq![TAG_I_AM_DISPATCHER] + roads_field(roads),
    }
}

/// The frame of a server message.
pub open spec fn server_frame(message: ServerMessage) -> Seq<u8> {
    match message {
        ServerMessage::Error(text) => seq![TAG_ERROR] + str_field(text),
        ServerMessage::Ticket { plate, road, mile1, timestamp1, mile2, timestamp2, speed } => seq![
            TAG_TICKET,
        ] + str_field(plate) + u16_be(road) + u16_be(mile1) + u32_be(timestamp1) + u16_be(mile2)
            + u32_be(timestamp2) + u16_be(speed),
        ServerMessage::Heartbeat => seq![TAG_HEARTBEAT],
    }
}

/// Reads one client message off the front of `bytes`.
///
/// `Ok(None)` says that the bytes so far are the beginning of a frame and
/// more are needed; `Ok(Some((message, length)))` that the first `length`
/// bytes are the frame of `message`; `Err` that no frame can start this way.
pub open spec fn parse_client(bytes: Seq<u8>) -> Result<Option<(ClientMessage, nat)>, CodecError> {
    if bytes.len() == 0 {
        Ok(None)
    } else if bytes[0] == TAG_PLATE {
        if bytes.len() < 2 || bytes.len() < 6 + bytes[1] {
            Ok(None)
        } else {
            let n = bytes[1] as int;
            let raw = bytes.subrange(2, 2 + n);
            if valid_utf8(raw) {
                Ok(
                    Some(
                        (
                            ClientMessage::Plate {
                                plate: decode_utf8(raw),
                                timestamp: be_u32(bytes.subrange(2 + n, 6 + n)) as u32,
                            },
                            (6 + n) as nat,
                        ),
                    ),
                )
            } else {
                Err(CodecError::InvalidText)
            }
        }
    } else if bytes[0] == TAG_WANT_HEARTBEAT {
        if bytes.len() < 5 {
            Ok(None)
        } else {
            Ok(
                Some(
                    (
                        ClientMessage::WantHeartbeat {
                            interval: be_u32(bytes.subrange(1, 5)) as u32,
                        },
                        5nat,
                    ),
                ),
            )
        }
    } else if bytes[0] == TAG_I_AM_CAMERA {
        if bytes.len() < 7 {
            Ok(None)
        } else {
            Ok(
                Some(
                    (
                        ClientMessage::IAmCamera {
                            road: be_u16(bytes.subrange(1, 3)) as u16,
                            mile: be_u16(bytes.subrange(3, 5)) as u16,
                            limit: be_u16(bytes.subrange(5, 7)) as u16,
                        },
                        7nat,
                    ),
                ),
            )
        }
    } else if bytes[0] == TAG_I_AM_DISPATCHER {
        if bytes.len() < 2 || bytes.len() < 2 + 2 * bytes[1] {
            Ok(None)
        } else {
            let n = bytes[1] as int;
            Ok(
                Some(
                    (
                        ClientMessage::IAmDispatcher {
                            roads: be_u16s(bytes.subrange(2, 2 + 2 * n), n as nat),
                        },
                        (2 + 2 * n) as nat,
                    ),
                ),
            )
        }
    } else {
        Err(CodecError::UnknownMessageType { tag: bytes[0] })
    }
}

/// Reads one server message off the front of `bytes`; the result reads as
/// that of [`parse_client`].
pub open spec fn parse_server(bytes: Seq<u8>) -> Result<Option<(ServerMessage, nat)>, CodecError> {
    if bytes.len() == 0 {
        Ok(None)
    } else if bytes[0] == TAG_ERROR {
        if bytes.len() < 2 || bytes.len() < 2 + bytes[1] {
            Ok(None)
        } else {
            let n = bytes[1] as int;
            let raw = bytes.subrange(2, 2 + n);
            if valid_utf8(raw) {
                Ok(Some((ServerMessage::Error(decode_utf8(raw)), (2 + n) as nat)))
            } else {
                Err(CodecError::InvalidText)
            }
        }
    } else if bytes[0] == TAG_TICKET {
        if bytes.len() < 2 || bytes.len() < 18 + bytes[1] {
            Ok(None)
        } else {
            let n = bytes[1] as int;
            let raw = bytes.subrange(2, 2 + n);
            if valid_utf8(raw) {
                Ok(
                    Some(
                        (
                            ServerMessage::Ticket {
                                plate: decode_utf8(raw),
                                road: be_u16(bytes.subrange(2 + n, 4 + n)) as u16,
                                mile1: be_u16(bytes.subrange(4 + n, 6 + n)) as u16,
                                timestamp1: be_u32(bytes.subrange(6 + n, 10 + n)) as u32,
                                mile2: be_u16(bytes.subrange(10 + n, 12 + n)) as u16,
                                timestamp2: be_u32(bytes.subrange(12 + n, 16 + n)) as u32,
                                speed: be_u16(bytes.subrange(16 + n, 18 + n)) as u16,
                            },
                            (18 + n) as nat,
                        ),
                    ),
                )
            } else {
                Err(CodecError::InvalidText)
            }
        }
    } else if bytes[0] == TAG_HEARTBEAT {
        Ok(Some((ServerMessage::Heartbeat, 1nat)))
    } else {
        Err(CodecError::UnknownMessageType { tag: bytes[0] })
    }
}

/// Whether what an executable parser returned is what the format says.
pub open spec fn is_client_parse(
    got: Result<Option<(ClientToServerMessage, usize)>, CodecError>,
    bytes: Seq<u8>,
) -> bool {
    match parse_client(bytes) {
        Ok(None) => got matches Ok(None),
        Ok(Some((message, length))) => got matches Ok(Some((m, n))) && m@ == message && n
            == length,
        Err(error) => got matches Err(e) && e == error,
    }
}

/// Whether what an executable parser returned is what the format says.
pub open spec fn is_server_parse(
    got: Result<Option<(ServerToClientMessage, usize)>, CodecError>,
    bytes: Seq<u8>,
) -> bool {
    match parse_server(bytes) {
        Ok(None) => got matches Ok(None),
        Ok(Some((message, length))) => got matches Ok(Some((m, n))) && m@ == message && n
            == length,
        Err(error) => got matches Err(e) && e == error,
    }
}

/// The string held by `len` bytes of `bytes` from `at` on, if they are UTF-8.
fn read_text(bytes: &[u8], at: usize, len: usize) -> (text: Option<String>)
    requires
        at + len <= bytes@.len(),
    ensures
        text is Some <==> valid_utf8(bytes@.subrange(at as int, at + len)),
        text matches Some(s) ==> s@ == decode_utf8(bytes@.subrange(at as int, at + len)),
{
    let total: usize = bytes.len();
    assert(at + len <= total);
    let raw = slice_subrange(bytes, at, at + len);
    string_from_utf8(slice_to_vec(raw))
}

/// The big-endian 16-bit integer at `at`.
fn read_u16_at(bytes: &[u8], at: usize) -> (value: u16)
    requires
        at + 2 <= bytes@.len(),
    ensures
        value == be_u16(bytes@.subrange(at as int, at + 2)),
{
    let total: usize = bytes.len();
    assert(at + 2 <= total);
    read_u16(slice_subrange(bytes, at, at + 2))
}

/// The big-endian 32-bit integer at `at`.
fn read_u32_at(bytes: &[u8], at: usize) -> (value: u32)
    requires
        at + 4 <= bytes@.len(),
    ensures
        value == be_u32(bytes@.subrange(at as int, at + 4)),
{
    let total: usize = bytes.len();
    assert(at + 4 <= total);
    read_u32(slice_subrange(bytes, at, at + 4))
}

/// The `count` big-endian 16-bit integers that start at `at`.
fn read_u16s_at(bytes: &[u8], at: usize, count: usize) -> (values: Vec<u16>)
    requires
        at + 2 * count <= bytes@.len(),
    ensures
        values@ == be_u16s(bytes@.subrange(at as int, at + 2 * count), count as nat),
{
    let ghost raw = bytes@.subrange(at as int, at + 2 * count);
    let total: usize = bytes.len();
    let mut values: Vec<u16> = Vec::new();
    let mut i: usize = 0;
    while i < count
        invariant
            i <= count,
            total == bytes@.len(),
            at + 2 * count <= bytes@.len(),
            raw == bytes@.subrange(at as int, at + 2 * count),
            values@ == be_u16s(raw, i as nat),
        decreases count - i,
    {
        let value: u16 = read_u16_at(bytes, at + 2 * i);
        proof {
            assert(bytes@.subrange(at + 2 * i, at + 2 * i + 2) == raw.subrange(2 * i, 2 * i + 2));
            assert(values@.push(value) == be_u16s(raw, (i + 1) as nat));
        }
        values.push(value);
        i += 1;
    }
    values
}

/// Reads one client message off the front of `bytes`, as [`parse_client`]
/// says.
#[verifier::rlimit(50)]
pub fn parse_client_message(bytes: &[u8]) -> (got: Result<
    Option<(ClientToServerMessage, usize)>,
    CodecError,
>)
    ensures
        is_client_parse(got, bytes@),
{
    let len: usize = bytes.len();
    if len == 0 {
        return Ok(None);
    }
    let tag: u8 = bytes[0];
    if tag == TAG_PLATE {
        if len < 2 {
            return Ok(None);
        }
        let n: usize = bytes[1] as usize;
        if len < 6 + n {
            return Ok(None);
        }
        match read_text(bytes, 2, n) {
            Some(plate) => {
                let timestamp: u32 = read_u32_at(bytes, 2 + n);
                Ok(Some((ClientToServerMessage::Plate { plate, timestamp }, 6 + n)))
            },
            None => Err(CodecError::InvalidText),
        }
    } else if tag == TAG_WANT_HEARTBEAT {
        if len < 5 {
            return Ok(None);
        }
        let interval: u32 = read_u32_at(bytes, 1);
        Ok(Some((ClientToServerMessage::WantHeartbeat { interval }, 5)))
    } else if tag == TAG_I_AM_CAMERA {
        if len < 7 {
            return Ok(None);
        }
        let road: u16 = read_u16_at(bytes, 1);
        let mile: u16 = read_u16_at(bytes, 3);
        let limit: u16 = read_u16_at(bytes, 5);
        Ok(Some((ClientToServerMessage::IAmCamera { road, mile, limit }, 7)))
    } else if tag == TAG_I_AM_DISPATCHER {
        if len < 2 {
            return Ok(None);
        }
        let n: usize = bytes[1] as usize;
        if len < 2 + 2 * n {
            return Ok(None);
        }
        let roads: Vec<u16> = read_u16s_at(bytes, 2, n);
        Ok(Some((ClientToServerMessage::IAmDispatcher { roads }, 2 + 2 * n)))
    } else {
        Err(CodecError::UnknownMessageType { tag })
    }
}

/// Reads one server message off the front of `bytes`, as [`parse_server`]
/// says.
#[verifier::rlimit(50)]
pub fn parse_server_message(bytes: &[u8]) -> (got: Result<
    Option<(ServerToClientMessage, usize)>,
    CodecError,
>)
    ensures
        is_server_parse(got, bytes@),
{
    let len: usize = bytes.len();
    if len == 0 {
        return Ok(None);
    }
    let tag: u8 = bytes[0];
    if tag == TAG_ERROR {
        if len < 2 {
            return Ok(None);
        }
        let n: usize = bytes[1] as usize;
        if len < 2 + n {
            return Ok(None);
        }
        match read_text(bytes, 2, n) {
            Some(message) => Ok(Some((ServerToClientMessage::Error(message), 2 + n))),
            None => Err(CodecError::InvalidText),
        }
    } else if tag == TAG_TICKET {
        if len < 2 {
            return Ok(None);
        }
        let n: usize = bytes[1] as usize;
        if len < 18 + n {
            return Ok(None);
        }
        match read_text(bytes, 2, n) {
            Some(plate) => {
                let road: u16 = read_u16_at(bytes, 2 + n);
                let mile1: u16 = read_u16_at(bytes, 4 + n);
                let timestamp1: u32 = read_u32_at(bytes, 6 + n);
                let mile2: u16 = read_u16_at(bytes, 10 + n);
                let timestamp2: u32 = read_u32_at(bytes, 12 + n);
                let speed: u16 = read_u16_at(bytes, 16 + n);
                Ok(
                    Some(
                        (
                            ServerToClientMessage::Ticket {
                                plate,
                                road,
                                mile1,
                                timestamp1,
                                mile2,
                                timestamp2,
                                speed,
                            },
                            18 + n,
                        ),
                    ),
                )
            },
            None => Err(CodecError::InvalidText),
        }
    } else if tag == TAG_HEARTBEAT {
        Ok(Some((ServerToClientMessage::Heartbeat, 1)))
    } else {
        Err(CodecError::UnknownMessageType { tag })
    }
}

/// Appends a string field to `out` when the string fits one.
fn push_text(out: &mut Vec<u8>, text: &str) -> (fits: bool)
    ensures
        fits <==> text_fits(text@),
        fits ==> final(out)@ == old(out)@ + str_field(text@),
        !fits ==> final(out)@ == old(out)@,
{
    let bytes = text.as_bytes();
    let n: usize = bytes.len();
    if n > MAX_FIELD_LEN {
        return false;
    }
    out.push(n as u8);
    out.extend_from_slice(bytes);
    proof {
        assert(final(out)@ == old(out)@ + str_field(text@));
    }
    true
}

/// Appends a big-endian 16-bit integer to `out`.
fn push_u16(out: &mut Vec<u8>, value: u16)
    ensures
        final(out)@ == old(out)@ + u16_be(value),
{
    let bytes = write_u16(value);
    out.extend_from_slice(bytes.as_slice());
}

/// Appends a big-endian 32-bit integer to `out`.
fn push_u32(out: &mut Vec<u8>, value: u32)
    ensures
        final(out)@ == old(out)@ + u32_be(value),
{
    let bytes = write_u32(value);
    out.extend_from_slice(bytes.as_slice());
}

/// Appends an array of road numbers to `out` when the array fits its
/// length prefix.
#[verifier::rlimit(50)]
fn push_roads(out: &mut Vec<u8>, roads: &Vec<u16>) -> (fits: bool)
    ensures
        fits <==> roads@.len() <= MAX_FIELD_LEN,
        fits ==> final(out)@ == old(out)@ + roads_field(roads@),
        !fits ==> final(out)@ == old(out)@,
{
    let n: usize = roads.len();
    if n > MAX_FIELD_LEN {
        return false;
    }
    out.push(n as u8);
    let ghost start = out@;
    let mut i: usize = 0;
    while i < n
        invariant
            i <= n,
            n == roads@.len(),
            out@ == start + u16s_be(roads@.take(i as int)),
        decreases n - i,
    {
        let ghost before = out@;
        push_u16(out, roads[i]);
        proof {
            assert(u16s_be(roads@.take(i as int)) + u16_be(roads@[i as int]) == u16s_be(
                roads@.take(i + 1),
            ));
        }
        i += 1;
    }
    proof {
        assert(roads@.take(n as int) == roads@);
        assert(out@ == old(out)@ + roads_field(roads@));
    }
    true
}

/// The frame of a client message, as [`client_frame`] says, or
/// [`CodecError::FieldTooLong`] when a field does not fit its length prefix.
pub fn encode_client_message(message: &ClientToServerMessage) -> (got: Result<Vec<u8>, CodecError>)
    ensures
        client_encodable(message@) ==> (got matches Ok(frame) && frame@ == client_frame(message@)),
        !client_encodable(message@) ==> (got matches Err(e) && e == CodecError::FieldTooLong),
{
    let mut out: Vec<u8> = Vec::new();
    match message {
        ClientToServerMessage::Plate { plate, timestamp } => {
            out.push(TAG_PLATE);
            if !push_text(&mut out, plate.as_str()) {
                return Err(CodecError::FieldTooLong);
            }
            push_u32(&mut out, *timestamp);
        },
        ClientToServerMessage::WantHeartbeat { interval } => {
            out.push(TAG_WANT_HEARTBEAT);
            push_u32(&mut out, *interval);
        },
        ClientToServerMessage::IAmCamera { road, mile, limit } => {
            out.push(TAG_I_AM_CAMERA);
            push_u16(&mut out, *road);
            push_u16(&mut out, *mile);
            push_u16(&mut out, *limit);
        },
        ClientToServerMessage::IAmDispatcher { roads } => {
            out.push(TAG_I_AM_DISPATCHER);
            if !push_roads(&mut out, roads) {
                return Err(CodecError::FieldTooLong);
            }
        },
    }
    proof {
        assert(out@ == client_frame(message@));
    }
    Ok(out)
}

/// The frame of a server message, as [`server_frame`] says, or
/// [`CodecError::FieldTooLong`] when a field does not fit its length prefix.
pub fn encode_server_message(message: &ServerToClientMessage) -> (got: Result<Vec<u8>, CodecError>)
    ensures
        server_encodable(message@) ==> (got matches Ok(frame) && frame@ == server_frame(message@)),
        !server_encodable(message@) ==> (got matches Err(e) && e == CodecError::FieldTooLong),
{
    let mut out: Vec<u8> = Vec::new();
    match message {
        ServerToClientMessage::Error(text) => {
            out.push(TAG_ERROR);
            if !push_text(&mut out, text.as_str()) {
                return Err(CodecError::FieldTooLong);
            }
        },
        ServerToClientMessage::Ticket {
            plate,
            road,
            mile1,
            timestamp1,
            mile2,
            timestamp2,
            speed,
        } => {
            out.push(TAG_TICKET);
            if !push_text(&mut out, plate.as_str()) {
                return Err(CodecError::FieldTooLong);
            }
            push_u16(&mut out, *road);
            push_u16(&mut out, *mile1);
            push_u32(&mut out, *timestamp1);
            push_u16(&mut out, *mile2);
            push_u32(&mut out, *timestamp2);
            push_u16(&mut out, *speed);
        },
        ServerToClientMessage::Heartbeat => {
            out.push(TAG_HEARTBEAT);
        },
    }
    proof {
        assert(out@ == server_frame(message@));
    }
    Ok(out)
}

/// Whether `got`, with the buffer going from `before` to `after`, is what
/// decoding a client message off a buffer must give: a complete frame at the
/// front is taken out of the buffer and its message returned, and anything
/// else leaves the buffer alone.
pub open spec fn is_client_decode(
    got: Result<Option<ClientToServerMessage>, CodecError>,
    before: Seq<u8>,
    after: Seq<u8>,
) -> bool {
    match parse_client(before) {
        Ok(None) => got matches Ok(None) && after == before,
        Ok(Some((message, length))) => got matches Ok(Some(m)) && m@ == message && after
            == before.skip(length as int),
        Err(error) => got matches Err(e) && e == error && after == before,
    }
}

/// Whether `got`, with the buffer going from `before` to `after`, is what
/// decoding a server message off a buffer must give.
pub open spec fn is_server_decode(
    got: Result<Option<ServerToClientMessage>, CodecError>,
    before: Seq<u8>,
    after: Seq<u8>,
) -> bool {
    match parse_server(before) {
        Ok(None) => got matches Ok(None) && after == before,
        Ok(Some((message, length))) => got matches Ok(Some(m)) && m@ == message && after
            == before.skip(length as int),
        Err(error) => got matches Err(e) && e == error && after == before,
    }
}

/// Whether `got` is the failure `error`.
pub open spec fn fails_with<T>(got: Result<T, CodecError>, error: CodecError) -> bool {
    got is Err && got->Err_0 == error
}

/// Whether `bytes` are the proper beginning of a client frame: some bytes,
/// and not yet a whole frame.
pub open spec fn client_frame_cut_short(bytes: Seq<u8>) -> bool {
    bytes.len() > 0 && parse_client(bytes) is Ok && parse_client(bytes)->Ok_0 is None
}

/// Whether `bytes` are the proper beginning of a server frame: some bytes,
/// and not yet a whole frame.
pub open spec fn server_frame_cut_short(bytes: Seq<u8>) -> bool {
    bytes.len() > 0 && parse_server(bytes) is Ok && parse_server(bytes)->Ok_0 is None
}

/// Frames the messages that clients send.
///
/// A server decodes with it; a client, or a test that plays one, encodes.
#[derive(Debug, Clone, Copy)]
pub struct ClientToServerCodec;

/// Frames the messages that the server sends.
///
/// A server encodes with it; a client, or a test that plays one, decodes.
#[derive(Debug, Clone, Copy)]
pub struct ServerToClientCodec;

impl ClientToServerCodec {
    /// Takes the next message out of `src`, if a whole frame is buffered.
    ///
    /// `Ok(None)` asks for more bytes.  An error is final: no later bytes
    /// can make the buffer start with a frame.
    pub fn decode(&mut self, src: &mut BytesMut) -> (got: Result<
        Option<ClientToServerMessage>,
        CodecError,
    >)
        ensures
            is_client_decode(got, buffered(old(src)), buffered(final(src))),
    {
        let parsed = parse_client_message(as_slice(src));
        match parsed {
            Ok(Some((message, length))) => {
                advance(src, length);
                Ok(Some(message))
            },
            Ok(None) => Ok(None),
            Err(error) => Err(error),
        }
    }

    /// Like [`decode`](Self::decode), for a stream that has ended: bytes
    /// that are left and hold no whole frame are a truncated frame.
    pub fn decode_eof(&mut self, src: &mut BytesMut) -> (got: Result<
        Option<ClientToServerMessage>,
        CodecError,
    >)
        ensures
            client_frame_cut_short(buffered(old(src))) ==> fails_with(got, CodecError::Truncated)
                && buffered(final(src)) == buffered(old(src)),
            !client_frame_cut_short(buffered(old(src))) ==> is_client_decode(
                got,
                buffered(old(src)),
                buffered(final(src)),
            ),
    {
        let got = self.decode(src);
        match got {
            Ok(None) => {
                if src.len() > 0 {
                    Err(CodecError::Truncated)
                } else {
                    Ok(None)
                }
            },
            other => other,
        }
    }

    /// Appends the frame of `item` to `dst`, or leaves `dst` alone and fails
    /// with [`CodecError::FieldTooLong`] when a field of `item` does not fit
    /// its length prefix.
    pub fn encode(&mut self, item: ClientToServerMessage, dst: &mut BytesMut) -> (got: Result<
        (),
        CodecError,
    >)
        requires
            client_encodable(item@) ==> buffered(old(dst)).len() + client_frame(item@).len()
                <= isize::MAX,
        ensures
            client_encodable(item@) ==> got is Ok && buffered(final(dst)) == buffered(old(dst))
                + client_frame(item@),
            !client_encodable(item@) ==> fails_with(got, CodecError::FieldTooLong) && buffered(
                final(dst),
            ) == buffered(old(dst)),
    {
        match encode_client_message(&item) {
            Ok(frame) => {
                dst.extend_from_slice(frame.as_slice());
                Ok(())
            },
            Err(error) => Err(error),
        }
    }
}

impl ServerToClientCodec {
    /// Takes the next message out of `src`, if a whole frame is buffered.
    ///
    /// `Ok(None)` asks for more bytes.  An error is final: no later bytes
    /// can make the buffer start with a frame.
    pub fn decode(&mut self, src: &mut BytesMut) -> (got: Result<
        Option<ServerToClientMessage>,
        CodecError,
    >)
        ensures
            is_server_decode(got, buffered(old(src)), buffered(final(src))),
    {
        let parsed = parse_server_message(as_slice(src));
        match parsed {
            Ok(Some((message, length))) => {
                advance(src, length);
                Ok(Some(message))
            },
            Ok(None) => Ok(None),
            Err(error) => Err(error),
        }
    }

    /// Like [`decode`](Self::decode), for a stream that has ended: bytes
    /// that are left and hold no whole frame are a truncated frame.
    pub fn decode_eof(&mut self, src: &mut BytesMut) -> (got: Result<
        Option<ServerToClientMessage>,
        CodecError,
    >)
        ensures
            server_frame_cut_short(buffered(old(src))) ==> fails_with(got, CodecError::Truncated)
                && buffered(final(src)) == buffered(old(src)),
            !server_frame_cut_short(buffered(old(src))) ==> is_server_decode(
                got,
                buffered(old(src)),
                buffered(final(src)),
            ),
    {
        let got = self.decode(src);
        match got {
            Ok(None) => {
                if src.len() > 0 {
                    Err(CodecError::Truncated)
                } else {
                    Ok(None)
                }
            },
            other => other,
        }
    }

    /// Appends the frame of `item` to `dst`, or leaves `dst` alone and fails
    /// with [`CodecError::FieldTooLong`] when a field of `item` does not fit
    /// its length prefix.
    pub fn encode(&mut self, item: ServerToClientMessage, dst: &mut BytesMut) -> (got: Result<
        (),
        CodecError,
    >)
        requires
            server_encodable(item@) ==> buffered(old(dst)).len() + server_frame(item@).len()
                <= isize::MAX,
        ensures
            server_encodable(item@) ==> got is Ok && buffered(final(dst)) == buffered(old(dst))
                + server_frame(item@),
            !server_encodable(item@) ==> fails_with(got, CodecError::FieldTooLong) && buffered(
                final(dst),
            ) == buffered(old(dst)),
    {
        match encode_server_message(&item) {
            Ok(frame) => {
                dst.extend_from_slice(frame.as_slice());
                Ok(())
            },
            Err(error) => Err(error),
        }
    }
}

/// A string field is read back as the string it was written from.
proof fn lemma_str_field(text: Seq<char>, before: Seq<u8>, after: Seq<u8>)
    requires
        text_fits(text),
    ensures
        str_field(text).len() == 1 + encode_utf8(text).len(),
        (before + str_field(text) + after)[before.len() as int] == encode_utf8(text).len(),
        (before + str_field(text) + after).subrange(
            before.len() as int + 1,
            before.len() as int + 1 + encode_utf8(text).len(),
        ) == encode_utf8(text),
        valid_utf8(encode_utf8(text)),
        decode_utf8(encode_utf8(text)) == text,
{
    encode_utf8_valid_utf8(text);
    encode_utf8_decode_utf8(text);
    assert((before + str_field(text) + after).subrange(
        before.len() as int + 1,
        before.len() as int + 1 + encode_utf8(text).len(),
    ) =~= encode_utf8(text));
}

/// A run of 16-bit integers is read back as it was written.
proof fn lemma_u16s_round_trip(values: Seq<u16>)
    ensures
        u16s_be(values).len() == 2 * values.len(),
        be_u16s(u16s_be(values), values.len()) == values,
{
    assert forall|i: int| 0 <= i < values.len() implies be_u16s(u16s_be(values), values.len())[i]
        == values[i] by {
        let pair = u16s_be(values).subrange(2 * i, 2 * i + 2);
        assert(pair[0] == u16_be(values[i])[0]);
        assert(pair[1] == u16_be(values[i])[1]);
    }
    assert(be_u16s(u16s_be(values), values.len()) =~= values);
}

/// A run of bytes that was read as 16-bit integers is written back as it
/// was.
proof fn lemma_u16s_bytes_round_trip(bytes: Seq<u8>, count: nat)
    requires
        bytes.len() == 2 * count,
    ensures
        u16s_be(be_u16s(bytes, count)) == bytes,
{
    assert forall|k: int| 0 <= k < 2 * count implies u16s_be(be_u16s(bytes, count))[k]
        == bytes[k] by {
        let i = k / 2;
        let pair = bytes.subrange(2 * i, 2 * i + 2);
        lemma_u16_bytes_round_trip(pair);
        assert(pair.take(2) =~= pair);
        assert(u16_be(be_u16(pair) as u16)[k % 2] == pair[k % 2]);
    }
    assert(u16s_be(be_u16s(bytes, count)) =~= bytes);
}

/// Decoding undoes encoding: the frame of a client message, followed by any
/// bytes at all, parses as that message and as nothing but its frame.
#[verifier::rlimit(50)]
pub proof fn lemma_client_decode_of_encode(message: ClientMessage, rest: Seq<u8>)
    requires
        client_encodable(message),
    ensures
        parse_client(client_frame(message) + rest) == Ok::<_, CodecError>(
            Some((message, client_frame(message).len())),
        ),
{
    let bytes = client_frame(message) + rest;
    match message {
        ClientMessage::Plate { plate, timestamp } => {
            let n = encode_utf8(plate).len() as int;
            lemma_str_field(plate, seq![TAG_PLATE], u32_be(timestamp) + rest);
            assert(bytes =~= seq![TAG_PLATE] + str_field(plate) + (u32_be(timestamp) + rest));
            assert(bytes.subrange(2 + n, 6 + n) =~= u32_be(timestamp));
            lemma_u32_round_trip(timestamp, Seq::empty());
            assert(u32_be(timestamp) + Seq::<u8>::empty() =~= u32_be(timestamp));
        },
        ClientMessage::WantHeartbeat { interval } => {
            lemma_u32_round_trip(interval, Seq::empty());
            assert(bytes.subrange(1, 5) =~= u32_be(interval) + Seq::<u8>::empty());
        },
        ClientMessage::IAmCamera { road, mile, limit } => {
            lemma_u16_round_trip(road, Seq::empty());
            lemma_u16_round_trip(mile, Seq::empty());
            lemma_u16_round_trip(limit, Seq::empty());
            assert(bytes.subrange(1, 3) =~= u16_be(road) + Seq::<u8>::empty());
            assert(bytes.subrange(3, 5) =~= u16_be(mile) + Seq::<u8>::empty());
            assert(bytes.subrange(5, 7) =~= u16_be(limit) + Seq::<u8>::empty());
        },
        ClientMessage::IAmDispatcher { roads } => {
            let n = roads.len() as int;
            lemma_u16s_round_trip(roads);
            assert(bytes[1] == n);
            assert(bytes.subrange(2, 2 + 2 * n) =~= u16s_be(roads));
        },
    }
}

/// Encoding undoes decoding: when bytes parse as a client message, the
/// message is encodable and its frame is exactly the bytes that the parse
/// consumed.
#[verifier::rlimit(50)]
pub proof fn lemma_client_encode_of_decode(bytes: Seq<u8>)
    requires
        parse_client(bytes) is Ok,
        parse_client(bytes)->Ok_0 is Some,
    ensures
        ({
            let (message, length) = parse_client(bytes)->Ok_0->Some_0;
            &&& length <= bytes.len()
            &&& client_encodable(message)
            &&& client_frame(message) == bytes.take(length as int)
        }),
{
    let (message, length) = parse_client(bytes)->Ok_0->Some_0;
    match message {
        ClientMessage::Plate { plate, timestamp } => {
            let n = bytes[1] as int;
            let raw = bytes.subrange(2, 2 + n);
            decode_utf8_encode_utf8(raw);
            lemma_u32_bytes_round_trip(bytes.subrange(2 + n, 6 + n));
            assert(bytes.subrange(2 + n, 6 + n).take(4) =~= bytes.subrange(2 + n, 6 + n));
            assert(client_frame(message) =~= bytes.take(length as int));
        },
        ClientMessage::WantHeartbeat { interval } => {
            lemma_u32_bytes_round_trip(bytes.subrange(1, 5));
            assert(bytes.subrange(1, 5).take(4) =~= bytes.subrange(1, 5));
            assert(client_frame(message) =~= bytes.take(length as int));
        },
        ClientMessage::IAmCamera { road, mile, limit } => {
            lemma_u16_bytes_round_trip(bytes.subrange(1, 3));
            lemma_u16_bytes_round_trip(bytes.subrange(3, 5));
            lemma_u16_bytes_round_trip(bytes.subrange(5, 7));
            assert(bytes.subrange(1, 3).take(2) =~= bytes.subrange(1, 3));
            assert(bytes.subrange(3, 5).take(2) =~= bytes.subrange(3, 5));
            assert(bytes.subrange(5, 7).take(2) =~= bytes.subrange(5, 7));
            assert(client_frame(message) =~= bytes.take(length as int));
        },
        ClientMessage::IAmDispatcher { roads } => {
            let n = bytes[1] as int;
            lemma_u16s_bytes_round_trip(bytes.subrange(2, 2 + 2 * n), n as nat);
            assert(client_frame(message) =~= bytes.take(length as int));
        },
    }
}

/// A frame that has not arrived whole asks for more bytes: every proper
/// prefix of a client frame parses as incomplete.
pub proof fn lemma_client_prefix_incomplete(message: ClientMessage, k: int)
    requires
        client_encodable(message),
        0 <= k < client_frame(message).len(),
    ensures
        parse_client(client_frame(message).take(k)) == Ok::<_, CodecError>(
            None::<(ClientMessage, nat)>,
        ),
{
    let prefix = client_frame(message).take(k);
    match message {
        ClientMessage::Plate { plate, timestamp } => {
            lemma_str_field(plate, seq![TAG_PLATE], u32_be(timestamp));
        },
        ClientMessage::IAmDispatcher { roads } => {
            if k >= 2 {
                assert(prefix[1] == roads.len());
            }
        },
        _ => {},
    }
}

/// A field is read back from where it was written: between what stands
/// before it and what stands after it.
proof fn lemma_field_at(before: Seq<u8>, field: Seq<u8>, after: Seq<u8>)
    ensures
        (before + field + after).subrange(
            before.len() as int,
            before.len() as int + field.len(),
        ) == field,
        (before + field + after).len() == before.len() + field.len() + after.len(),
{
    assert((before + field + after).subrange(
        before.len() as int,
        before.len() as int + field.len(),
    ) =~= field);
}

/// The frame of a ticket, followed by any bytes at all, parses as the
/// ticket.
#[verifier::rlimit(50)]
proof fn lemma_ticket_decode_of_encode(
    plate: Seq<char>,
    road: u16,
    mile1: u16,
    timestamp1: u32,
    mile2: u16,
    timestamp2: u32,
    speed: u16,
    rest: Seq<u8>,
)
    requires
        text_fits(plate),
    ensures
        ({
            let message = ServerMessage::Ticket {
                plate,
                road,
                mile1,
                timestamp1,
                mile2,
                timestamp2,
                speed,
            };
            parse_server(server_frame(message) + rest) == Ok::<_, CodecError>(
                Some((message, server_frame(message).len())),
            )
        }),
{
    let message = ServerMessage::Ticket { plate, road, mile1, timestamp1, mile2, timestamp2, speed };
    let bytes = server_frame(message) + rest;
    let n = encode_utf8(plate).len() as int;
    let head = seq![TAG_TICKET] + str_field(plate);
    let f1 = u16_be(road);
    let f2 = u16_be(mile1);
    let f3 = u32_be(timestamp1);
    let f4 = u16_be(mile2);
    let f5 = u32_be(timestamp2);
    let f6 = u16_be(speed);
    lemma_str_field(plate, seq![TAG_TICKET], f1 + f2 + f3 + f4 + f5 + f6 + rest);
    assert(head.len() == 2 + n);
    assert(bytes =~= seq![TAG_TICKET] + str_field(plate) + (f1 + f2 + f3 + f4 + f5 + f6 + rest));
    lemma_u16_round_trip(road, Seq::empty());
    lemma_u16_round_trip(mile1, Seq::empty());
    lemma_u32_round_trip(timestamp1, Seq::empty());
    lemma_u16_round_trip(mile2, Seq::empty());
    lemma_u32_round_trip(timestamp2, Seq::empty());
    lemma_u16_round_trip(speed, Seq::empty());
    assert(f1 + Seq::<u8>::empty() =~= f1);
    assert(f2 + Seq::<u8>::empty() =~= f2);
    assert(f3 + Seq::<u8>::empty() =~= f3);
    assert(f4 + Seq::<u8>::empty() =~= f4);
    assert(f5 + Seq::<u8>::empty() =~= f5);
    assert(f6 + Seq::<u8>::empty() =~= f6);
    assert(bytes.subrange(2 + n, 4 + n) == f1) by {
        lemma_field_at(head, f1, f2 + f3 + f4 + f5 + f6 + rest);
        assert(bytes =~= head + f1 + (f2 + f3 + f4 + f5 + f6 + rest));
    }
    assert(bytes.subrange(4 + n, 6 + n) == f2) by {
        lemma_field_at(head + f1, f2, f3 + f4 + f5 + f6 + rest);
        assert(bytes =~= head + f1 + f2 + (f3 + f4 + f5 + f6 + rest));
    }
    assert(bytes.subrange(6 + n, 10 + n) == f3) by {
        lemma_field_at(head + f1 + f2, f3, f4 + f5 + f6 + rest);
        assert(bytes =~= head + f1 + f2 + f3 + (f4 + f5 + f6 + rest));
    }
    assert(bytes.subrange(10 + n, 12 + n) == f4) by {
        lemma_field_at(head + f1 + f2 + f3, f4, f5 + f6 + rest);
        assert(bytes =~= head + f1 + f2 + f3 + f4 + (f5 + f6 + rest));
    }
    assert(bytes.subrange(12 + n, 16 + n) == f5) by {
        lemma_field_at(head + f1 + f2 + f3 + f4, f5, f6 + rest);
        assert(bytes =~= head + f1 + f2 + f3 + f4 + f5 + (f6 + rest));
    }
    assert(bytes.subrange(16 + n, 18 + n) == f6) by {
        lemma_field_at(head + f1 + f2 + f3 + f4 + f5, f6, rest);
    }
    assert(server_frame(message).len() == 18 + n);
}

/// Decoding undoes encoding: the frame of a server message, followed by any
/// bytes at all, parses as that message and as nothing but its frame.
pub proof fn lemma_server_decode_of_encode(message: ServerMessage, rest: Seq<u8>)
    requires
        server_encodable(message),
    ensures
        parse_server(server_frame(message) + rest) == Ok::<_, CodecError>(
            Some((message, server_frame(message).len())),
        ),
{
    match message {
        ServerMessage::Error(text) => {
            lemma_str_field(text, seq![TAG_ERROR], rest);
        },
        ServerMessage::Ticket { plate, road, mile1, timestamp1, mile2, timestamp2, speed } => {
            lemma_ticket_decode_of_encode(
                plate,
                road,
                mile1,
                timestamp1,
                mile2,
                timestamp2,
                speed,
                rest,
            );
        },
        ServerMessage::Heartbeat => {},
    }
}

/// Encoding undoes decoding: when bytes parse as a server message, the
/// message is encodable and its frame is exactly the bytes that the parse
/// consumed.
#[verifier::rlimit(50)]
pub proof fn lemma_server_encode_of_decode(bytes: Seq<u8>)
    requires
        parse_server(bytes) is Ok,
        parse_server(bytes)->Ok_0 is Some,
    ensures
        ({
            let (message, length) = parse_server(bytes)->Ok_0->Some_0;
            &&& length <= bytes.len()
            &&& server_encodable(message)
            &&& server_frame(message) == bytes.take(length as int)
        }),
{
    let (message, length) = parse_server(bytes)->Ok_0->Some_0;
    match message {
        ServerMessage::Error(text) => {
            let n = bytes[1] as int;
            decode_utf8_encode_utf8(bytes.subrange(2, 2 + n));
            assert(server_frame(message) =~= bytes.take(length as int));
        },
        ServerMessage::Ticket { plate, road, mile1, timestamp1, mile2, timestamp2, speed } => {
            let n = bytes[1] as int;
            decode_utf8_encode_utf8(bytes.subrange(2, 2 + n));
            lemma_u16_bytes_round_trip(bytes.subrange(2 + n, 4 + n));
            lemma_u16_bytes_round_trip(bytes.subrange(4 + n, 6 + n));
            lemma_u32_bytes_round_trip(bytes.subrange(6 + n, 10 + n));
            lemma_u16_bytes_round_trip(bytes.subrange(10 + n, 12 + n));
            lemma_u32_bytes_round_trip(bytes.subrange(12 + n, 16 + n));
            lemma_u16_bytes_round_trip(bytes.subrange(16 + n, 18 + n));
            assert(bytes.subrange(2 + n, 4 + n).take(2) =~= bytes.subrange(2 + n, 4 + n));
            assert(bytes.subrange(4 + n, 6 + n).take(2) =~= bytes.subrange(4 + n, 6 + n));
            assert(bytes.subrange(6 + n, 10 + n).take(4) =~= bytes.subrange(6 + n, 10 + n));
            assert(bytes.subrange(10 + n, 12 + n).take(2) =~= bytes.subrange(10 + n, 12 + n));
            assert(bytes.subrange(12 + n, 16 + n).take(4) =~= bytes.subrange(12 + n, 16 + n));
            assert(bytes.subrange(16 + n, 18 + n).take(2) =~= bytes.subrange(16 + n, 18 + n));
            assert(server_frame(message) =~= bytes.take(length as int));
        },
        ServerMessage::Heartbeat => {
            assert(server_frame(message) =~= bytes.take(length as int));
        },
    }
}

/// A frame that has not arrived whole asks for more bytes: every proper
/// prefix of a server frame parses as incomplete.
pub proof fn lemma_server_prefix_incomplete(message: ServerMessage, k: int)
    requires
        server_encodable(message),
        0 <= k < server_frame(message).len(),
    ensures
        parse_server(server_frame(message).take(k)) == Ok::<_, CodecError>(
            None::<(ServerMessage, nat)>,
        ),
{
    match message {
        ServerMessage::Error(text) => {
            lemma_str_field(text, seq![TAG_ERROR], Seq::empty());
        },
        ServerMessage::Ticket { plate, road, mile1, timestamp1, mile2, timestamp2, speed } => {
            let tail = u16_be(road) + u16_be(mile1) + u32_be(timestamp1) + u16_be(mile2) + u32_be(
                timestamp2,
            ) + u16_be(speed);
            lemma_str_field(plate, seq![TAG_TICKET], tail);
            assert(server_frame(message) =~= seq![TAG_TICKET] + str_field(plate) + tail);
        },
        ServerMessage::Heartbeat => {},
    }
}

} // verus!
