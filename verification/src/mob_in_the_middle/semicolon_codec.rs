//! A codec for text lines that end in a semicolon.
//!
//! A line is everything up to the next `;`.  The codec may be given a
//! maximum line length: when more than that many bytes are buffered without
//! a semicolon among them, the line is given up with an error, and what is
//! left of it, up to and including its semicolon, is thrown away by the
//! calls that follow.
//!
//! The codec remembers how far it has searched, so that bytes that hold no
//! semicolon are not looked at twice.  It relies on being handed the same
//! buffer again, with more bytes at its end.

use crate::buffer::{advance, as_slice, buffered, put, put_u8};
use crate::text::str_from_utf8;
use bytes::BytesMut;
use std::io;
use vstd::prelude::*;
use vstd::slice::slice_subrange;
use vstd::utf8::{
    decode_utf8, encode_utf8, encode_utf8_decode_utf8, encode_utf8_valid_utf8, valid_utf8,
};

verus! {

/// `std::io::Error`, carried through verified code as an opaque value.
#[verifier::external_type_specification]
#[verifier::external_body]
pub struct ExIoError(io::Error);

/// The byte that ends a line.
pub const DELIMITER: u8 = 0x3b;

/// The codec's state.
#[derive(Clone, Debug, Eq, PartialEq, Ord, PartialOrd, Hash)]
pub struct SemicolonCodec {
    // How far the buffer has been searched for a semicolon.  The next
    // search starts here.
    next_index: usize,
    // The maximum length of a line.  With `usize::MAX`, a line is as long
    // as it takes to reach a semicolon.
    max_length: usize,
    // Whether the rest of a line that was too long is being thrown away.
    is_discarding: bool,
}

/// Why a line could not be read or written.
#[derive(Debug)]
pub enum SemicolonCodecCodecError {
    /// The maximum line length was exceeded.
    MaxLineLengthExceeded,
    /// An IO error occurred.
    Io(io::Error),
}

impl From<io::Error> for SemicolonCodecCodecError {
    fn from(e: io::Error) -> (error: SemicolonCodecCodecError) {
        SemicolonCodecCodecError::Io(e)
    }
}

impl vstd::std_specs::convert::FromSpecImpl<io::Error> for SemicolonCodecCodecError {
    open spec fn obeys_from_spec() -> bool {
        true
    }

    open spec fn from_spec(e: io::Error) -> SemicolonCodecCodecError {
        SemicolonCodecCodecError::Io(e)
    }
}

/// The mathematical value of a [`SemicolonCodec`].
pub struct Framer {
    pub next_index: int,
    pub max_length: int,
    pub is_discarding: bool,
}

impl View for SemicolonCodec {
    type V = Framer;

    closed spec fn view(&self) -> Framer {
        Framer {
            next_index: self.next_index as int,
            max_length: self.max_length as int,
            is_discarding: self.is_discarding,
        }
    }
}

/// What one call of `decode` found.
pub enum Found {
    /// No whole line yet: more bytes are needed.
    Nothing,
    /// A line, as the bytes before its semicolon.
    Line(Seq<u8>),
    /// More than the maximum length without a semicolon.
    TooLong,
}

/// The index of the first semicolon of `bytes` from `from` on and before
/// `to`, or `to` when there is none.
pub open spec fn first_delimiter(bytes: Seq<u8>, from: int, to: int) -> int
    decreases to - from,
{
    if from >= to {
        to
    } else if bytes[from] == DELIMITER {
        from
    } else {
        first_delimiter(bytes, from + 1, to)
    }
}

/// How far a search for a semicolon goes: one byte beyond the maximum line
/// length, or to the end of the buffer.
pub open spec fn search_limit(codec: Framer, bytes: Seq<u8>) -> int {
    if codec.max_length + 1 <= bytes.len() {
        codec.max_length + 1
    } else {
        bytes.len() as int
    }
}

/// What `decode` does to a codec and a buffer: the codec and the buffer
/// afterwards, and what was found.
///
/// A codec that is not discarding looks for a semicolon from where it
/// stopped the last time.  If it finds one, the bytes before it are the
/// line, and they and the semicolon leave the buffer.  If it finds none and
/// the buffer holds more than the maximum, it reports the line as too long
/// and starts discarding.  Otherwise it remembers how far it has searched.
///
/// A codec that is discarding drops bytes up to and including the next
/// semicolon and then reads on as usual; where it finds no semicolon, it
/// drops what it has searched and goes on discarding.
pub open spec fn decode_model(codec: Framer, bytes: Seq<u8>) -> (Framer, Seq<u8>, Found)
    decreases bytes.len(), (if codec.is_discarding { 1int } else { 0int }),
{
    let limit = search_limit(codec, bytes);
    let at = first_delimiter(bytes, codec.next_index, limit);
    if codec.max_length < 0 || codec.next_index < 0 || codec.next_index > limit {
        (codec, bytes, Found::Nothing)
    } else if codec.is_discarding {
        if 0 <= at < limit {
            decode_model(
                Framer { next_index: 0, is_discarding: false, ..codec },
                bytes.skip(at + 1),
            )
        } else if limit >= bytes.len() {
            (Framer { next_index: 0, ..codec }, bytes.skip(limit), Found::Nothing)
        } else {
            decode_model(Framer { next_index: 0, ..codec }, bytes.skip(limit))
        }
    } else {
        if at < limit {
            (Framer { next_index: 0, ..codec }, bytes.skip(at + 1), Found::Line(bytes.take(at)))
        } else if bytes.len() > codec.max_length {
            (Framer { is_discarding: true, ..codec }, bytes, Found::TooLong)
        } else {
            (Framer { next_index: limit, ..codec }, bytes, Found::Nothing)
        }
    }
}

/// Whether `got` is what `decode` returns for what it found: a line comes
/// back as the string that its bytes encode, and as an IO error when they
/// are not UTF-8.
pub open spec fn is_decoded(got: Result<Option<String>, SemicolonCodecCodecError>, found: Found) -> bool {
    match found {
        Found::Nothing => got matches Ok(None),
        Found::Line(raw) => if valid_utf8(raw) {
            got matches Ok(Some(line)) && line@ == decode_utf8(raw)
        } else {
            got matches Err(SemicolonCodecCodecError::Io(_))
        },
        Found::TooLong => got matches Err(SemicolonCodecCodecError::MaxLineLengthExceeded),
    }
}

/// `io::Error::new` with the kind `InvalidData` and the given message.
#[verifier::external_body]
fn invalid_data(message: &str) -> io::Error {
    io::Error::new(io::ErrorKind::InvalidData, message)
}

/// The bytes as a string slice, or an IO error of the kind `InvalidData`
/// when they are not UTF-8.
pub fn utf8(buf: &[u8]) -> (text: Result<&str, io::Error>)
    ensures
        text is Ok <==> valid_utf8(buf@),
        text matches Ok(s) ==> s@ == decode_utf8(buf@),
{
    match str_from_utf8(buf) {
        Some(text) => Ok(text),
        None => Err(invalid_data("Unable to decode input as UTF8")),
    }
}

/// The index of the first semicolon of `bytes` from `from` on and before
/// `to`, or `to` when there is none.
fn find_delimiter(bytes: &[u8], from: usize, to: usize) -> (at: usize)
    requires
        from <= to <= bytes@.len(),
    ensures
        at == first_delimiter(bytes@, from as int, to as int),
        from <= at <= to,
{
    let mut at: usize = from;
    while at < to
        invariant
            from <= at <= to <= bytes@.len(),
            first_delimiter(bytes@, from as int, to as int) == first_delimiter(
                bytes@,
                at as int,
                to as int,
            ),
        decreases to - at,
    {
        if bytes[at] == DELIMITER {
            return at;
        }
        at += 1;
    }
    at
}

impl SemicolonCodec {
    /// The invariant of the codec: it never searches beyond one byte more
    /// than the maximum line length.
    pub closed spec fn wf(&self) -> bool {
        self.next_index <= self.max_length + 1
    }

    /// A codec without a maximum line length.
    pub fn new() -> (codec: SemicolonCodec)
        ensures
            codec.wf(),
            codec@ == (Framer { next_index: 0, max_length: usize::MAX as int, is_discarding: false }),
    {
        SemicolonCodec { next_index: 0, max_length: usize::MAX, is_discarding: false }
    }

    /// A codec for lines of at most `capacity` bytes.
    pub fn with_capacity(capacity: usize) -> (codec: SemicolonCodec)
        ensures
            codec.wf(),
            codec@ == (Framer { next_index: 0, max_length: capacity as int, is_discarding: false }),
    {
        SemicolonCodec { next_index: 0, max_length: capacity, is_discarding: false }
    }

    /// The maximum length of a line.
    pub fn max_length(&self) -> (max: usize)
        ensures
            max == self@.max_length,
    {
        self.max_length
    }

    /// How far the codec has searched the buffer that it was last given.
    pub fn next_index(&self) -> (index: usize)
        ensures
            index == self@.next_index,
    {
        self.next_index
    }

    /// Takes the next line out of `buf`, if `buf` holds one.
    ///
    /// The codec must not have searched beyond the end of `buf`, as is the
    /// case when `buf` is the buffer of the last call with more bytes at its
    /// end, or when the codec is new.
    #[verifier::rlimit(50)]
    pub fn decode(&mut self, buf: &mut BytesMut) -> (got: Result<
        Option<String>,
        SemicolonCodecCodecError,
    >)
        requires
            old(self).wf(),
            old(self)@.next_index <= buffered(old(buf)).len(),
        ensures
            final(self).wf(),
            final(self)@.next_index <= buffered(final(buf)).len(),
            final(self)@ == decode_model(old(self)@, buffered(old(buf))).0,
            buffered(final(buf)) == decode_model(old(self)@, buffered(old(buf))).1,
            is_decoded(got, decode_model(old(self)@, buffered(old(buf))).2),
    {
        loop
            invariant
                self.wf(),
                self@.next_index <= buffered(buf).len(),
                decode_model(self@, buffered(buf)) == decode_model(old(self)@, buffered(old(buf))),
            decreases buffered(buf).len(), (if self.is_discarding { 1int } else { 0int }),
        {
            let ghost before = buffered(buf);
            let len: usize = buf.len();
            let limit: usize = if self.max_length < len {
                self.max_length + 1
            } else {
                len
            };
            let at: usize = find_delimiter(as_slice(buf), self.next_index, limit);
            if self.is_discarding {
                if at < limit {
                    advance(buf, at + 1);
                    self.is_discarding = false;
                    self.next_index = 0;
                } else {
                    advance(buf, limit);
                    self.next_index = 0;
                    if buf.len() == 0 {
                        return Ok(None);
                    }
                }
            } else {
                if at < limit {
                    self.next_index = 0;
                    let line = buf.split_to(at + 1);
                    let raw = slice_subrange(as_slice(&line), 0, at);
                    proof {
                        assert(raw@ =~= before.take(at as int));
                    }
                    return match utf8(raw) {
                        Ok(text) => Ok(Some(text.to_owned())),
                        Err(error) => Err(SemicolonCodecCodecError::Io(error)),
                    };
                } else if len > self.max_length {
                    self.is_discarding = true;
                    return Err(SemicolonCodecCodecError::MaxLineLengthExceeded);
                } else {
                    self.next_index = limit;
                    return Ok(None);
                }
            }
        }
    }

    /// Appends `line` and a semicolon to `buf`.
    pub fn encode(&mut self, line: &str, buf: &mut BytesMut) -> (got: Result<
        (),
        SemicolonCodecCodecError,
    >)
        requires
            buffered(old(buf)).len() + encode_utf8(line@).len() + 1 <= isize::MAX,
        ensures
            got is Ok,
            *final(self) == *old(self),
            buffered(final(buf)) == buffered(old(buf)) + encode_utf8(line@).push(DELIMITER),
    {
        let bytes = line.as_bytes();
        buf.reserve(bytes.len() + 1);
        put(buf, bytes);
        put_u8(buf, DELIMITER);
        proof {
            assert(buffered(buf) =~= buffered(old(buf)) + encode_utf8(line@).push(DELIMITER));
        }
        Ok(())
    }
}

/// Whether none of `bytes` is a semicolon.
pub open spec fn no_delimiter(bytes: Seq<u8>) -> bool {
    forall|i: int| 0 <= i < bytes.len() ==> bytes[i] != DELIMITER
}

/// A search that starts within a stretch without a semicolon runs to the
/// end of the stretch or of the search.
proof fn lemma_search_past(bytes: Seq<u8>, from: int, to: int, clear: int)
    requires
        0 <= from <= clear <= bytes.len(),
        from <= to <= bytes.len(),
        forall|i: int| from <= i < clear ==> bytes[i] != DELIMITER,
    ensures
        to <= clear ==> first_delimiter(bytes, from, to) == to,
        clear < to && bytes[clear] == DELIMITER ==> first_delimiter(bytes, from, to) == clear,
    decreases clear - from,
{
    if from < clear && from < to {
        lemma_search_past(bytes, from + 1, to, clear);
    }
}

/// A line that fits the maximum length, ends in a semicolon and holds none
/// is taken out of the buffer whole, and what follows it stays.
pub proof fn lemma_line_is_found(codec: Framer, line: Seq<u8>, rest: Seq<u8>)
    requires
        !codec.is_discarding,
        codec.next_index == 0,
        0 <= codec.max_length,
        line.len() <= codec.max_length,
        no_delimiter(line),
    ensures
        decode_model(codec, line.push(DELIMITER) + rest) == (codec, rest, Found::Line(line)),
{
    let bytes = line.push(DELIMITER) + rest;
    let limit = search_limit(codec, bytes);
    lemma_search_past(bytes, 0, limit, line.len() as int);
    assert(bytes.skip(line.len() as int + 1) =~= rest);
    assert(bytes.take(line.len() as int) =~= line);
}

/// Decoding undoes encoding: a line of text without a semicolon that fits
/// the maximum length, once written and followed by a semicolon and by
/// whatever else, is read back as it was.
pub proof fn lemma_decode_of_encode(
    codec: Framer,
    text: Seq<char>,
    rest: Seq<u8>,
    got: Result<Option<String>, SemicolonCodecCodecError>,
)
    requires
        !codec.is_discarding,
        codec.next_index == 0,
        0 <= codec.max_length,
        encode_utf8(text).len() <= codec.max_length,
        no_delimiter(encode_utf8(text)),
        is_decoded(got, decode_model(codec, encode_utf8(text).push(DELIMITER) + rest).2),
    ensures
        decode_model(codec, encode_utf8(text).push(DELIMITER) + rest).1 == rest,
        got matches Ok(Some(line)) && line@ == text,
{
    lemma_line_is_found(codec, encode_utf8(text), rest);
    encode_utf8_valid_utf8(text);
    encode_utf8_decode_utf8(text);
}

/// Bytes without a semicolon that fit the maximum length are kept until
/// more arrive, and are not searched again.
pub proof fn lemma_partial_line_waits(codec: Framer, bytes: Seq<u8>)
    requires
        !codec.is_discarding,
        0 <= codec.next_index <= bytes.len(),
        bytes.len() <= codec.max_length,
        no_delimiter(bytes),
    ensures
        decode_model(codec, bytes) == (
            Framer { next_index: bytes.len() as int, ..codec },
            bytes,
            Found::Nothing,
        ),
{
    lemma_search_past(bytes, codec.next_index, bytes.len() as int, bytes.len() as int);
}

/// More bytes than the maximum length without a semicolon among them are
/// an error, and the call after it throws them away, up to and including
/// the semicolon that ends the line.
#[verifier::rlimit(50)]
pub proof fn lemma_long_line_is_dropped(codec: Framer, bytes: Seq<u8>, line: Seq<u8>, rest: Seq<u8>)
    requires
        !codec.is_discarding,
        codec.next_index == 0,
        0 <= codec.max_length < bytes.len(),
        no_delimiter(bytes),
        line.len() <= codec.max_length,
        no_delimiter(line),
    ensures
        decode_model(codec, bytes) == (
            Framer { is_discarding: true, ..codec },
            bytes,
            Found::TooLong,
        ),
        decode_model(
            Framer { is_discarding: true, ..codec },
            bytes.take(codec.max_length + 1).push(DELIMITER) + line.push(DELIMITER) + rest,
        ) == (codec, rest, Found::Line(line)),
{
    let limit = codec.max_length + 1;
    lemma_search_past(bytes, 0, limit, bytes.len() as int);
    let discarding = Framer { is_discarding: true, ..codec };
    let head = bytes.take(limit);
    let again = head.push(DELIMITER) + line.push(DELIMITER) + rest;
    assert forall|i: int| 0 <= i < limit implies again[i] != DELIMITER by {
        assert(again[i] == bytes[i]);
    }
    lemma_search_past(again, 0, limit, limit);
    let left = again.skip(limit);
    assert(search_limit(discarding, again) == limit);
    assert(Framer { next_index: 0, ..discarding } == discarding);
    assert(decode_model(discarding, again) == decode_model(discarding, left));
    assert(left =~= seq![DELIMITER] + line.push(DELIMITER) + rest);
    assert(search_limit(discarding, left) >= 1);
    assert(first_delimiter(left, 0, search_limit(discarding, left)) == 0);
    assert(left.skip(1) =~= line.push(DELIMITER) + rest);
    assert(Framer { next_index: 0, is_discarding: false, ..discarding } == codec);
    assert(decode_model(discarding, left) == decode_model(codec, left.skip(1)));
    lemma_line_is_found(codec, line, rest);
}

} // verus!
