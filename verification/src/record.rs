//! One record of the log: its header, its framing, and what it puts out.

use vstd::prelude::*;
use crate::error::DecodeError;
use crate::fields::{
    body_encoding, decode_field_map, field_map_decoding, field_map_of, is_encodable,
    lemma_body_round_trip, lemma_field_map_decoding_local, lemma_field_map_decoding_truncated,
    Field,
};
use crate::mark::{emit_line, is_line, line_of};
use crate::source::{read_fully, ByteSource};
use crate::varlen::{
    lemma_uint_decoding_bounds, lemma_uint_decoding_cut, lemma_uint_decoding_local,
    lemma_uint_round_trip, read_uint, uint_decoding, uint_encoding,
};

verus! {

/// Kind byte of a global mark.
pub const KIND_GLOBAL_MARK: u8 = 0x07;

/// Kind byte of a local mark.
pub const KIND_LOCAL_MARK: u8 = 0x0A;

/// Second header byte of a mark record.
pub const SUBKIND_MARK: u8 = 0xCE;

/// Second header byte of a record that carries no timestamp.
pub const SUBKIND_UNTIMESTAMPED: u8 = 0x00;

/// The largest kind byte that a skipped record may have.
pub const MAX_KNOWN_KIND: u8 = 11;

/// Number of bytes in a header.
pub const HEADER_LEN: usize = 2;

/// Number of bytes in a timestamp.
pub const TIMESTAMP_LEN: usize = 4;

/// The two discriminator bytes that begin every record.
#[derive(Clone, Copy, Debug, PartialEq, Eq, Structural)]
pub struct EntryHeader {
    pub kind: u8,
    pub subkind: u8,
}

/// Where the decoder stands.
#[derive(Clone, Copy, Debug, PartialEq, Eq, Structural)]
pub enum DecoderState {
    /// Between two records.
    AwaitingHeader,
    /// In a global or local mark, which is decoded in full.
    DecodingMark,
    /// In a record with a timestamp, which is passed over.
    SkippingTimestamped,
    /// In a record without a timestamp, which is passed over.
    SkippingUntimestamped,
    /// At the end of the stream.
    Terminated,
}

/// The state that the decoder enters from `AwaitingHeader` on `header`.
pub open spec fn framing_of(header: EntryHeader) -> DecoderState {
    if header.subkind == SUBKIND_MARK && (header.kind == KIND_GLOBAL_MARK || header.kind
        == KIND_LOCAL_MARK) {
        DecoderState::DecodingMark
    } else if header.subkind == SUBKIND_UNTIMESTAMPED {
        DecoderState::SkippingUntimestamped
    } else {
        DecoderState::SkippingTimestamped
    }
}

/// The state that follows `state`. In `AwaitingHeader` the header decides,
/// and `header` is `None` where none could be read. After a record the
/// decoder awaits a header again. `Terminated` is final.
pub open spec fn transition(state: DecoderState, header: Option<EntryHeader>) -> DecoderState {
    match state {
        DecoderState::AwaitingHeader => match header {
            Some(header) => framing_of(header),
            None => DecoderState::Terminated,
        },
        DecoderState::Terminated => DecoderState::Terminated,
        _ => DecoderState::AwaitingHeader,
    }
}

/// The state that follows `state`, where `header` is what reading a header
/// gave, if one was read.
pub fn next_state(state: DecoderState, header: Option<EntryHeader>) -> (next: DecoderState)
    ensures
        next == transition(state, header),
{
    match state {
        DecoderState::AwaitingHeader => match header {
            Some(h) => {
                if h.subkind == SUBKIND_MARK && (h.kind == KIND_GLOBAL_MARK || h.kind
                    == KIND_LOCAL_MARK) {
                    DecoderState::DecodingMark
                } else if h.subkind == SUBKIND_UNTIMESTAMPED {
                    DecoderState::SkippingUntimestamped
                } else {
                    DecoderState::SkippingTimestamped
                }
            },
            None => DecoderState::Terminated,
        },
        DecoderState::Terminated => DecoderState::Terminated,
        _ => DecoderState::AwaitingHeader,
    }
}

/// Reads the header of the next record, or fails with `Truncated` when fewer
/// than two bytes are left, which at this place is the end of the stream. A
/// failure leaves nothing in `reader`.
pub fn read_header(reader: &mut ByteSource) -> (res: Result<EntryHeader, DecodeError>)
    ensures
        old(reader)@.len() >= 2 ==> {
            &&& res == Ok::<EntryHeader, DecodeError>(
                EntryHeader { kind: old(reader)@[0], subkind: old(reader)@[1] },
            )
            &&& final(reader)@ == old(reader)@.skip(2)
        },
        old(reader)@.len() < 2 ==> {
            &&& res == Err::<EntryHeader, DecodeError>(DecodeError::Truncated)
            &&& final(reader)@ == Seq::<u8>::empty()
        },
{
    let mut entry_type = [0u8; HEADER_LEN];
    match read_fully(reader, &mut entry_type) {
        Ok(()) => Ok(EntryHeader { kind: entry_type[0], subkind: entry_type[1] }),
        Err(e) => Err(e),
    }
}

/// The number of bytes that an opaque body and the length field before it
/// occupy, where `s` begins with the length field.
pub open spec fn skip_decoding(s: Seq<u8>) -> Result<nat, DecodeError> {
    match uint_decoding(s) {
        Ok((length, width)) => if s.len() < width + length {
            Err(DecodeError::Truncated)
        } else {
            Ok(width + length)
        },
        Err(e) => Err(e),
    }
}

/// What a mark record puts out, and the number of bytes that its field map
/// and the length field before it occupy, where `s` begins with the length
/// field.
pub open spec fn mark_decoding(s: Seq<u8>) -> Result<(Option<Seq<char>>, nat), DecodeError> {
    match uint_decoding(s) {
        Ok((length, width)) => match field_map_decoding(s.skip(width as int), length) {
            Ok(values) => match line_of(values) {
                Ok(text) => Ok((text, width + length)),
                Err(e) => Err(e),
            },
            Err(e) => Err(e),
        },
        Err(e) => Err(e),
    }
}

/// What decoding one record from the front of a stream comes to.
pub enum Step {
    /// Fewer than two bytes were left: the stream ends here.
    End,
    /// A record was decoded in `state`. It occupies `consumed` bytes and puts
    /// out `text`, if anything.
    Record { state: DecoderState, text: Option<Seq<char>>, consumed: nat },
    /// The record is malformed.
    Fail(DecodeError),
}

/// The step for a body that was handled in `state` after `before` bytes of
/// header and timestamp.
pub open spec fn step_of(
    state: DecoderState,
    before: nat,
    body: Result<(Option<Seq<char>>, nat), DecodeError>,
) -> Step {
    match body {
        Ok((text, width)) => Step::Record { state, text, consumed: before + width },
        Err(e) => Step::Fail(e),
    }
}

/// `skip_decoding` in the shape of `mark_decoding`: a skipped record puts
/// out nothing.
pub open spec fn silent(skipped: Result<nat, DecodeError>) -> Result<
    (Option<Seq<char>>, nat),
    DecodeError,
> {
    match skipped {
        Ok(width) => Ok((None, width)),
        Err(e) => Err(e),
    }
}

/// Decoding of the record at the front of `s`.
///
/// A mark record is a header, a timestamp of four bytes, a length and a
/// field map. A record whose second header byte is zero is a header, a
/// length and a body. Any other record is a header, a timestamp, a length
/// and a body. The kind byte of a record that is passed over is at most 11.
#[verifier::opaque]
pub open spec fn record_decoding(s: Seq<u8>) -> Step {
    if s.len() < 2 {
        Step::End
    } else {
        let header = EntryHeader { kind: s[0], subkind: s[1] };
        match framing_of(header) {
            DecoderState::DecodingMark => if s.len() < 6 {
                Step::Fail(DecodeError::Truncated)
            } else {
                step_of(DecoderState::DecodingMark, 6, mark_decoding(s.skip(6)))
            },
            DecoderState::SkippingUntimestamped => if header.kind > MAX_KNOWN_KIND {
                Step::Fail(
                    DecodeError::UnknownRecordKind { kind: header.kind, subkind: header.subkind },
                )
            } else {
                step_of(DecoderState::SkippingUntimestamped, 2, silent(skip_decoding(s.skip(2))))
            },
            _ => if s.len() < 6 {
                Step::Fail(DecodeError::Truncated)
            } else if header.kind > MAX_KNOWN_KIND {
                Step::Fail(
                    DecodeError::UnknownRecordKind { kind: header.kind, subkind: header.subkind },
                )
            } else {
                step_of(DecoderState::SkippingTimestamped, 6, silent(skip_decoding(s.skip(6))))
            },
        }
    }
}

/// One visit of the decoder to the stream.
#[derive(Debug, PartialEq, Eq)]
pub enum Visit {
    /// The stream ended at a record boundary.
    End,
    /// A record was handled in `state`. It took `consumed` bytes of the
    /// stream and put out `line`, if anything.
    Record { state: DecoderState, line: Option<String>, consumed: usize },
}

/// Reads a length and passes over a body of that length. Returns the number
/// of bytes consumed. A failure leaves nothing in `reader`.
pub fn skip_body(reader: &mut ByteSource) -> (res: Result<usize, DecodeError>)
    ensures
        match skip_decoding(old(reader)@) {
            Ok(width) => {
                &&& res matches Ok(consumed)
                &&& consumed == width
                &&& 1 <= width <= old(reader)@.len()
                &&& final(reader)@ == old(reader)@.skip(width as int)
            },
            Err(e) => {
                &&& res == Err::<usize, DecodeError>(e)
                &&& final(reader)@ == Seq::<u8>::empty()
            },
        },
{
    proof {
        reader.lemma_len_fits();
    }
    let (total_length, consumed) = match read_uint(reader) {
        Ok(pair) => pair,
        Err(e) => {
            return Err(e);
        },
    };
    match reader.skip(total_length) {
        Ok(()) => {
            Ok(consumed + total_length)
        },
        Err(e) => Err(e),
    }
}

/// Reads a length and decodes a field map of that length, filters the mark
/// and renders its line. Returns the line, if there is one, and the number
/// of bytes consumed. A failure leaves nothing in `reader`.
pub fn decode_mark_body(reader: &mut ByteSource) -> (res: Result<
    (Option<String>, usize),
    DecodeError,
>)
    ensures
        match mark_decoding(old(reader)@) {
            Ok((text, width)) => {
                &&& res matches Ok((line, consumed))
                &&& is_line(line, text)
                &&& consumed == width
                &&& 1 <= width <= old(reader)@.len()
                &&& final(reader)@ == old(reader)@.skip(width as int)
            },
            Err(e) => {
                &&& res matches Err(err)
                &&& err == e
                &&& final(reader)@ == Seq::<u8>::empty()
            },
        },
{
    proof {
        reader.lemma_len_fits();
    }
    let (total_length, consumed) = match read_uint(reader) {
        Ok(pair) => pair,
        Err(e) => {
            return Err(e);
        },
    };
    let (fields, processed) = match decode_field_map(reader, total_length) {
        Ok(pair) => pair,
        Err(e) => {
            return Err(e);
        },
    };
    assert(reader@ == old(reader)@.skip(consumed + total_length));
    match emit_line(fields) {
        Ok(line) => Ok((line, consumed + processed)),
        Err(e) => {
            reader.drain();
            Err(e)
        },
    }
}

/// Decodes the record at the front of `reader`: reads its header, handles
/// it as its framing asks, and consumes exactly the bytes of the record. At
/// the end of the stream, and on a failure, nothing is left in `reader`.
pub fn decode_record(reader: &mut ByteSource) -> (res: Result<Visit, DecodeError>)
    ensures
        match record_decoding(old(reader)@) {
            Step::End => res matches Ok(Visit::End) && final(reader)@ == Seq::<u8>::empty(),
            Step::Record { state, text, consumed } => {
                &&& res matches Ok(Visit::Record { state: visited, line, consumed: taken })
                &&& visited == state
                &&& is_line(line, text)
                &&& taken == consumed
                &&& 3 <= consumed <= old(reader)@.len()
                &&& final(reader)@ == old(reader)@.skip(consumed as int)
            },
            Step::Fail(e) => {
                &&& res matches Err(err)
                &&& err == e
                &&& final(reader)@ == Seq::<u8>::empty()
            },
        },
{
    reveal(record_decoding);
    proof {
        reader.lemma_len_fits();
    }
    let header = match read_header(reader) {
        Ok(header) => header,
        Err(_) => {
            return Ok(Visit::End);
        },
    };
    let mut timestamp = [0u8; TIMESTAMP_LEN];
    let state = next_state(DecoderState::AwaitingHeader, Some(header));
    match state {
        DecoderState::DecodingMark => {
            match read_fully(reader, &mut timestamp) {
                Ok(()) => {},
                Err(e) => {
                    return Err(e);
                },
            }
            assert(reader@ == old(reader)@.skip(6));
            match decode_mark_body(reader) {
                Ok((line, consumed)) => {
                    assert(reader@ == old(reader)@.skip(6 + consumed));
                    Ok(
                        Visit::Record {
                            state,
                            line,
                            consumed: HEADER_LEN + TIMESTAMP_LEN + consumed,
                        },
                    )
                },
                Err(e) => Err(e),
            }
        },
        DecoderState::SkippingUntimestamped => {
            if header.kind > MAX_KNOWN_KIND {
                reader.drain();
                return Err(
                    DecodeError::UnknownRecordKind { kind: header.kind, subkind: header.subkind },
                );
            }
            match skip_body(reader) {
                Ok(consumed) => {
                    assert(reader@ == old(reader)@.skip(2 + consumed));
                    Ok(Visit::Record { state, line: None, consumed: HEADER_LEN + consumed })
                },
                Err(e) => Err(e),
            }
        },
        _ => {
            match read_fully(reader, &mut timestamp) {
                Ok(()) => {},
                Err(e) => {
                    return Err(e);
                },
            }
            assert(reader@ == old(reader)@.skip(6));
            if header.kind > MAX_KNOWN_KIND {
                reader.drain();
                return Err(
                    DecodeError::UnknownRecordKind { kind: header.kind, subkind: header.subkind },
                );
            }
            match skip_body(reader) {
                Ok(consumed) => {
                    assert(reader@ == old(reader)@.skip(6 + consumed));
                    Ok(
                        Visit::Record {
                            state,
                            line: None,
                            consumed: HEADER_LEN + TIMESTAMP_LEN + consumed,
                        },
                    )
                },
                Err(e) => Err(e),
            }
        },
    }
}

/// A stream of fewer than two bytes holds no record: it ends there.
pub proof fn lemma_record_decoding_end(s: Seq<u8>)
    ensures
        s.len() < 2 <==> record_decoding(s) is End,
{
    reveal(record_decoding);
}

/// A record whose second header byte is zero carries no timestamp: its
/// length field stands right behind the two header bytes, and the record
/// ends with the body that this length declares.
pub proof fn lemma_untimestamped_record(s: Seq<u8>)
    requires
        s.len() >= 2,
        s[1] == SUBKIND_UNTIMESTAMPED,
    ensures
        s[0] > MAX_KNOWN_KIND ==> record_decoding(s) == Step::Fail(
            DecodeError::UnknownRecordKind { kind: s[0], subkind: s[1] },
        ),
        s[0] <= MAX_KNOWN_KIND ==> record_decoding(s) == (match uint_decoding(s.skip(2)) {
            Ok((length, width)) => if s.len() < 2 + width + length {
                Step::Fail(DecodeError::Truncated)
            } else {
                Step::Record {
                    state: DecoderState::SkippingUntimestamped,
                    text: None,
                    consumed: 2 + width + length,
                }
            },
            Err(e) => Step::Fail(e),
        }),
{
    reveal(record_decoding);
}

/// Where the length field of the record at the front of `s` begins: behind
/// the header, or behind the timestamp where the record carries one.
pub open spec fn length_offset(s: Seq<u8>) -> nat
    recommends
        s.len() >= 2,
{
    if framing_of(EntryHeader { kind: s[0], subkind: s[1] })
        == DecoderState::SkippingUntimestamped {
        2
    } else {
        6
    }
}

/// Whether the decoder reads the length field of the record at the front of
/// `s`: the bytes before it are there, and the kind is a mark or a known one.
pub open spec fn reaches_length(s: Seq<u8>) -> bool {
    &&& s.len() >= 2
    &&& s.len() >= length_offset(s)
    &&& (framing_of(EntryHeader { kind: s[0], subkind: s[1] }) == DecoderState::DecodingMark
        || s[0] <= MAX_KNOWN_KIND)
}

/// A record that declares more bytes than the stream still holds fails with
/// `Truncated`, whatever its kind and whatever those bytes are.
pub proof fn lemma_truncated_body(s: Seq<u8>)
    requires
        reaches_length(s),
        uint_decoding(s.skip(length_offset(s) as int)) is Ok,
        s.len() < length_offset(s) + uint_decoding(s.skip(length_offset(s) as int))->Ok_0.1
            + uint_decoding(s.skip(length_offset(s) as int))->Ok_0.0,
    ensures
        record_decoding(s) == Step::Fail(DecodeError::Truncated),
{
    reveal(record_decoding);
    let rest = s.skip(length_offset(s) as int);
    let (length, width) = uint_decoding(rest)->Ok_0;
    lemma_uint_decoding_bounds(rest);
    lemma_field_map_decoding_truncated(rest.skip(width as int), length);
}

/// A decoded record occupies at least three bytes, all of them in the
/// input.
pub proof fn lemma_record_decoding_bounds(s: Seq<u8>)
    requires
        record_decoding(s) is Record,
    ensures
        3 <= record_decoding(s)->consumed <= s.len(),
        reaches_length(s),
        uint_decoding(s.skip(length_offset(s) as int)) is Ok,
        record_decoding(s)->consumed == length_offset(s) + uint_decoding(
            s.skip(length_offset(s) as int),
        )->Ok_0.1 + uint_decoding(s.skip(length_offset(s) as int))->Ok_0.0,
{
    reveal(record_decoding);
    let rest = s.skip(length_offset(s) as int);
    lemma_uint_decoding_bounds(rest);
    if uint_decoding(rest) is Ok {
        let (length, width) = uint_decoding(rest)->Ok_0;
        lemma_field_map_decoding_truncated(rest.skip(width as int), length);
    }
}

/// Decoding a record looks only at the bytes of the record: whatever
/// follows them, the record decodes alike.
pub proof fn lemma_record_decoding_local(s: Seq<u8>, t: Seq<u8>)
    requires
        record_decoding(s) is Record,
        record_decoding(s)->consumed <= t.len(),
        s.take(record_decoding(s)->consumed as int) == t.take(record_decoding(s)->consumed as int),
    ensures
        record_decoding(t) == record_decoding(s),
{
    reveal(record_decoding);
    let n = record_decoding(s)->consumed as int;
    lemma_record_decoding_bounds(s);
    assert forall|i: int| 0 <= i < n implies s[i] == t[i] by {
        assert(s.take(n)[i] == t.take(n)[i]);
    }
    let offset = length_offset(s) as int;
    let (length, width) = uint_decoding(s.skip(offset))->Ok_0;
    assert(s.skip(offset).take(width as int) == t.skip(offset).take(width as int));
    lemma_uint_decoding_local(s.skip(offset), t.skip(offset));
    let body = s.skip(offset).skip(width as int);
    let other = t.skip(offset).skip(width as int);
    assert(body.take(length as int) == other.take(length as int));
    lemma_field_map_decoding_local(body, other, length);
}

/// A record that is cut short anywhere behind its header fails with
/// `Truncated`.
pub proof fn lemma_record_cut(s: Seq<u8>, k: int)
    requires
        record_decoding(s) is Record,
        2 <= k < record_decoding(s)->consumed,
    ensures
        record_decoding(s.take(k)) == Step::Fail(DecodeError::Truncated),
{
    reveal(record_decoding);
    lemma_record_decoding_bounds(s);
    let t = s.take(k);
    let offset = length_offset(s) as int;
    assert(t[0] == s[0] && t[1] == s[1]);
    if k >= offset {
        let (length, width) = uint_decoding(s.skip(offset))->Ok_0;
        if k - offset < width {
            lemma_uint_decoding_cut(s.skip(offset), k - offset);
        } else {
            assert(s.skip(offset).take(width as int) == t.skip(offset).take(width as int));
            lemma_uint_decoding_local(s.skip(offset), t.skip(offset));
            lemma_field_map_decoding_truncated(t.skip(offset).skip(width as int), length);
        }
    }
}

/// The bytes of a record that is passed over: its header, its timestamp
/// where it carries one, the length of its body and its body.
pub open spec fn skipped_record_encoding(
    header: EntryHeader,
    timestamp: Seq<u8>,
    body: Seq<u8>,
) -> Seq<u8> {
    seq![header.kind, header.subkind] + timestamp + uint_encoding(body.len()) + body
}

/// The bytes of a mark record: its header, its timestamp, the length of its
/// field map and its field map.
pub open spec fn mark_record_encoding(kind: u8, timestamp: Seq<u8>, fields: Seq<Field>) -> Seq<
    u8,
> {
    skipped_record_encoding(
        EntryHeader { kind, subkind: SUBKIND_MARK },
        timestamp,
        body_encoding(fields),
    )
}

/// A record of a known kind that is not a mark is one well-formed record,
/// whatever its body holds: it is passed over in full and in silence. It
/// carries four bytes of timestamp unless its second header byte is zero.
pub proof fn lemma_skipped_record_round_trip(
    header: EntryHeader,
    timestamp: Seq<u8>,
    body: Seq<u8>,
)
    requires
        framing_of(header) != DecoderState::DecodingMark,
        header.kind <= MAX_KNOWN_KIND,
        timestamp.len() == (if header.subkind == SUBKIND_UNTIMESTAMPED {
            0nat
        } else {
            4nat
        }),
        body.len() <= u32::MAX,
    ensures
        record_decoding(skipped_record_encoding(header, timestamp, body)) == (Step::Record {
            state: framing_of(header),
            text: None,
            consumed: skipped_record_encoding(header, timestamp, body).len(),
        }),
{
    reveal(record_decoding);
    let s = skipped_record_encoding(header, timestamp, body);
    lemma_uint_round_trip(body.len(), body);
    assert(s[0] == header.kind && s[1] == header.subkind);
}

/// The length of a field map and the field map of `fields` decode to what
/// the values of `fields` call for, and take all the bytes of both.
proof fn lemma_mark_body_round_trip(fields: Seq<Field>)
    requires
        forall|i: int| 0 <= i < fields.len() ==> is_encodable(#[trigger] fields[i]),
        body_encoding(fields).len() <= u32::MAX,
    ensures
        mark_decoding(uint_encoding(body_encoding(fields).len()) + body_encoding(fields)) == (
        match line_of(field_map_of(fields)) {
            Ok(text) => Ok(
                (
                    text,
                    (uint_encoding(body_encoding(fields).len()) + body_encoding(fields)).len(),
                ),
            ),
            Err(e) => Err(e),
        }),
{
    let body = body_encoding(fields);
    let length = uint_encoding(body.len());
    lemma_uint_round_trip(body.len(), body);
    lemma_body_round_trip(fields);
    assert((length + body).skip(length.len() as int) == body);
}

/// A mark record that holds `fields` is one well-formed record. It puts out
/// what the values of `fields` call for: nothing, a line, or the failure
/// `EncodingError`.
pub proof fn lemma_mark_record_round_trip(kind: u8, timestamp: Seq<u8>, fields: Seq<Field>)
    requires
        kind == KIND_GLOBAL_MARK || kind == KIND_LOCAL_MARK,
        timestamp.len() == 4,
        forall|i: int| 0 <= i < fields.len() ==> is_encodable(#[trigger] fields[i]),
        body_encoding(fields).len() <= u32::MAX,
    ensures
        record_decoding(mark_record_encoding(kind, timestamp, fields)) == (match line_of(
            field_map_of(fields),
        ) {
            Ok(text) => Step::Record {
                state: DecoderState::DecodingMark,
                text,
                consumed: mark_record_encoding(kind, timestamp, fields).len(),
            },
            Err(e) => Step::Fail(e),
        }),
{
    reveal(record_decoding);
    let body = body_encoding(fields);
    let s = mark_record_encoding(kind, timestamp, fields);
    lemma_mark_body_round_trip(fields);
    assert(s[0] == kind && s[1] == SUBKIND_MARK);
    assert(s.skip(6) == uint_encoding(body.len()) + body);
}

} // verus!
