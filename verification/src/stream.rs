//! The whole log: record after record, up to the end of the stream.

use vstd::prelude::*;
use crate::error::DecodeError;
use crate::record::{
    decode_record, lemma_record_cut, lemma_record_decoding_bounds, lemma_record_decoding_end,
    lemma_record_decoding_local, record_decoding, Step, Visit,
};
use crate::source::ByteSource;

verus! {

/// What decoding a stream comes to, as mathematical values.
pub struct StreamValues {
    /// The lines put out, in the order of their records.
    pub lines: Seq<Seq<char>>,
    /// The number of records that were decoded in full.
    pub records: nat,
    /// The failure that stopped the decoder, if one did.
    pub error: Option<DecodeError>,
}

/// What decoding a stream came to.
#[derive(Debug, PartialEq, Eq)]
pub struct StreamOutcome {
    /// The lines put out, in the order of their records.
    pub lines: Vec<String>,
    /// The number of records that were decoded in full.
    pub records: usize,
    /// The failure that stopped the decoder, if one did.
    pub error: Option<DecodeError>,
}

impl View for StreamOutcome {
    type V = StreamValues;

    open spec fn view(&self) -> StreamValues {
        StreamValues {
            lines: self.lines@.map_values(|line: String| line@),
            records: self.records as nat,
            error: self.error,
        }
    }
}

/// A record that put out `text`, if anything, before what `rest` came to.
pub open spec fn after_record(text: Option<Seq<char>>, rest: StreamValues) -> StreamValues {
    StreamValues {
        lines: match text {
            Some(text) => seq![text] + rest.lines,
            None => rest.lines,
        },
        records: 1 + rest.records,
        error: rest.error,
    }
}

/// Decoding of the stream `s`: its records in order, up to the end of the
/// stream or to the first malformed record.
pub open spec fn stream_decoding(s: Seq<u8>) -> StreamValues
    decreases s.len(),
    via stream_decoding_terminates
{
    match record_decoding(s) {
        Step::End => StreamValues { lines: Seq::empty(), records: 0, error: None },
        Step::Fail(e) => StreamValues { lines: Seq::empty(), records: 0, error: Some(e) },
        Step::Record { text, consumed, .. } => after_record(
            text,
            stream_decoding(s.skip(consumed as int)),
        ),
    }
}

/// Every record takes at least three bytes, so that less is left after it.
#[via_fn]
proof fn stream_decoding_terminates(s: Seq<u8>) {
    if record_decoding(s) is Record {
        lemma_record_decoding_bounds(s);
    }
}

/// `done` followed by what `rest` came to.
pub open spec fn after_records(done: StreamValues, rest: StreamValues) -> StreamValues {
    StreamValues {
        lines: done.lines + rest.lines,
        records: done.records + rest.records,
        error: rest.error,
    }
}

/// Decodes `reader` to its end: record after record, collecting the lines of
/// the marks that qualify, until the stream ends at a record boundary or a
/// record is malformed. The lines put out before a failure are kept. Nothing
/// is left in `reader`.
pub fn decode_stream(reader: &mut ByteSource) -> (outcome: StreamOutcome)
    ensures
        outcome@ == stream_decoding(old(reader)@),
        final(reader)@ == Seq::<u8>::empty(),
{
    let mut outcome = StreamOutcome { lines: Vec::new(), records: 0, error: None };
    proof {
        reader.lemma_len_fits();
    }
    loop
        invariant_except_break
            outcome.error is None,
            outcome.records + reader@.len() <= usize::MAX,
            stream_decoding(old(reader)@) == after_records(outcome@, stream_decoding(reader@)),
        ensures
            outcome@ == stream_decoding(old(reader)@),
            reader@ == Seq::<u8>::empty(),
        decreases reader@.len(),
    {
        let ghost s = reader@;
        let ghost done = outcome@;
        match decode_record(reader) {
            Ok(Visit::End) => {
                break ;
            },
            Ok(Visit::Record { line, .. }) => {
                outcome.records = outcome.records + 1;
                match line {
                    Some(line) => {
                        outcome.lines.push(line);
                        assert(outcome@.lines == done.lines.push(line@));
                        assert(done.lines + (seq![line@] + stream_decoding(reader@).lines)
                            == done.lines.push(line@) + stream_decoding(reader@).lines);
                    },
                    None => {},
                }
            },
            Err(e) => {
                outcome.error = Some(e);
                break ;
            },
        }
    }
    outcome
}

/// Whether `r` is one well-formed record and nothing more.
pub open spec fn is_whole_record(r: Seq<u8>) -> bool {
    record_decoding(r) is Record && record_decoding(r)->consumed == r.len()
}

/// The lines that well-formed records put out, in the order of the records.
pub open spec fn texts_of(records: Seq<Seq<u8>>) -> Seq<Seq<char>>
    decreases records.len(),
{
    if records.len() == 0 {
        Seq::empty()
    } else {
        match record_decoding(records[0])->text {
            Some(text) => seq![text] + texts_of(records.drop_first()),
            None => texts_of(records.drop_first()),
        }
    }
}

/// What the decoder has when it has passed over `records` without a
/// failure.
pub open spec fn values_of(records: Seq<Seq<u8>>) -> StreamValues {
    StreamValues { lines: texts_of(records), records: records.len(), error: None }
}

/// A well-formed record at the front of a stream is decoded, and the
/// decoder then goes on with what follows it as if it began there.
pub proof fn lemma_stream_after_whole_record(first: Seq<u8>, tail: Seq<u8>)
    requires
        is_whole_record(first),
    ensures
        stream_decoding(first + tail) == after_record(
            record_decoding(first)->text,
            stream_decoding(tail),
        ),
{
    let s = first + tail;
    let n = first.len() as int;
    assert(record_decoding(s) == record_decoding(first)) by {
        assert(first.take(n) == s.take(n));
        lemma_record_decoding_local(first, s);
    }
    assert(s.skip(n) == tail);
}

/// Well-formed records at the front of a stream are decoded one by one, and
/// the decoder then goes on with what follows them as if it began there.
pub proof fn lemma_stream_after_whole_records(records: Seq<Seq<u8>>, tail: Seq<u8>)
    requires
        forall|i: int| 0 <= i < records.len() ==> is_whole_record(#[trigger] records[i]),
    ensures
        stream_decoding(records.flatten() + tail) == after_records(
            values_of(records),
            stream_decoding(tail),
        ),
    decreases records.len(),
{
    let rest = stream_decoding(tail);
    if records.len() > 0 {
        let first = records[0];
        let others = records.drop_first();
        assert forall|i: int| 0 <= i < others.len() implies is_whole_record(
            #[trigger] others[i],
        ) by {}
        lemma_stream_after_whole_records(others, tail);
        lemma_stream_after_whole_record(first, others.flatten() + tail);
        assert(records.flatten() + tail == first + (others.flatten() + tail));
        let text = record_decoding(first)->text;
        if text is Some {
            assert(seq![text->0] + (texts_of(others) + rest.lines) == (seq![text->0] + texts_of(
                others,
            )) + rest.lines);
        }
    }
}

/// A stream that is made of well-formed records decodes to its end without
/// a failure: every record is visited, and the lines of the marks that
/// qualify come out in the order of the records.
pub proof fn lemma_stream_of_whole_records(records: Seq<Seq<u8>>)
    requires
        forall|i: int| 0 <= i < records.len() ==> is_whole_record(#[trigger] records[i]),
    ensures
        stream_decoding(records.flatten()) == values_of(records),
{
    let tail = Seq::<u8>::empty();
    lemma_stream_after_whole_records(records, tail);
    lemma_record_decoding_end(tail);
}

/// A stream that ends inside a record fails with `Truncated`. The records
/// before that one are visited and their lines come out. Here the stream
/// is `records` followed by the first `k` bytes of the well-formed record
/// `last`, with the header of `last` in full and its end cut off.
pub proof fn lemma_stream_cut_mid_record(records: Seq<Seq<u8>>, last: Seq<u8>, k: int)
    requires
        forall|i: int| 0 <= i < records.len() ==> is_whole_record(#[trigger] records[i]),
        is_whole_record(last),
        2 <= k < last.len(),
    ensures
        stream_decoding(records.flatten() + last.take(k)) == (StreamValues {
            lines: texts_of(records),
            records: records.len(),
            error: Some(DecodeError::Truncated),
        }),
{
    let tail = last.take(k);
    lemma_stream_after_whole_records(records, tail);
    lemma_record_cut(last, k);
}

} // verus!
