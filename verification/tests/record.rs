use shada_marks::error::DecodeError;
use shada_marks::record::{
    decode_mark_body, decode_record, next_state, read_header, skip_body, DecoderState,
    EntryHeader, Visit,
};
use shada_marks::source::ByteSource;

fn mark_body() -> Vec<u8> {
    let mut body = vec![0x83, 0xA1, b'l', 12, 0xA1, b'n', 0x41, 0xA1, b'f', 0xC4, 12];
    body.extend_from_slice(b"/home/u/file");
    body
}

fn mark_record(kind: u8, declared: u8) -> Vec<u8> {
    let mut record = vec![kind, 0xCE, 0x65, 0x00, 0x00, 0x01, declared];
    record.extend(mark_body());
    record
}

fn visit(bytes: &[u8]) -> (Result<(Option<DecoderState>, Option<String>), DecodeError>, usize) {
    let mut source = ByteSource::new(bytes.to_vec());
    let res = match decode_record(&mut source) {
        Ok(Visit::End) => Ok((None, None)),
        Ok(Visit::Record { state, line, consumed }) => {
            assert_eq!(consumed, bytes.len() - source.remaining());
            Ok((Some(state), line))
        }
        Err(e) => Err(e),
    };
    (res, source.remaining())
}

#[test]
fn read_header_takes_two_bytes() {
    let mut source = ByteSource::new(vec![0x0A, 0xCE, 0x01]);
    assert_eq!(
        read_header(&mut source),
        Ok(EntryHeader { kind: 0x0A, subkind: 0xCE })
    );
    assert_eq!(source.remaining(), 1);
}

#[test]
fn read_header_fails_at_the_end_of_the_stream() {
    let mut source = ByteSource::new(Vec::new());
    assert_eq!(read_header(&mut source), Err(DecodeError::Truncated));
    let mut source = ByteSource::new(vec![0x0A]);
    assert_eq!(read_header(&mut source), Err(DecodeError::Truncated));
    assert_eq!(source.remaining(), 0);
}

#[test]
fn next_state_routes_by_header() {
    let awaiting = DecoderState::AwaitingHeader;
    let header = |kind, subkind| Some(EntryHeader { kind, subkind });
    assert_eq!(next_state(awaiting, header(0x07, 0xCE)), DecoderState::DecodingMark);
    assert_eq!(next_state(awaiting, header(0x0A, 0xCE)), DecoderState::DecodingMark);
    assert_eq!(next_state(awaiting, header(0x02, 0xCE)), DecoderState::SkippingTimestamped);
    assert_eq!(next_state(awaiting, header(0x0A, 0xCD)), DecoderState::SkippingTimestamped);
    assert_eq!(next_state(awaiting, header(0x07, 0x00)), DecoderState::SkippingUntimestamped);
    assert_eq!(next_state(awaiting, header(0x0A, 0x00)), DecoderState::SkippingUntimestamped);
    assert_eq!(next_state(awaiting, header(0xFF, 0x00)), DecoderState::SkippingUntimestamped);
    assert_eq!(next_state(awaiting, header(0xFF, 0x01)), DecoderState::SkippingTimestamped);
    assert_eq!(next_state(awaiting, None), DecoderState::Terminated);
}

#[test]
fn next_state_returns_to_awaiting_after_a_record() {
    let header = Some(EntryHeader { kind: 0x07, subkind: 0xCE });
    for state in [
        DecoderState::DecodingMark,
        DecoderState::SkippingTimestamped,
        DecoderState::SkippingUntimestamped,
    ] {
        assert_eq!(next_state(state, None), DecoderState::AwaitingHeader);
        assert_eq!(next_state(state, header), DecoderState::AwaitingHeader);
    }
    assert_eq!(next_state(DecoderState::Terminated, header), DecoderState::Terminated);
    assert_eq!(next_state(DecoderState::Terminated, None), DecoderState::Terminated);
}

#[test]
fn local_mark_is_decoded_and_emitted() {
    let record = mark_record(0x0A, 23);
    assert_eq!(
        visit(&record),
        (
            Ok((
                Some(DecoderState::DecodingMark),
                Some(String::from("A\t12\t/home/u/file"))
            )),
            0
        )
    );
}

#[test]
fn global_mark_is_decoded_and_emitted() {
    let mut record = mark_record(0x07, 23);
    record.extend_from_slice(&[1, 2, 3]);
    assert_eq!(
        visit(&record),
        (
            Ok((
                Some(DecoderState::DecodingMark),
                Some(String::from("A\t12\t/home/u/file"))
            )),
            3
        )
    );
}

#[test]
fn mark_that_does_not_qualify_is_visited_in_silence() {
    let record = [0x0A, 0xCE, 0, 0, 0, 0, 8, 0x82, 0xA1, b'l', 5, 0xA1, b'n', b'1', 0];
    assert_eq!(
        visit(&record[..14]),
        (Err(DecodeError::Truncated), 0)
    );
    let record = [0x0A, 0xCE, 0, 0, 0, 0, 7, 0x82, 0xA1, b'l', 5, 0xA1, b'n', b'1', 0xEE];
    assert_eq!(
        visit(&record),
        (Ok((Some(DecoderState::DecodingMark), None)), 1)
    );
}

#[test]
fn mark_with_under_declared_length_does_not_fit() {
    for declared in [0u8, 2, 3, 5, 6, 8, 9, 10, 11, 15, 22] {
        let mut record = mark_record(0x0A, declared);
        record.extend_from_slice(&[0u8; 8]);
        assert_eq!(
            visit(&record),
            (Err(DecodeError::FrameMismatch), 0),
            "declared {}",
            declared
        );
    }
}

#[test]
fn mark_with_length_that_ends_between_fields_loses_the_rest() {
    for declared in [1u8, 4, 7] {
        let record = mark_record(0x0A, declared);
        let left = record.len() - 7 - declared as usize;
        assert_eq!(
            visit(&record),
            (Ok((Some(DecoderState::DecodingMark), None)), left),
            "declared {}",
            declared
        );
    }
}

#[test]
fn mark_with_over_declared_length_does_not_fit() {
    let mut record = mark_record(0x0A, 24);
    record.extend_from_slice(&[0x0A, 0xCE, 0, 0, 0, 0]);
    assert_eq!(visit(&record), (Err(DecodeError::FrameMismatch), 0));
}

#[test]
fn mark_with_over_declared_length_runs_into_the_next_record() {
    let mut record = mark_record(0x0A, 26);
    record.extend_from_slice(&[0x0A, 0xCE, 0, 0, 0, 0]);
    assert_eq!(
        visit(&record),
        (Err(DecodeError::UnexpectedField { key: 0xCE }), 0)
    );
}

#[test]
fn mark_cut_short_is_truncated() {
    let record = mark_record(0x0A, 23);
    for len in 2..record.len() {
        assert_eq!(
            visit(&record[..len]),
            (Err(DecodeError::Truncated), 0),
            "len {}",
            len
        );
    }
}

#[test]
fn mark_with_field_errors() {
    let record = [0x07, 0xCE, 0, 0, 0, 0, 4, 0x81, 0xA1, b'q', 1];
    assert_eq!(
        visit(&record),
        (Err(DecodeError::UnexpectedField { key: b'q' }), 0)
    );
    let record = [0x07, 0xCE, 0, 0, 0, 0, 4, 0x81, 0xA1, b'l', 0xD1];
    assert_eq!(
        visit(&record),
        (Err(DecodeError::UnsupportedEncoding { prefix: 0xD1 }), 0)
    );
    let record = [0x07, 0xCE, 0, 0, 0, 0, 0xCF, 0x81, 0xA1, b'l', 1];
    assert_eq!(
        visit(&record),
        (Err(DecodeError::UnsupportedEncoding { prefix: 0xCF }), 0)
    );
    let record = [0x07, 0xCE, 0, 0, 0, 0, 10, 0x82, 0xA1, b'n', b'a', 0xA1, b'f', 0xC4, 2, b'/', 0xFF];
    assert_eq!(visit(&record), (Err(DecodeError::EncodingError), 0));
}

#[test]
fn untimestamped_record_has_its_length_right_after_the_header() {
    let record = [0x0A, 0x00, 3, 0xAA, 0xBB, 0xCC, 0x77];
    assert_eq!(
        visit(&record),
        (Ok((Some(DecoderState::SkippingUntimestamped), None)), 1)
    );
    let record = [0x04, 0x00, 0xCC, 4, 1, 2, 3, 4];
    assert_eq!(
        visit(&record),
        (Ok((Some(DecoderState::SkippingUntimestamped), None)), 0)
    );
    let record = [0x00, 0x00, 0];
    assert_eq!(
        visit(&record),
        (Ok((Some(DecoderState::SkippingUntimestamped), None)), 0)
    );
}

#[test]
fn untimestamped_record_takes_header_length_and_body() {
    let mut source = ByteSource::new(vec![0x0A, 0x00, 3, 0xAA, 0xBB, 0xCC, 0x77, 0x78]);
    assert_eq!(
        decode_record(&mut source),
        Ok(Visit::Record {
            state: DecoderState::SkippingUntimestamped,
            line: None,
            consumed: 6
        })
    );
    let mut source = ByteSource::new(vec![0x0A, 0x01, 3, 0xAA, 0xBB, 0xCC, 0x01, 0x78, 0x79]);
    assert_eq!(
        decode_record(&mut source),
        Ok(Visit::Record {
            state: DecoderState::SkippingTimestamped,
            line: None,
            consumed: 8
        })
    );
}

#[test]
fn timestamped_record_is_skipped_by_length() {
    let record = [0x04, 0xCE, 1, 2, 3, 4, 2, 0xAA, 0xBB, 0x77, 0x78];
    assert_eq!(
        visit(&record),
        (Ok((Some(DecoderState::SkippingTimestamped), None)), 2)
    );
    let mut record = vec![0x02, 0xCD, 1, 2, 3, 4, 0xCD, 0x01, 0x00];
    record.extend_from_slice(&[0u8; 256]);
    assert_eq!(
        visit(&record),
        (Ok((Some(DecoderState::SkippingTimestamped), None)), 0)
    );
    let record = [0x0B, 0x01, 1, 2, 3, 4, 0];
    assert_eq!(
        visit(&record),
        (Ok((Some(DecoderState::SkippingTimestamped), None)), 0)
    );
}

#[test]
fn unknown_kind_is_refused() {
    assert_eq!(
        visit(&[0x0C, 0x00, 1, 0xAA]),
        (Err(DecodeError::UnknownRecordKind { kind: 0x0C, subkind: 0x00 }), 0)
    );
    assert_eq!(
        visit(&[0x0C, 0xCE, 1, 2, 3, 4, 1, 0xAA]),
        (Err(DecodeError::UnknownRecordKind { kind: 0x0C, subkind: 0xCE }), 0)
    );
    assert_eq!(
        visit(&[0xFF, 0x07, 1, 2, 3, 4, 0]),
        (Err(DecodeError::UnknownRecordKind { kind: 0xFF, subkind: 0x07 }), 0)
    );
    assert_eq!(
        visit(&[0x0B, 0x00, 1, 0xAA]),
        (Ok((Some(DecoderState::SkippingUntimestamped), None)), 0)
    );
}

#[test]
fn unknown_kind_with_a_short_timestamp_is_truncated() {
    assert_eq!(visit(&[0x0C, 0xCE, 1, 2, 3]), (Err(DecodeError::Truncated), 0));
}

#[test]
fn skipped_record_cut_short_is_truncated() {
    assert_eq!(visit(&[0x04, 0x00, 3, 1, 2]), (Err(DecodeError::Truncated), 0));
    assert_eq!(visit(&[0x04, 0x00]), (Err(DecodeError::Truncated), 0));
    assert_eq!(visit(&[0x04, 0x00, 0xCD, 0]), (Err(DecodeError::Truncated), 0));
    assert_eq!(visit(&[0x04, 0x01, 1, 2, 3]), (Err(DecodeError::Truncated), 0));
    assert_eq!(visit(&[0x04, 0x01, 1, 2, 3, 4]), (Err(DecodeError::Truncated), 0));
    assert_eq!(
        visit(&[0x04, 0x01, 1, 2, 3, 4, 0xCE, 0xFF, 0xFF, 0xFF, 0xFF, 1, 2, 3]),
        (Err(DecodeError::Truncated), 0)
    );
}

#[test]
fn skipped_record_with_unsupported_length_is_refused() {
    assert_eq!(
        visit(&[0x04, 0x00, 0xE1, 1, 2]),
        (Err(DecodeError::UnsupportedEncoding { prefix: 0xE1 }), 0)
    );
    assert_eq!(
        visit(&[0x04, 0x01, 1, 2, 3, 4, 0xD3, 1, 2]),
        (Err(DecodeError::UnsupportedEncoding { prefix: 0xD3 }), 0)
    );
}

#[test]
fn end_of_stream_is_not_a_failure() {
    assert_eq!(visit(&[]), (Ok((None, None)), 0));
    assert_eq!(visit(&[0x0A]), (Ok((None, None)), 0));
}

#[test]
fn skip_body_counts_length_field_and_body() {
    let mut source = ByteSource::new(vec![3, 1, 2, 3, 9]);
    assert_eq!(skip_body(&mut source), Ok(4));
    assert_eq!(source.remaining(), 1);
    let mut source = ByteSource::new(vec![0xCC, 2, 1, 2]);
    assert_eq!(skip_body(&mut source), Ok(4));
    let mut source = ByteSource::new(vec![4, 1, 2, 3]);
    assert_eq!(skip_body(&mut source), Err(DecodeError::Truncated));
    assert_eq!(source.remaining(), 0);
}

#[test]
fn decode_mark_body_counts_length_field_and_fields() {
    let mut bytes = vec![23];
    bytes.extend(mark_body());
    bytes.push(0x55);
    let mut source = ByteSource::new(bytes);
    assert_eq!(
        decode_mark_body(&mut source),
        Ok((Some(String::from("A\t12\t/home/u/file")), 24))
    );
    assert_eq!(source.remaining(), 1);
}
