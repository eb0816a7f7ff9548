use shada_marks::error::DecodeError;

#[test]
fn message_names_the_failure() {
    assert_eq!(DecodeError::Truncated.message(), "stream ends inside a record");
    assert_eq!(
        DecodeError::FrameMismatch.message(),
        "fields do not end with the record"
    );
    assert_eq!(
        DecodeError::EncodingError.message(),
        "file path is not valid UTF-8"
    );
}

#[test]
fn message_gives_the_bytes_at_fault() {
    assert_eq!(
        DecodeError::UnsupportedEncoding { prefix: 0xCF }.message(),
        "unsupported integer encoding: prefix 207"
    );
    assert_eq!(
        DecodeError::UnknownRecordKind { kind: 12, subkind: 0 }.message(),
        "unknown record kind: header 12 0"
    );
    assert_eq!(
        DecodeError::UnknownRecordKind { kind: 255, subkind: 206 }.message(),
        "unknown record kind: header 255 206"
    );
    assert_eq!(
        DecodeError::UnexpectedField { key: b'x' }.message(),
        "unexpected field: key 120"
    );
}

#[test]
fn errors_compare_by_kind_and_bytes() {
    assert_eq!(DecodeError::Truncated, DecodeError::Truncated);
    assert_ne!(DecodeError::Truncated, DecodeError::FrameMismatch);
    assert_ne!(
        DecodeError::UnexpectedField { key: 1 },
        DecodeError::UnexpectedField { key: 2 }
    );
    let e = DecodeError::UnsupportedEncoding { prefix: 0xD0 };
    let copy = e;
    assert_eq!(e, copy);
}
