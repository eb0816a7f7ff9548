//! The tagged key/value map that a mark record carries.

use vstd::prelude::*;
use crate::error::DecodeError;
use crate::source::{read_byte, read_vec, ByteSource};
use crate::varlen::{
    lemma_uint_decoding_bounds, lemma_uint_decoding_cut, lemma_uint_decoding_local,
    lemma_uint_round_trip, read_uint, uint_decoding, uint_encoding,
};

verus! {

/// Key of the line number.
pub const KEY_LINE: u8 = 0x6C;

/// Key of the column number, which is decoded and dropped.
pub const KEY_COLUMN: u8 = 0x63;

/// Key of the mark name.
pub const KEY_NAME: u8 = 0x6E;

/// Key of the file path.
pub const KEY_FILE: u8 = 0x66;

/// Tag byte that `field_encoding` puts before a key. The decoder reads tag
/// bytes and does not look at them.
pub const TAG_KEY: u8 = 0xA1;

/// Tag byte that `field_encoding` puts before the length of a path.
pub const TAG_BINARY: u8 = 0xC4;

/// Tag byte that `body_encoding` puts before the fields.
pub const TAG_MAP: u8 = 0x80;

/// Line number of a mark record that carries none.
pub const DEFAULT_LINE: usize = 1;

/// Mark name of a mark record that carries none: the code of `"`.
pub const DEFAULT_MARK_NAME: usize = 34;

/// One decoded field of a mark record.
pub enum Field {
    /// The line of the cursor, under the key `l`.
    Line(nat),
    /// The column of the cursor, under the key `c`.
    Column(nat),
    /// The name of the mark, under the key `n`.
    Name(nat),
    /// The path of the file, under the key `f`.
    File(Seq<u8>),
}

/// What a field map holds, as mathematical values.
pub struct FieldValues {
    pub line: nat,
    pub mark_name: nat,
    pub file_path: Seq<u8>,
}

/// The recognized fields of one mark record.
#[derive(Debug, PartialEq, Eq)]
pub struct FieldMap {
    /// The line of the cursor.
    pub line: usize,
    /// The name of the mark, as the number that the record gives.
    pub mark_name: usize,
    /// The path of the file, as the bytes that the record gives.
    pub file_path: Vec<u8>,
}

impl View for FieldMap {
    type V = FieldValues;

    open spec fn view(&self) -> FieldValues {
        FieldValues {
            line: self.line as nat,
            mark_name: self.mark_name as nat,
            file_path: self.file_path@,
        }
    }
}

impl FieldMap {
    /// The field map of a record without fields.
    pub fn new() -> (fields: FieldMap)
        ensures
            fields@ == default_fields(),
    {
        FieldMap { line: DEFAULT_LINE, mark_name: DEFAULT_MARK_NAME, file_path: Vec::new() }
    }
}

/// The values of a record without fields: line 1, mark name `"`, no path.
pub open spec fn default_fields() -> FieldValues {
    FieldValues { line: 1, mark_name: 34, file_path: Seq::empty() }
}

/// The values after one more field: a line, a name or a path replaces what
/// was there, a column changes nothing.
pub open spec fn with_field(values: FieldValues, field: Field) -> FieldValues {
    match field {
        Field::Line(line) => FieldValues { line, ..values },
        Field::Column(_) => values,
        Field::Name(mark_name) => FieldValues { mark_name, ..values },
        Field::File(file_path) => FieldValues { file_path, ..values },
    }
}

/// The values that a sequence of fields leaves, the later field winning.
pub open spec fn field_map_of(fields: Seq<Field>) -> FieldValues
    decreases fields.len(),
{
    if fields.len() == 0 {
        default_fields()
    } else {
        with_field(field_map_of(fields.drop_last()), fields.last())
    }
}

/// Inside a record, running out of bytes means that the record's declared
/// length and its fields disagree.
pub open spec fn within_frame(e: DecodeError) -> DecodeError {
    if e == DecodeError::Truncated {
        DecodeError::FrameMismatch
    } else {
        e
    }
}

/// The scalar field that `key` announces.
pub open spec fn scalar_field(key: u8, value: nat) -> Field {
    if key == KEY_LINE {
        Field::Line(value)
    } else if key == KEY_NAME {
        Field::Name(value)
    } else {
        Field::Column(value)
    }
}

/// The field at the front of `s`, where `s` is what is left of a record's
/// body, and the number of bytes that the field occupies.
///
/// A field is a tag byte, a key byte and a value. Under the keys `l`, `c` and
/// `n` the value is a variable-width integer. Under `f` it is one more tag
/// byte, a variable-width length and that many raw bytes.
pub open spec fn field_decoding(s: Seq<u8>) -> Result<(Field, nat), DecodeError> {
    if s.len() < 2 {
        Err(DecodeError::FrameMismatch)
    } else if s[1] == KEY_LINE || s[1] == KEY_COLUMN || s[1] == KEY_NAME {
        match uint_decoding(s.skip(2)) {
            Ok((value, width)) => Ok((scalar_field(s[1], value), 2 + width)),
            Err(e) => Err(within_frame(e)),
        }
    } else if s[1] == KEY_FILE {
        if s.len() < 3 {
            Err(DecodeError::FrameMismatch)
        } else {
            match uint_decoding(s.skip(3)) {
                Ok((len, width)) => if s.len() < 3 + width + len {
                    Err(DecodeError::FrameMismatch)
                } else {
                    Ok(
                        (
                            Field::File(s.subrange((3 + width) as int, (3 + width + len) as int)),
                            3 + width + len,
                        ),
                    )
                },
                Err(e) => Err(within_frame(e)),
            }
        }
    } else {
        Err(DecodeError::UnexpectedField { key: s[1] })
    }
}

/// The fields that tile `s` exactly, in order.
pub open spec fn fields_decoding(s: Seq<u8>) -> Result<Seq<Field>, DecodeError>
    decreases s.len(),
{
    if s.len() == 0 {
        Ok(Seq::empty())
    } else {
        match field_decoding(s) {
            Ok((field, width)) => after_fields(
                seq![field],
                fields_decoding(s.skip(width as int)),
            ),
            Err(e) => Err(e),
        }
    }
}

/// `done` followed by the fields of `rest`, or the failure of `rest`.
pub open spec fn after_fields(done: Seq<Field>, rest: Result<Seq<Field>, DecodeError>) -> Result<
    Seq<Field>,
    DecodeError,
> {
    match rest {
        Ok(more) => Ok(done + more),
        Err(e) => Err(e),
    }
}

/// The fields of a record whose body is `body`: one leading tag byte, then
/// fields up to the last byte of the body and not beyond.
pub open spec fn body_decoding(body: Seq<u8>) -> Result<Seq<Field>, DecodeError> {
    if body.len() == 0 {
        Err(DecodeError::FrameMismatch)
    } else {
        fields_decoding(body.skip(1))
    }
}

/// The field values of the record whose body is the first `total_length`
/// bytes of `s`.
#[verifier::opaque]
pub open spec fn field_map_decoding(s: Seq<u8>, total_length: nat) -> Result<
    FieldValues,
    DecodeError,
> {
    if s.len() < total_length {
        Err(DecodeError::Truncated)
    } else {
        match body_decoding(s.take(total_length as int)) {
            Ok(fields) => Ok(field_map_of(fields)),
            Err(e) => Err(e),
        }
    }
}

/// Decodes the field at the front of `frame`, which holds what is left of a
/// record's body, stores its value in `fields` and returns the number of
/// bytes that the field occupied.
///
/// Fails with `FrameMismatch` when the body ends inside the field, with
/// `UnexpectedField` on a key other than `l`, `c`, `n` and `f`, and with
/// `UnsupportedEncoding` on an integer of an undecoded form. A failure leaves
/// nothing in `frame`, and `fields` as it was.
pub fn decode_field(frame: &mut ByteSource, fields: &mut FieldMap) -> (res: Result<
    usize,
    DecodeError,
>)
    ensures
        match field_decoding(old(frame)@) {
            Ok((field, width)) => {
                &&& res matches Ok(consumed)
                &&& consumed == width
                &&& 3 <= width <= old(frame)@.len()
                &&& final(fields)@ == with_field(old(fields)@, field)
                &&& final(frame)@ == old(frame)@.skip(width as int)
            },
            Err(e) => {
                &&& res == Err::<usize, DecodeError>(e)
                &&& final(fields)@ == old(fields)@
                &&& final(frame)@ == Seq::<u8>::empty()
            },
        },
{
    let ghost s = frame@;
    proof {
        frame.lemma_len_fits();
    }
    if read_byte(frame).is_err() {
        return Err(DecodeError::FrameMismatch);
    }
    let key: u8 = match read_byte(frame) {
        Ok(key) => key,
        Err(_) => {
            return Err(DecodeError::FrameMismatch);
        },
    };
    assert(frame@ == s.skip(2));
    if key == KEY_LINE || key == KEY_COLUMN || key == KEY_NAME {
        let (value, consumed) = match read_uint(frame) {
            Ok(pair) => pair,
            Err(e) => {
                return Err(framed(e));
            },
        };
        if key == KEY_LINE {
            fields.line = value;
        } else if key == KEY_NAME {
            fields.mark_name = value;
        }
        assert(frame@ == s.skip(2 + consumed));
        Ok(2 + consumed)
    } else if key == KEY_FILE {
        if read_byte(frame).is_err() {
            return Err(DecodeError::FrameMismatch);
        }
        assert(frame@ == s.skip(3));
        let (length, consumed) = match read_uint(frame) {
            Ok(pair) => pair,
            Err(e) => {
                return Err(framed(e));
            },
        };
        let filename = match read_vec(frame, length) {
            Ok(filename) => filename,
            Err(_) => {
                return Err(DecodeError::FrameMismatch);
            },
        };
        assert(filename@ == s.subrange(3 + consumed, 3 + consumed + length));
        fields.file_path = filename;
        Ok(3 + consumed + length)
    } else {
        frame.drain();
        Err(DecodeError::UnexpectedField { key })
    }
}

/// The failure to report for a failure `e` met inside a record's body.
fn framed(e: DecodeError) -> (err: DecodeError)
    ensures
        err == within_frame(e),
{
    match e {
        DecodeError::Truncated => DecodeError::FrameMismatch,
        _ => e,
    }
}

/// Decodes the fields of the mark record whose body is the next
/// `total_length` bytes of `reader`, and returns them with the number of
/// bytes that were consumed, which is `total_length`.
///
/// Fails with `Truncated` when `reader` holds fewer than `total_length`
/// bytes, and with `FrameMismatch` when the fields do not end exactly with
/// the body. A failure leaves nothing in `reader`.
pub fn decode_field_map(reader: &mut ByteSource, total_length: usize) -> (res: Result<
    (FieldMap, usize),
    DecodeError,
>)
    ensures
        match field_map_decoding(old(reader)@, total_length as nat) {
            Ok(values) => {
                &&& res matches Ok((fields, consumed))
                &&& fields@ == values
                &&& consumed == total_length
                &&& total_length <= old(reader)@.len()
                &&& final(reader)@ == old(reader)@.skip(total_length as int)
            },
            Err(e) => {
                &&& res matches Err(err)
                &&& err == e
                &&& final(reader)@ == Seq::<u8>::empty()
            },
        },
{
    reveal(field_map_decoding);
    let body = match read_vec(reader, total_length) {
        Ok(body) => body,
        Err(e) => {
            return Err(e);
        },
    };
    let ghost all = body@;
    let mut frame = ByteSource::new(body);
    let mut fields = FieldMap::new();
    let ghost mut decoded: Seq<Field> = Seq::empty();

    if read_byte(&mut frame).is_err() {
        reader.drain();
        return Err(DecodeError::FrameMismatch);
    }
    let mut processed: usize = 1;

    while processed < total_length
        invariant
            1 <= processed <= total_length,
            all.len() == total_length <= old(reader)@.len(),
            all == old(reader)@.take(total_length as int),
            frame@ == all.skip(processed as int),
            fields@ == field_map_of(decoded),
            fields_decoding(all.skip(1)) == after_fields(decoded, fields_decoding(frame@)),
            reader@ == old(reader)@.skip(total_length as int),
        decreases total_length - processed,
    {
        let ghost s = frame@;
        proof {
            reveal(field_map_decoding);
        }
        let consumed = match decode_field(&mut frame, &mut fields) {
            Ok(consumed) => consumed,
            Err(e) => {
                reader.drain();
                return Err(e);
            },
        };
        processed = processed + consumed;
        proof {
            let field = field_decoding(s)->Ok_0.0;
            let more = fields_decoding(frame@);
            assert(decoded.push(field).drop_last() == decoded);
            if more is Ok {
                assert(decoded + (seq![field] + more->Ok_0) == decoded.push(field) + more->Ok_0);
            }
            decoded = decoded.push(field);
        }
    }
    Ok((fields, processed))
}

/// A field map that is longer than the stream is reported as truncated,
/// whatever the stream holds, and no other is.
pub proof fn lemma_field_map_decoding_truncated(s: Seq<u8>, total_length: nat)
    ensures
        s.len() < total_length ==> field_map_decoding(s, total_length) == Err::<
            FieldValues,
            DecodeError,
        >(DecodeError::Truncated),
        field_map_decoding(s, total_length) is Ok ==> total_length <= s.len(),
{
    reveal(field_map_decoding);
}

/// Decoding a field map looks only at the bytes of its body: a sequence
/// that begins with the same bytes decodes alike.
pub proof fn lemma_field_map_decoding_local(s: Seq<u8>, t: Seq<u8>, total_length: nat)
    requires
        total_length <= s.len(),
        total_length <= t.len(),
        s.take(total_length as int) == t.take(total_length as int),
    ensures
        field_map_decoding(t, total_length) == field_map_decoding(s, total_length),
{
    reveal(field_map_decoding);
}

/// Fields that are absent keep their defaults: without a line field the
/// line is 1, without a name field the mark name is the code of `"`, and
/// without a file field the path is empty.
pub proof fn lemma_absent_fields_default(fields: Seq<Field>)
    ensures
        (forall|i: int| 0 <= i < fields.len() ==> !(fields[i] is Line)) ==> field_map_of(
            fields,
        ).line == 1,
        (forall|i: int| 0 <= i < fields.len() ==> !(fields[i] is Name)) ==> field_map_of(
            fields,
        ).mark_name == 34,
        (forall|i: int| 0 <= i < fields.len() ==> !(fields[i] is File)) ==> field_map_of(
            fields,
        ).file_path == Seq::<u8>::empty(),
    decreases fields.len(),
{
    if fields.len() > 0 {
        lemma_absent_fields_default(fields.drop_last());
    }
}

/// A decoded field occupies at least three bytes, all of them in the input.
pub proof fn lemma_field_decoding_bounds(s: Seq<u8>)
    requires
        field_decoding(s) is Ok,
    ensures
        3 <= field_decoding(s)->Ok_0.1 <= s.len(),
{
    if s[1] == KEY_FILE {
        lemma_uint_decoding_bounds(s.skip(3));
    } else {
        lemma_uint_decoding_bounds(s.skip(2));
    }
}

/// Decoding a field looks only at the bytes of the field: a sequence that
/// begins with the same bytes decodes alike.
pub proof fn lemma_field_decoding_local(s: Seq<u8>, t: Seq<u8>)
    requires
        field_decoding(s) is Ok,
        field_decoding(s)->Ok_0.1 <= t.len(),
        s.take(field_decoding(s)->Ok_0.1 as int) == t.take(field_decoding(s)->Ok_0.1 as int),
    ensures
        field_decoding(t) == field_decoding(s),
{
    let n = field_decoding(s)->Ok_0.1 as int;
    lemma_field_decoding_bounds(s);
    assert forall|i: int| 0 <= i < n implies s[i] == t[i] by {
        assert(s.take(n)[i] == t.take(n)[i]);
    }
    if s[1] == KEY_FILE {
        let (len, width) = uint_decoding(s.skip(3))->Ok_0;
        lemma_uint_decoding_bounds(s.skip(3));
        assert(s.skip(3).take(width as int) == t.skip(3).take(width as int));
        lemma_uint_decoding_local(s.skip(3), t.skip(3));
        assert(s.subrange((3 + width) as int, (3 + width + len) as int) == t.subrange(
            (3 + width) as int,
            (3 + width + len) as int,
        ));
    } else {
        let (value, width) = uint_decoding(s.skip(2))->Ok_0;
        lemma_uint_decoding_bounds(s.skip(2));
        assert(s.skip(2).take(width as int) == t.skip(2).take(width as int));
        lemma_uint_decoding_local(s.skip(2), t.skip(2));
    }
}

/// A field that is cut short does not fit the frame.
pub proof fn lemma_field_decoding_cut(s: Seq<u8>, k: int)
    requires
        field_decoding(s) is Ok,
        0 <= k < field_decoding(s)->Ok_0.1,
    ensures
        field_decoding(s.take(k)) == Err::<(Field, nat), DecodeError>(DecodeError::FrameMismatch),
{
    lemma_field_decoding_bounds(s);
    let t = s.take(k);
    if k >= 2 {
        if s[1] == KEY_FILE {
            if k >= 3 {
                let (len, width) = uint_decoding(s.skip(3))->Ok_0;
                lemma_uint_decoding_bounds(s.skip(3));
                if k - 3 < width {
                    lemma_uint_decoding_cut(s.skip(3), k - 3);
                } else {
                    assert(s.skip(3).take(width as int) == t.skip(3).take(width as int));
                    lemma_uint_decoding_local(s.skip(3), t.skip(3));
                }
            }
        } else {
            lemma_uint_decoding_cut(s.skip(2), k - 2);
        }
    }
}

/// Fields that tile a sequence exactly do not tile it with one more byte at
/// its end.
pub proof fn lemma_fields_decoding_one_more(s: Seq<u8>, x: u8)
    requires
        fields_decoding(s) is Ok,
    ensures
        fields_decoding(s.push(x)) == Err::<Seq<Field>, DecodeError>(DecodeError::FrameMismatch),
    decreases s.len(),
{
    let t = s.push(x);
    if s.len() > 0 {
        let n = field_decoding(s)->Ok_0.1 as int;
        lemma_field_decoding_bounds(s);
        assert(s.take(n) == t.take(n));
        lemma_field_decoding_local(s, t);
        assert(t.skip(n) == s.skip(n).push(x));
        lemma_fields_decoding_one_more(s.skip(n), x);
    }
}

/// Of fields that tile a sequence exactly, a prefix of the sequence holds
/// some in full, or does not fit the frame.
pub proof fn lemma_fields_decoding_cut(s: Seq<u8>, k: int)
    requires
        fields_decoding(s) is Ok,
        0 <= k <= s.len(),
    ensures
        fields_decoding(s.take(k)) is Ok || fields_decoding(s.take(k)) == Err::<
            Seq<Field>,
            DecodeError,
        >(DecodeError::FrameMismatch),
    decreases s.len(),
{
    let t = s.take(k);
    if k > 0 {
        let n = field_decoding(s)->Ok_0.1 as int;
        lemma_field_decoding_bounds(s);
        if k < n {
            lemma_field_decoding_cut(s, k);
        } else {
            assert(s.take(n) == t.take(n));
            lemma_field_decoding_local(s, t);
            assert(t.skip(n) == s.skip(n).take(k - n));
            lemma_fields_decoding_cut(s.skip(n), k - n);
        }
    }
}

/// A body whose declared length is one more than its fields take fails
/// with `FrameMismatch`, whatever the extra byte is.
pub proof fn lemma_body_declared_too_long(body: Seq<u8>, x: u8)
    requires
        body_decoding(body) is Ok,
    ensures
        body_decoding(body.push(x)) == Err::<Seq<Field>, DecodeError>(
            DecodeError::FrameMismatch,
        ),
{
    assert(body.push(x).skip(1) == body.skip(1).push(x));
    lemma_fields_decoding_one_more(body.skip(1), x);
}

/// A body whose declared length is less than its fields take fails with
/// `FrameMismatch`, unless the declared length ends between two fields.
pub proof fn lemma_body_declared_too_short(body: Seq<u8>, k: int)
    requires
        body_decoding(body) is Ok,
        0 <= k <= body.len(),
    ensures
        body_decoding(body.take(k)) is Ok || body_decoding(body.take(k)) == Err::<
            Seq<Field>,
            DecodeError,
        >(DecodeError::FrameMismatch),
{
    if k > 0 {
        assert(body.take(k).skip(1) == body.skip(1).take(k - 1));
        lemma_fields_decoding_cut(body.skip(1), k - 1);
    }
}

/// Whether `field` can be written down: its number, or the length of its
/// path, fits in 32 bits.
pub open spec fn is_encodable(field: Field) -> bool {
    match field {
        Field::Line(value) => value <= u32::MAX,
        Field::Column(value) => value <= u32::MAX,
        Field::Name(value) => value <= u32::MAX,
        Field::File(path) => path.len() <= u32::MAX,
    }
}

/// The bytes of `field`: a tag, its key and its value, every integer in its
/// shortest form.
pub open spec fn field_encoding(field: Field) -> Seq<u8>
    recommends
        is_encodable(field),
{
    match field {
        Field::Line(value) => seq![TAG_KEY, KEY_LINE] + uint_encoding(value),
        Field::Column(value) => seq![TAG_KEY, KEY_COLUMN] + uint_encoding(value),
        Field::Name(value) => seq![TAG_KEY, KEY_NAME] + uint_encoding(value),
        Field::File(path) => seq![TAG_KEY, KEY_FILE, TAG_BINARY] + uint_encoding(path.len())
            + path,
    }
}

/// The bytes of `fields`, one field after the other.
pub open spec fn fields_encoding(fields: Seq<Field>) -> Seq<u8>
    decreases fields.len(),
{
    if fields.len() == 0 {
        Seq::empty()
    } else {
        field_encoding(fields.first()) + fields_encoding(fields.drop_first())
    }
}

/// The body of a mark record that holds `fields`.
pub open spec fn body_encoding(fields: Seq<Field>) -> Seq<u8> {
    seq![TAG_MAP] + fields_encoding(fields)
}

/// A tag, one of the keys `l`, `c` and `n`, and an encoded integer decode to
/// the field of that key.
proof fn lemma_scalar_round_trip(key: u8, value: nat, rest: Seq<u8>)
    requires
        key == KEY_LINE || key == KEY_COLUMN || key == KEY_NAME,
        value <= u32::MAX,
    ensures
        field_decoding(seq![TAG_KEY, key] + uint_encoding(value) + rest) == Ok::<
            (Field, nat),
            DecodeError,
        >((scalar_field(key, value), (seq![TAG_KEY, key] + uint_encoding(value)).len())),
{
    lemma_uint_round_trip(value, rest);
}

/// A tag, the key `f`, a tag, an encoded length and that many bytes decode
/// to a file field with those bytes.
proof fn lemma_file_round_trip(path: Seq<u8>, rest: Seq<u8>)
    requires
        path.len() <= u32::MAX,
    ensures
        field_decoding(field_encoding(Field::File(path)) + rest) == Ok::<
            (Field, nat),
            DecodeError,
        >((Field::File(path), field_encoding(Field::File(path)).len())),
{
    let length = uint_encoding(path.len());
    let s = seq![TAG_KEY, KEY_FILE, TAG_BINARY] + length + path + rest;
    let width = length.len();
    lemma_uint_round_trip(path.len(), path + rest);
    assert(s.subrange((3 + width) as int, (3 + width + path.len()) as int) == path);
}

/// Decoding inverts encoding, field by field: whatever follows the bytes of
/// `field`, decoding gives back `field` and takes exactly its bytes.
pub proof fn lemma_field_round_trip(field: Field, rest: Seq<u8>)
    requires
        is_encodable(field),
    ensures
        field_decoding(field_encoding(field) + rest) == Ok::<(Field, nat), DecodeError>(
            (field, field_encoding(field).len()),
        ),
{
    match field {
        Field::File(path) => lemma_file_round_trip(path, rest),
        Field::Line(value) => lemma_scalar_round_trip(KEY_LINE, value, rest),
        Field::Column(value) => lemma_scalar_round_trip(KEY_COLUMN, value, rest),
        Field::Name(value) => lemma_scalar_round_trip(KEY_NAME, value, rest),
    }
}

/// Decoding inverts encoding: the bytes of `fields` decode to `fields`.
pub proof fn lemma_fields_round_trip(fields: Seq<Field>)
    requires
        forall|i: int| 0 <= i < fields.len() ==> is_encodable(#[trigger] fields[i]),
    ensures
        fields_decoding(fields_encoding(fields)) == Ok::<Seq<Field>, DecodeError>(fields),
    decreases fields.len(),
{
    if fields.len() > 0 {
        let first = fields.first();
        let others = fields.drop_first();
        let rest = fields_encoding(others);
        let s = fields_encoding(fields);
        assert forall|i: int| 0 <= i < others.len() implies is_encodable(#[trigger] others[i]) by {}
        lemma_field_round_trip(first, rest);
        lemma_fields_round_trip(others);
        lemma_field_decoding_bounds(s);
        assert(s.skip(field_encoding(first).len() as int) == rest);
        assert(seq![first] + others == fields);
    } else {
        assert(fields == Seq::<Field>::empty());
    }
}

/// The body that holds `fields` decodes to `fields`, and so to the values
/// that they leave.
pub proof fn lemma_body_round_trip(fields: Seq<Field>)
    requires
        forall|i: int| 0 <= i < fields.len() ==> is_encodable(#[trigger] fields[i]),
    ensures
        body_decoding(body_encoding(fields)) == Ok::<Seq<Field>, DecodeError>(fields),
        field_map_decoding(body_encoding(fields), body_encoding(fields).len()) == Ok::<
            FieldValues,
            DecodeError,
        >(field_map_of(fields)),
{
    reveal(field_map_decoding);
    let body = body_encoding(fields);
    lemma_fields_round_trip(fields);
    assert(body.skip(1) == fields_encoding(fields));
    assert(body.take(body.len() as int) == body);
}

} // verus!
