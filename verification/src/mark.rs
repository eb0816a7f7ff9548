//! Marks worth printing, and the line that prints one.

use vstd::prelude::*;
use vstd::string::StringSliceAdditionalSpecFns;
use vstd::utf8::{decode_utf8, encode_utf8_decode_utf8, valid_utf8};
use crate::error::DecodeError;
use crate::fields::{FieldMap, FieldValues};
use crate::text::{decimal_text, push_decimal};

verus! {

/// `core::str::Utf8Error`, the reason why `core::str::from_utf8` refused a
/// byte slice. Nothing is known of what it holds.
#[verifier::external_type_specification]
#[verifier::external_body]
pub struct ExUtf8Error(core::str::Utf8Error);

/// `core::str::from_utf8`: succeeds on exactly the byte slices that are
/// well-formed UTF-8, and the string slice it then returns consists of the
/// very bytes it was given.
pub assume_specification[ core::str::from_utf8 ](v: &[u8]) -> (res: Result<
    &str,
    core::str::Utf8Error,
>)
    ensures
        res is Ok <==> valid_utf8(v@),
        res matches Ok(text) ==> text.spec_bytes() == v@,
;

/// A mark as one line of output shows it.
#[derive(Debug, PartialEq, Eq)]
pub struct MarkRecord {
    /// The name of the mark, as an ASCII code.
    pub mark_name: u8,
    /// The line of the cursor.
    pub line: usize,
    /// The path of the file.
    pub file_path: Vec<u8>,
}

/// What a mark record holds, as mathematical values.
pub struct MarkValues {
    pub mark_name: u8,
    pub line: nat,
    pub file_path: Seq<u8>,
}

impl View for MarkRecord {
    type V = MarkValues;

    open spec fn view(&self) -> MarkValues {
        MarkValues {
            mark_name: self.mark_name,
            line: self.line as nat,
            file_path: self.file_path@,
        }
    }
}

/// Whether `name` is the code of an ASCII letter.
pub open spec fn is_letter(name: nat) -> bool {
    (0x41 <= name <= 0x5A) || (0x61 <= name <= 0x7A)
}

/// Whether `path` is not empty and begins with `/`.
pub open spec fn is_absolute(path: Seq<u8>) -> bool {
    path.len() > 0 && path[0] == 0x2F
}

/// Whether a mark with these fields is printed: its name is a letter and its
/// path is absolute.
pub open spec fn qualifies(values: FieldValues) -> bool {
    is_letter(values.mark_name) && is_absolute(values.file_path)
}

/// The mark that these fields describe, if it is one to print.
pub fn select_mark(fields: FieldMap) -> (res: Option<MarkRecord>)
    ensures
        res is Some <==> qualifies(fields@),
        res matches Some(mark) ==> mark@ == mark_of(fields@),
{
    let name: usize = fields.mark_name;
    if (name >= 0x41 && name <= 0x5A) || (name >= 0x61 && name <= 0x7A) {
        if fields.file_path.len() > 0 && fields.file_path[0] == 0x2F {
            return Some(
                MarkRecord {
                    mark_name: name as u8,
                    line: fields.line,
                    file_path: fields.file_path,
                },
            );
        }
    }
    None
}

/// The line that prints a mark: its name as a character, a tab, its line
/// number in decimal, a tab, and its path read as UTF-8.
pub open spec fn mark_line(mark: MarkValues) -> Seq<char>
    recommends
        valid_utf8(mark.file_path),
{
    seq![mark.mark_name as char, '\t'] + decimal_text(mark.line) + seq!['\t'] + decode_utf8(
        mark.file_path,
    )
}

/// The line that prints `mark`, or `EncodingError` when its path is not
/// valid UTF-8.
pub fn render_line(mark: &MarkRecord) -> (res: Result<String, DecodeError>)
    ensures
        valid_utf8(mark@.file_path) ==> (res matches Ok(line) && line@ == mark_line(mark@)),
        !valid_utf8(mark@.file_path) ==> res == Err::<String, DecodeError>(
            DecodeError::EncodingError,
        ),
{
    let path: &str = match core::str::from_utf8(mark.file_path.as_slice()) {
        Ok(path) => path,
        Err(_) => {
            return Err(DecodeError::EncodingError);
        },
    };
    assert(path@ == decode_utf8(mark@.file_path)) by {
        encode_utf8_decode_utf8(path@);
    }
    let mut line = String::new();
    line.push(mark.mark_name as char);
    line.push('\t');
    push_decimal(&mut line, mark.line);
    line.push('\t');
    line.append(path);
    Ok(line)
}

/// The mark that field values describe.
pub open spec fn mark_of(values: FieldValues) -> MarkValues {
    MarkValues {
        mark_name: values.mark_name as u8,
        line: values.line,
        file_path: values.file_path,
    }
}

/// What a mark record with these fields puts out: nothing when the mark does
/// not qualify, else its line, unless its path is not valid UTF-8.
#[verifier::opaque]
pub open spec fn line_of(values: FieldValues) -> Result<Option<Seq<char>>, DecodeError> {
    if !qualifies(values) {
        Ok(None)
    } else if !valid_utf8(values.file_path) {
        Err(DecodeError::EncodingError)
    } else {
        Ok(Some(mark_line(mark_of(values))))
    }
}

/// Whether `line` holds the text `text`, or both are absent.
pub open spec fn is_line(line: Option<String>, text: Option<Seq<char>>) -> bool {
    match (line, text) {
        (Some(line), Some(text)) => line@ == text,
        (None, None) => true,
        _ => false,
    }
}

/// Filters the decoded fields of a mark record and renders the line to put
/// out, if there is one.
pub fn emit_line(fields: FieldMap) -> (res: Result<Option<String>, DecodeError>)
    ensures
        match line_of(fields@) {
            Ok(text) => res matches Ok(line) && is_line(line, text),
            Err(e) => res matches Err(err) && err == e,
        },
{
    reveal(line_of);
    match select_mark(fields) {
        None => Ok(None),
        Some(mark) => match render_line(&mark) {
            Ok(line) => Ok(Some(line)),
            Err(e) => Err(e),
        },
    }
}

} // verus!
