//! Decoder for the marks in an editor's session-state log.
//!
//! The log is a sequence of length-framed binary records. Every record
//! begins with two header bytes. Global and local marks are decoded in full:
//! a timestamp of four bytes, a length and a map of tagged fields, from
//! which the name of the mark, its line and the path of its file are taken.
//! Every other record is passed over by its length. Lengths and numbers are
//! compact variable-width integers of one to five bytes.
//!
//! [`stream::decode_stream`] decodes a whole log and returns one line of
//! text for every mark whose name is a letter and whose path is absolute.
//! What each function computes is stated over the bytes of the stream:
//! [`varlen::uint_decoding`] for one integer, [`fields::body_decoding`] for
//! one field map, [`record::record_decoding`] for one record and
//! [`stream::stream_decoding`] for the stream.

pub mod error;
pub mod source;
pub mod varlen;
pub mod fields;
pub mod text;
pub mod mark;
pub mod record;
pub mod stream;
