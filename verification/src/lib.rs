//! Minimal verified parser for tab-separated-value (TSV) data.
//!
//! The supported data format differs from standard TSV by omitting the
//! header line and allowing each line to encode a different type.
//! A [`Document`] is created from a raw byte buffer (validated as UTF-8
//! up front) and consumed line by line; each line is split into
//! tab-delimited fields by a [`Walker`], and values are assembled from
//! those fields through the [`Read`] trait, which scalar types and
//! user-defined record types implement. The derivation rules by which a
//! declared aggregate type reads itself — fields in declaration order,
//! an enum's variant chosen by an exactly matching tag field — are
//! verified here once: tag dispatch as [`Walker::parse_tag`], and the
//! whole rule set as [`parse_by_shape`] over a [`FieldShape`]
//! descriptor.
//!
//! Parsed text fields borrow the document's buffer; no field is copied.
//!
//! A record must consume its whole line: fields still unread once the
//! record is assembled are an error, [`Error::SurplusFields`], at the
//! document-level entry point and at the line-level entry point alike.

mod compound;
mod cursor;
mod encoding;
mod err;
mod laws;
mod prim;
mod shape;
mod reader;
mod split;

pub use encoding::is_utf8;
pub use err::Error;
pub use laws::{
    dec_repr, hex_digit_repr, hex_repr, int_repr, lemma_dec_repr_value, lemma_hex_field_round_trip,
    lemma_document_round_trip, lemma_int_field_round_trip, lemma_record_round_trip,
    lemma_shape_round_trip, lemma_shapes_round_trip, lemma_uint_field_round_trip, record_line,
    record_lines, shape_repr, shape_value_fits, shapes_repr, shapes_values_fit,
};
pub use prim::{
    all_dec_digits, all_hex_digits, dec_digit_value, dec_value, hex_byte_at, hex_digit_value,
    hex_field_ok, int_digits, int_field_ok, int_literal_value, is_dec_digit, is_false_field,
    is_hex_digit, is_int_literal, is_true_field, is_uint_literal, uint_digits, uint_field_ok,
    uint_literal_value,
};
pub use reader::{line_fields, line_parse_err, line_parse_ok, Document, Read, Walker};
pub use shape::{
    int_hi, int_lo, lemma_shape_outcome_exclusive, lemma_shapes_outcome_exclusive, lemma_tag_pos,
    parse_by_shape, shape_consumed, shape_parse_err, shape_parse_ok, shapes_consumed,
    shapes_parse_err, shapes_parse_ok, tag_pos, uint_bound, variant_names, FieldShape, FieldValue,
    IntWidth,
};
pub use split::{join_with, split_on, FIELD_SEP, LINE_SEP};
