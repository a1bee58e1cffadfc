//! Round-trip laws: rendering values into fields and parsing them back
//! recovers the values exactly.
//!
//! The renderings here are specification-level only; the library itself
//! does not serialise. They pin the decoders down: a decoder whose
//! contract these laws follow accepts every canonically rendered value
//! and returns exactly the value rendered.

use vstd::prelude::*;
use crate::prim::{
    all_dec_digits, dec_value, hex_byte_at, hex_field_ok, int_field_ok, int_literal_value,
    is_dec_digit, is_hex_digit, hex_digit_value, uint_field_ok, uint_literal_value, DIGIT_ZERO,
    LOWER_A, MINUS,
};
use crate::reader::{line_fields, line_parse_ok, Read};
use crate::shape::{
    int_hi, int_lo, lemma_tag_pos, shape_consumed, shape_parse_ok, shapes_consumed,
    shapes_parse_ok, tag_pos, uint_bound, variant_names, FieldShape, FieldValue,
};
use crate::split::{join_with, lemma_split_join, split_on, FIELD_SEP, LINE_SEP};

verus! {

/// The canonical decimal rendering of `n >= 0`: no sign, no leading
/// zeroes (except for `0` itself).
pub open spec fn dec_repr(n: int) -> Seq<u8>
    recommends
        n >= 0,
    decreases n,
{
    if n < 10 {
        seq![(n + DIGIT_ZERO) as u8]
    } else {
        dec_repr(n / 10) + seq![(n % 10 + DIGIT_ZERO) as u8]
    }
}

/// The canonical decimal rendering of any integer: a minus sign before
/// the digits of the magnitude when `n` is negative.
pub open spec fn int_repr(n: int) -> Seq<u8> {
    if n < 0 {
        seq![MINUS] + dec_repr(-n)
    } else {
        dec_repr(n)
    }
}

/// The lower-case hexadecimal digit with value `v`.
pub open spec fn hex_digit_repr(v: int) -> u8
    recommends
        0 <= v < 16,
{
    if v < 10 {
        (v + DIGIT_ZERO) as u8
    } else {
        (v - 10 + LOWER_A) as u8
    }
}

/// The hexadecimal rendering of a byte string: two digits for each byte,
/// high nibble first.
pub open spec fn hex_repr(bs: Seq<u8>) -> Seq<u8>
    decreases bs.len(),
{
    if bs.len() == 0 {
        Seq::<u8>::empty()
    } else {
        hex_repr(bs.drop_last()) + seq![
            hex_digit_repr((bs.last() / 16) as int),
            hex_digit_repr((bs.last() % 16) as int),
        ]
    }
}

/// The decimal rendering of `n >= 0` is all digits, and its value is `n`:
/// the decimal round trip.
pub proof fn lemma_dec_repr_value(n: int)
    requires
        n >= 0,
    ensures
        dec_repr(n).len() >= 1,
        all_dec_digits(dec_repr(n)),
        dec_value(dec_repr(n)) == n,
    decreases n,
{
    if n < 10 {
        assert(dec_repr(n).drop_last() =~= Seq::<u8>::empty());
        assert(dec_value(dec_repr(n)) == dec_value(Seq::<u8>::empty()) * 10 + n);
    } else {
        lemma_dec_repr_value(n / 10);
        let pre = dec_repr(n / 10);
        let d = ((n % 10) + DIGIT_ZERO) as u8;
        assert(dec_repr(n).drop_last() =~= pre);
        assert(dec_repr(n).last() == d);
        assert forall|i: int| 0 <= i < dec_repr(n).len() implies is_dec_digit(
            #[trigger] dec_repr(n)[i],
        ) by {
            if i < pre.len() {
                assert(dec_repr(n)[i] == pre[i]);
            }
        }
        assert(dec_value(dec_repr(n)) == dec_value(pre) * 10 + (d - DIGIT_ZERO));
        assert(dec_value(pre) * 10 + (n % 10) == n) by (nonlinear_arith)
            requires
                dec_value(pre) == n / 10,
                n >= 10,
        ;
    }
}

/// Rendering any unsigned value up to `max` and decoding it as an
/// unsigned field of bound `max` yields the value back.
pub proof fn lemma_uint_field_round_trip(n: int, max: int)
    requires
        0 <= n <= max,
    ensures
        uint_field_ok(dec_repr(n), max),
        uint_literal_value(dec_repr(n)) == n,
{
    lemma_dec_repr_value(n);
}

/// Rendering any signed value within `lo ..= hi` and decoding it as a
/// signed field of those bounds yields the value back.
pub proof fn lemma_int_field_round_trip(n: int, lo: int, hi: int)
    requires
        lo <= n <= hi,
    ensures
        int_field_ok(int_repr(n), lo, hi),
        int_literal_value(int_repr(n)) == n,
{
    if n < 0 {
        lemma_dec_repr_value(-n);
        assert((seq![MINUS] + dec_repr(-n)).skip(1) =~= dec_repr(-n));
    } else {
        lemma_dec_repr_value(n);
    }
}

/// Rendering a byte string in hexadecimal and decoding it back, pair by
/// pair, yields every byte unchanged: the hexadecimal round trip.
pub proof fn lemma_hex_field_round_trip(bs: Seq<u8>)
    ensures
        hex_field_ok(hex_repr(bs), bs.len() as int),
        forall|i: int| 0 <= i < bs.len() ==> #[trigger] hex_byte_at(hex_repr(bs), i) == bs[i],
    decreases bs.len(),
{
    if bs.len() > 0 {
        lemma_hex_field_round_trip(bs.drop_last());
        let pre = hex_repr(bs.drop_last());
        let hr = hex_repr(bs);
        let b = bs.last();
        assert(hr.len() == pre.len() + 2);
        assert(is_hex_digit(hex_digit_repr((b / 16) as int)));
        assert(is_hex_digit(hex_digit_repr((b % 16) as int)));
        assert forall|j: int| 0 <= j < hr.len() implies is_hex_digit(#[trigger] hr[j]) by {
            if j < pre.len() {
                assert(hr[j] == pre[j]);
            }
        }
        assert forall|i: int| 0 <= i < bs.len() implies #[trigger] hex_byte_at(hr, i)
            == bs[i] by {
            if i < bs.len() - 1 {
                assert(hr[2 * i] == pre[2 * i]);
                assert(hr[2 * i + 1] == pre[2 * i + 1]);
                assert(hex_byte_at(pre, i) == bs.drop_last()[i]);
            } else {
                assert(hr[2 * i] == hex_digit_repr((b / 16) as int));
                assert(hr[2 * i + 1] == hex_digit_repr((b % 16) as int));
                assert(hex_digit_value(hex_digit_repr((b / 16) as int)) == (b / 16) as int);
                assert(hex_digit_value(hex_digit_repr((b % 16) as int)) == (b % 16) as int);
            }
        }
    }
}

/// A whole-record round trip: a record of two unsigned integers, rendered
/// as its two decimal fields with a tab between them, parses back to
/// exactly the same record, with no fields left over.
pub proof fn lemma_record_round_trip(a: u32, b: u32)
    ensures
        line_parse_ok::<(u32, u32)>(
            join_with(seq![dec_repr(a as int), dec_repr(b as int)], FIELD_SEP),
            (a, b),
        ),
{
    let ra = dec_repr(a as int);
    let rb = dec_repr(b as int);
    lemma_dec_repr_value(a as int);
    lemma_dec_repr_value(b as int);
    let pieces = seq![ra, rb];
    assert forall|k: int, j: int|
        0 <= k < pieces.len() && 0 <= j < pieces[k].len() implies #[trigger] pieces[k][j]
        != FIELD_SEP by {
        if k == 0 {
            assert(is_dec_digit(ra[j]));
        } else {
            assert(is_dec_digit(rb[j]));
        }
    }
    lemma_split_join(pieces, FIELD_SEP);
    let line = join_with(pieces, FIELD_SEP);
    let fields = line_fields(line);
    assert(fields == pieces);
    assert(fields[0] == ra);
    assert(fields.skip(1) =~= seq![rb]);
    assert(<u32 as Read>::spec_parse_ok(fields, a));
    assert(<u32 as Read>::spec_parse_ok(fields.skip(1), b));
    assert(<(u32, u32) as Read>::spec_consumed(fields) == 2);
}

/// The rendering of one record of two unsigned integers: its two decimal
/// fields with a tab between them.
pub open spec fn record_line(r: (u32, u32)) -> Seq<u8> {
    join_with(seq![dec_repr(r.0 as int), dec_repr(r.1 as int)], FIELD_SEP)
}

/// The rendering of a sequence of records, one line each.
pub open spec fn record_lines(recs: Seq<(u32, u32)>) -> Seq<Seq<u8>> {
    recs.map_values(|r: (u32, u32)| record_line(r))
}

/// Every byte of a rendered record is a decimal digit or the field
/// separator; in particular, none is the line separator.
proof fn lemma_record_line_bytes(r: (u32, u32), j: int)
    requires
        0 <= j < record_line(r).len(),
    ensures
        is_dec_digit(record_line(r)[j]) || record_line(r)[j] == FIELD_SEP,
{
    let ra = dec_repr(r.0 as int);
    let rb = dec_repr(r.1 as int);
    lemma_dec_repr_value(r.0 as int);
    lemma_dec_repr_value(r.1 as int);
    let pieces = seq![ra, rb];
    assert(pieces.skip(1) =~= seq![rb]);
    assert(join_with(seq![rb], FIELD_SEP) == rb);
    assert(record_line(r) =~= ra + seq![FIELD_SEP] + rb);
    if j < ra.len() {
        assert(record_line(r)[j] == ra[j]);
        assert(is_dec_digit(ra[j]));
    } else if j > ra.len() {
        assert(record_line(r)[j] == rb[j - ra.len() - 1]);
        assert(is_dec_digit(rb[j - ra.len() - 1]));
    }
}

/// A whole-document round trip: any records rendered one per line, with
/// newlines between the lines and tabs between the fields, split back
/// into exactly those lines, and every line parses back to exactly the
/// record it was rendered from, consuming all of its fields.
pub proof fn lemma_document_round_trip(recs: Seq<(u32, u32)>)
    requires
        recs.len() >= 1,
    ensures
        split_on(join_with(record_lines(recs), LINE_SEP), LINE_SEP) == record_lines(recs),
        forall|i: int|
            0 <= i < recs.len() ==> line_parse_ok::<(u32, u32)>(
                #[trigger] record_lines(recs)[i],
                recs[i],
            ),
{
    let lines = record_lines(recs);
    assert forall|k: int, j: int|
        0 <= k < lines.len() && 0 <= j < lines[k].len() implies #[trigger] lines[k][j]
        != LINE_SEP by {
        assert(lines[k] == record_line(recs[k]));
        lemma_record_line_bytes(recs[k], j);
    }
    lemma_split_join(lines, LINE_SEP);
    assert forall|i: int| 0 <= i < recs.len() implies line_parse_ok::<(u32, u32)>(
        #[trigger] record_lines(recs)[i],
        recs[i],
    ) by {
        lemma_record_round_trip(recs[i].0, recs[i].1);
        assert((recs[i].0, recs[i].1) == recs[i]);
        assert(record_lines(recs)[i] == record_line(recs[i]));
    }
}


/// Whether `v` is a value of shape `s`: the right constructor, scalars
/// within the shape's range, a byte string of the declared length, one
/// value per record field, and a variant whose position is in range and
/// whose identifier no earlier variant shares.
pub open spec fn shape_value_fits(s: FieldShape, v: FieldValue) -> bool
    decreases s,
{
    match s {
        FieldShape::Unit => v is Unit,
        FieldShape::UInt(w) => v is UInt && v->UInt_0 <= uint_bound(w),
        FieldShape::Int(w) => v is Int && int_lo(w) <= v->Int_0 <= int_hi(w),
        FieldShape::Bool => v is Bool,
        FieldShape::Text => v is Text,
        FieldShape::Hex(nb) => v is Bytes && v->Bytes_0@.len() == nb,
        FieldShape::Record(shapes) => v is Record && shapes_values_fit(shapes@, v->Record_0@),
        FieldShape::Tagged(vars) => v is Variant && {
            let k = v->Variant_0 as int;
            &&& 0 <= k < vars@.len()
            &&& (forall|j: int| 0 <= j < k ==> variant_names(vars@)[j] != vars@[k].0@)
            &&& shapes_values_fit(vars@[k].1@, v->Variant_1@)
        },
    }
}

/// Whether `vals` holds one fitting value per shape of `ss`.
pub open spec fn shapes_values_fit(ss: Seq<FieldShape>, vals: Seq<FieldValue>) -> bool
    decreases ss,
{
    if ss.len() == 0 {
        vals.len() == 0
    } else {
        &&& vals.len() == ss.len()
        &&& shape_value_fits(ss[0], vals[0])
        &&& shapes_values_fit(ss.skip(1), vals.skip(1))
    }
}

/// The canonical field rendering of the value `v` under the shape `s`:
/// the fields a parse by `s` would consume to assemble `v`.
pub open spec fn shape_repr(s: FieldShape, v: FieldValue) -> Seq<Seq<u8>>
    decreases s,
{
    match s {
        FieldShape::Unit => Seq::<Seq<u8>>::empty(),
        FieldShape::UInt(_) => seq![dec_repr(v->UInt_0 as int)],
        FieldShape::Int(_) => seq![int_repr(v->Int_0 as int)],
        FieldShape::Bool => if v->Bool_0 {
            seq![seq![116u8, 114u8, 117u8, 101u8]]
        } else {
            seq![seq![102u8, 97u8, 108u8, 115u8, 101u8]]
        },
        FieldShape::Text => seq![v->Text_0@],
        FieldShape::Hex(_) => seq![hex_repr(v->Bytes_0@)],
        FieldShape::Record(shapes) => shapes_repr(shapes@, v->Record_0@),
        FieldShape::Tagged(vars) => {
            let k = v->Variant_0 as int;
            if 0 <= k < vars@.len() {
                seq![vars@[k].0@] + shapes_repr(vars@[k].1@, v->Variant_1@)
            } else {
                Seq::<Seq<u8>>::empty()
            }
        },
    }
}

/// The canonical field rendering of one value per shape, in order.
pub open spec fn shapes_repr(ss: Seq<FieldShape>, vals: Seq<FieldValue>) -> Seq<Seq<u8>>
    decreases ss,
{
    if ss.len() == 0 {
        Seq::<Seq<u8>>::empty()
    } else {
        shape_repr(ss[0], vals[0]) + shapes_repr(ss.skip(1), vals.skip(1))
    }
}

/// The round trip for every shape: a fitting value, rendered canonically
/// and placed before any remaining fields, parses back to exactly itself,
/// consuming exactly its rendered fields. This holds of every shape the
/// derivation rule set can describe — scalars, text, byte strings,
/// records, and tagged variants, nested arbitrarily.
pub proof fn lemma_shape_round_trip(s: FieldShape, v: FieldValue, rest: Seq<Seq<u8>>)
    requires
        shape_value_fits(s, v),
    ensures
        shape_parse_ok(s, shape_repr(s, v) + rest, v),
        shape_consumed(s, shape_repr(s, v) + rest) == shape_repr(s, v).len(),
    decreases s,
{
    let fields = shape_repr(s, v) + rest;
    match s {
        FieldShape::Unit => {},
        FieldShape::UInt(w) => {
            assert(fields[0] == dec_repr(v->UInt_0 as int));
            lemma_uint_field_round_trip(v->UInt_0 as int, uint_bound(w));
        },
        FieldShape::Int(w) => {
            assert(fields[0] == int_repr(v->Int_0 as int));
            lemma_int_field_round_trip(v->Int_0 as int, int_lo(w), int_hi(w));
        },
        FieldShape::Bool => {
            if v->Bool_0 {
                assert(crate::prim::is_true_field(fields[0]));
            } else {
                assert(crate::prim::is_false_field(fields[0]));
                assert(!crate::prim::is_true_field(fields[0]));
            }
        },
        FieldShape::Text => {
            assert(fields[0] == v->Text_0@);
        },
        FieldShape::Hex(nb) => {
            assert(fields[0] == hex_repr(v->Bytes_0@));
            lemma_hex_field_round_trip(v->Bytes_0@);
        },
        FieldShape::Record(shapes) => {
            lemma_shapes_round_trip(shapes@, v->Record_0@, rest);
        },
        FieldShape::Tagged(vars) => {
            let k = v->Variant_0 as int;
            let names = variant_names(vars@);
            let payload = shapes_repr(vars@[k].1@, v->Variant_1@);
            assert(fields[0] == vars@[k].0@);
            assert(names[k] == vars@[k].0@);
            lemma_tag_pos(names, fields[0]);
            let t = tag_pos(names, fields[0]);
            if t < k {
                assert(names[t] != fields[0]);
            }
            if t > k {
                assert(names[k] != fields[0]);
            }
            assert(t == k);
            assert(fields.skip(1) =~= payload + rest);
            lemma_shapes_round_trip(vars@[k].1@, v->Variant_1@, rest);
        },
    }
}

/// The round trip for a sequence of shapes, read in order: see
/// [`lemma_shape_round_trip`].
pub proof fn lemma_shapes_round_trip(ss: Seq<FieldShape>, vals: Seq<FieldValue>, rest: Seq<Seq<u8>>)
    requires
        shapes_values_fit(ss, vals),
    ensures
        shapes_parse_ok(ss, shapes_repr(ss, vals) + rest, vals),
        shapes_consumed(ss, shapes_repr(ss, vals) + rest) == shapes_repr(ss, vals).len(),
    decreases ss,
{
    let fields = shapes_repr(ss, vals) + rest;
    if ss.len() == 0 {
        assert(fields =~= rest);
    } else {
        let r0 = shape_repr(ss[0], vals[0]);
        let rrest = shapes_repr(ss.skip(1), vals.skip(1));
        assert(fields =~= r0 + (rrest + rest));
        lemma_shape_round_trip(ss[0], vals[0], rrest + rest);
        assert(shape_parse_ok(ss[0], fields, vals[0]));
        assert(shape_consumed(ss[0], fields) == r0.len());
        assert(fields.skip(r0.len() as int) =~= rrest + rest);
        lemma_shapes_round_trip(ss.skip(1), vals.skip(1), rest);
    }
}

} // verus!
