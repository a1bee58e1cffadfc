//! The derivation rule set as a runtime value: a [`FieldShape`] describes
//! a record type the way a declared aggregate type is read off — a unit,
//! a scalar, a struct's fields in declaration order, or an enum's
//! variants — and [`parse_by_shape`] drives the field-by-field assembly
//! that a hand-written implementation of the trait would perform, once,
//! verified, for every shape.

use vstd::prelude::*;
use crate::err::Error;
use crate::prim::{
    all_hex_digits, hex_byte_at, hex_digit, hex_field_ok, int_field_ok, int_literal_value,
    is_false_field, is_hex_digit, is_true_field, parse_int_field, parse_uint_field, uint_field_ok,
    uint_literal_value,
};
use crate::reader::{bytes_eq, Walker};
use vstd::slice::slice_subrange;

verus! {

broadcast use vstd::seq::group_seq_axioms, vstd::std_specs::vec::group_vec_axioms;

/// The width of a decimal integer scalar.
#[derive(PartialEq, Eq, Structural, Clone, Copy, Debug)]
pub enum IntWidth {
    W8,
    W16,
    W32,
    W64,
    W128,
}

/// The greatest value of an unsigned scalar of width `w`.
pub open spec fn uint_bound(w: IntWidth) -> int {
    match w {
        IntWidth::W8 => u8::MAX as int,
        IntWidth::W16 => u16::MAX as int,
        IntWidth::W32 => u32::MAX as int,
        IntWidth::W64 => u64::MAX as int,
        IntWidth::W128 => u128::MAX as int,
    }
}

/// The least value of a signed scalar of width `w`.
pub open spec fn int_lo(w: IntWidth) -> int {
    match w {
        IntWidth::W8 => i8::MIN as int,
        IntWidth::W16 => i16::MIN as int,
        IntWidth::W32 => i32::MIN as int,
        IntWidth::W64 => i64::MIN as int,
        IntWidth::W128 => i128::MIN as int,
    }
}

/// The greatest value of a signed scalar of width `w`.
pub open spec fn int_hi(w: IntWidth) -> int {
    match w {
        IntWidth::W8 => i8::MAX as int,
        IntWidth::W16 => i16::MAX as int,
        IntWidth::W32 => i32::MAX as int,
        IntWidth::W64 => i64::MAX as int,
        IntWidth::W128 => i128::MAX as int,
    }
}

/// The shape of a record type, as the derivation rule set reads it off a
/// declared aggregate type: a scalar consumes one field; a record reads
/// its fields' shapes in declaration order; a tagged shape first reads
/// one field, which must equal a variant's identifier exactly, and then
/// reads that variant's payload record-style.
#[derive(Debug)]
pub enum FieldShape {
    /// Consumes no fields and always succeeds.
    Unit,
    /// An unsigned decimal integer of the given width.
    UInt(IntWidth),
    /// A signed decimal integer of the given width.
    Int(IntWidth),
    /// `true` or `false`, exactly.
    Bool,
    /// Borrowed text: any one field.
    Text,
    /// This many bytes, from a field of exactly twice as many
    /// hexadecimal digits.
    Hex(usize),
    /// A struct or tuple: its fields' shapes in declaration order.
    Record(Vec<FieldShape>),
    /// An enum: each variant's identifier and payload shapes, in
    /// declaration order.
    Tagged(Vec<(Vec<u8>, Vec<FieldShape>)>),
}

/// A value assembled by shape.
#[derive(PartialEq, Debug)]
pub enum FieldValue<'doc> {
    /// Of [`FieldShape::Unit`].
    Unit,
    /// Of [`FieldShape::UInt`]; within the width's range.
    UInt(u128),
    /// Of [`FieldShape::Int`]; within the width's range.
    Int(i128),
    /// Of [`FieldShape::Bool`].
    Bool(bool),
    /// Of [`FieldShape::Text`]: the field, borrowed from the document.
    Text(&'doc [u8]),
    /// Of [`FieldShape::Hex`]: the decoded bytes.
    Bytes(Vec<u8>),
    /// Of [`FieldShape::Record`]: one value per field shape, in order.
    Record(Vec<FieldValue<'doc>>),
    /// Of [`FieldShape::Tagged`]: the matched variant's position and its
    /// payload values.
    Variant(usize, Vec<FieldValue<'doc>>),
}

/// The variant identifiers of a tagged shape, in declaration order.
pub open spec fn variant_names(vars: Seq<(Vec<u8>, Vec<FieldShape>)>) -> Seq<Seq<u8>> {
    vars.map_values(|p: (Vec<u8>, Vec<FieldShape>)| p.0@)
}

/// The position of the first name that `field` equals exactly, or
/// `names.len()` when it equals none.
pub open spec fn tag_pos(names: Seq<Seq<u8>>, field: Seq<u8>) -> int
    decreases names.len(),
{
    if names.len() == 0 {
        0
    } else if names[0] == field {
        0
    } else {
        1 + tag_pos(names.skip(1), field)
    }
}

/// `tag_pos` finds the first match, and finds `names.len()` exactly when
/// no name matches.
pub proof fn lemma_tag_pos(names: Seq<Seq<u8>>, field: Seq<u8>)
    ensures
        0 <= tag_pos(names, field) <= names.len(),
        tag_pos(names, field) < names.len() ==> names[tag_pos(names, field)] == field,
        forall|j: int| 0 <= j < tag_pos(names, field) ==> names[j] != field,
        tag_pos(names, field) == names.len() ==> forall|j: int|
            0 <= j < names.len() ==> names[j] != field,
    decreases names.len(),
{
    if names.len() > 0 && names[0] != field {
        lemma_tag_pos(names.skip(1), field);
        let t = tag_pos(names, field);
        assert(t == 1 + tag_pos(names.skip(1), field));
        if t < names.len() {
            assert(names.skip(1)[t - 1] == names[t]);
        }
        assert forall|j: int| 0 <= j < t implies names[j] != field by {
            if j >= 1 {
                assert(names.skip(1)[j - 1] == names[j]);
            }
        }
    }
}

/// The payload shapes of a tagged shape's variant stand structurally
/// below the shape itself, so recursion into them terminates.
proof fn lemma_tagged_payload_decreases(s: FieldShape, vars: Vec<(Vec<u8>, Vec<FieldShape>)>, k: int)
    requires
        s == FieldShape::Tagged(vars),
        0 <= k < vars@.len(),
    ensures
        decreases_to!(s => vars@[k].1@),
{
    assert(decreases_to!(s => s->Tagged_0));
    assert(s->Tagged_0 == vars);
    assert(decreases_to!(vars => vars@));
    assert(decreases_to!(vars@ => vars@[k]));
    assert(decreases_to!(vars@[k] => vars@[k].1));
    assert(decreases_to!(vars@[k].1 => vars@[k].1@));
}

/// The field shapes of a record shape stand structurally below the shape
/// itself, so recursion into them terminates.
proof fn lemma_record_fields_decreases(s: FieldShape, shapes: Vec<FieldShape>)
    requires
        s == FieldShape::Record(shapes),
    ensures
        decreases_to!(s => shapes@),
{
    assert(decreases_to!(s => s->Record_0));
    assert(s->Record_0 == shapes);
    assert(decreases_to!(shapes => shapes@));
}

/// How many fields parsing by `s` consumes when it succeeds.
pub open spec fn shape_consumed(s: FieldShape, fields: Seq<Seq<u8>>) -> int
    decreases s,
{
    match s {
        FieldShape::Unit => 0,
        FieldShape::UInt(_) => 1,
        FieldShape::Int(_) => 1,
        FieldShape::Bool => 1,
        FieldShape::Text => 1,
        FieldShape::Hex(_) => 1,
        FieldShape::Record(shapes) => shapes_consumed(shapes@, fields),
        FieldShape::Tagged(vars) => {
            if fields.len() >= 1 {
                let k = tag_pos(variant_names(vars@), fields[0]);
                if 0 <= k < vars@.len() {
                    1 + shapes_consumed(vars@[k].1@, fields.skip(1))
                } else {
                    1
                }
            } else {
                0
            }
        },
    }
}

/// How many fields parsing by the shapes `ss`, in order, consumes when
/// it succeeds.
pub open spec fn shapes_consumed(ss: Seq<FieldShape>, fields: Seq<Seq<u8>>) -> int
    decreases ss,
{
    if ss.len() == 0 {
        0
    } else {
        let c = shape_consumed(ss[0], fields);
        c + shapes_consumed(ss.skip(1), fields.skip(c))
    }
}

/// The successful-parse relation of a shape: from the fields not yet
/// consumed, parsing by `s` assembles the value `v`.
pub open spec fn shape_parse_ok(s: FieldShape, fields: Seq<Seq<u8>>, v: FieldValue) -> bool
    decreases s,
{
    match s {
        FieldShape::Unit => v == FieldValue::Unit,
        FieldShape::UInt(w) => fields.len() >= 1 && uint_field_ok(fields[0], uint_bound(w)) && (
        v matches FieldValue::UInt(x) && x == uint_literal_value(fields[0])),
        FieldShape::Int(w) => fields.len() >= 1 && int_field_ok(fields[0], int_lo(w), int_hi(w))
            && (v matches FieldValue::Int(x) && x == int_literal_value(fields[0])),
        FieldShape::Bool => fields.len() >= 1 && (is_true_field(fields[0]) || is_false_field(
            fields[0],
        )) && (v matches FieldValue::Bool(b) && b == is_true_field(fields[0])),
        FieldShape::Text => fields.len() >= 1 && (v matches FieldValue::Text(t) && t@
            == fields[0]),
        FieldShape::Hex(nb) => fields.len() >= 1 && hex_field_ok(fields[0], nb as int) && (
        v matches FieldValue::Bytes(bs) && bs@.len() == nb && forall|i: int|
            0 <= i < nb ==> bs@[i] == hex_byte_at(fields[0], i)),
        FieldShape::Record(shapes) => v matches FieldValue::Record(vals) && shapes_parse_ok(
            shapes@,
            fields,
            vals@,
        ),
        FieldShape::Tagged(vars) => fields.len() >= 1 && {
            let k = tag_pos(variant_names(vars@), fields[0]);
            &&& k < vars@.len()
            &&& (v matches FieldValue::Variant(i, vals) && i == k && shapes_parse_ok(
                vars@[k].1@,
                fields.skip(1),
                vals@,
            ))
        },
    }
}

/// The successful-parse relation of a sequence of shapes, read in order
/// from the same fields: one value per shape.
pub open spec fn shapes_parse_ok(
    ss: Seq<FieldShape>,
    fields: Seq<Seq<u8>>,
    vals: Seq<FieldValue>,
) -> bool
    decreases ss,
{
    if ss.len() == 0 {
        vals.len() == 0
    } else {
        &&& vals.len() == ss.len()
        &&& shape_parse_ok(ss[0], fields, vals[0])
        &&& shapes_parse_ok(ss.skip(1), fields.skip(shape_consumed(ss[0], fields)), vals.skip(1))
    }
}

/// The failed-parse relation of a shape: parsing by `s` fails with `e`,
/// the cursor having advanced over the first `n` fields.
pub open spec fn shape_parse_err(s: FieldShape, fields: Seq<Seq<u8>>, e: Error, n: int) -> bool
    decreases s,
{
    match s {
        FieldShape::Unit => false,
        FieldShape::UInt(w) => {
            ||| (fields.len() == 0 && e == Error::EndOfLine && n == 0)
            ||| (fields.len() >= 1 && !uint_field_ok(fields[0], uint_bound(w)) && e
                == Error::ParseField && n == 1)
        },
        FieldShape::Int(w) => {
            ||| (fields.len() == 0 && e == Error::EndOfLine && n == 0)
            ||| (fields.len() >= 1 && !int_field_ok(fields[0], int_lo(w), int_hi(w)) && e
                == Error::ParseField && n == 1)
        },
        FieldShape::Bool => {
            ||| (fields.len() == 0 && e == Error::EndOfLine && n == 0)
            ||| (fields.len() >= 1 && !is_true_field(fields[0]) && !is_false_field(fields[0])
                && e == Error::ParseField && n == 1)
        },
        FieldShape::Text => fields.len() == 0 && e == Error::EndOfLine && n == 0,
        FieldShape::Hex(nb) => {
            ||| (fields.len() == 0 && e == Error::EndOfLine && n == 0)
            ||| (fields.len() >= 1 && !hex_field_ok(fields[0], nb as int) && e
                == Error::ParseField && n == 1)
        },
        FieldShape::Record(shapes) => shapes_parse_err(shapes@, fields, e, n),
        FieldShape::Tagged(vars) => {
            ||| (fields.len() == 0 && e == Error::EndOfLine && n == 0)
            ||| (fields.len() >= 1 && tag_pos(variant_names(vars@), fields[0]) == vars@.len()
                && e == Error::ParseField && n == 1)
            ||| (fields.len() >= 1 && {
                let k = tag_pos(variant_names(vars@), fields[0]);
                0 <= k < vars@.len() && shapes_parse_err(vars@[k].1@, fields.skip(1), e, n - 1)
            })
        },
    }
}

/// The failed-parse relation of a sequence of shapes: some shape fails
/// after every shape before it succeeded.
pub open spec fn shapes_parse_err(
    ss: Seq<FieldShape>,
    fields: Seq<Seq<u8>>,
    e: Error,
    n: int,
) -> bool
    decreases ss,
{
    if ss.len() == 0 {
        false
    } else {
        ||| shape_parse_err(ss[0], fields, e, n)
        ||| ((exists|v: FieldValue| #[trigger] shape_parse_ok(ss[0], fields, v))
            && shapes_parse_err(
            ss.skip(1),
            fields.skip(shape_consumed(ss[0], fields)),
            e,
            n - shape_consumed(ss[0], fields),
        ))
    }
}


/// Decode a hexadecimal field into exactly `nb` bytes, high nibble
/// first; a field of any other length, or holding a non-hex byte, is
/// rejected.
fn parse_hex_vec(f: &[u8], nb: usize) -> (r: Result<Vec<u8>, Error>)
    ensures
        match r {
            Ok(bs) => hex_field_ok(f@, nb as int) && bs@.len() == nb && forall|i: int|
                0 <= i < nb ==> bs@[i] == hex_byte_at(f@, i),
            Err(e) => e == Error::ParseField && !hex_field_ok(f@, nb as int),
        },
{
    if f.len() % 2 != 0 || f.len() / 2 != nb {
        proof {
            assert(f@.len() != 2 * (nb as int));
        }
        return Err(Error::ParseField);
    }
    assert(f@.len() == 2 * (nb as int));
    let mut out: Vec<u8> = Vec::new();
    let mut i: usize = 0;
    let mut k: usize = 0;
    while i < nb
        invariant
            i <= nb,
            k == 2 * i,
            f@.len() == 2 * (nb as int),
            out@.len() == i,
            forall|j: int| 0 <= j < 2 * i ==> is_hex_digit(#[trigger] f@[j]),
            forall|j: int| 0 <= j < i ==> out@[j] == hex_byte_at(f@, j),
        decreases nb - i,
    {
        let hi = match hex_digit(f[k]) {
            Ok(h) => h,
            Err(e) => {
                proof {
                    assert(!all_hex_digits(f@));
                }
                return Err(e);
            },
        };
        let lo = match hex_digit(f[k + 1]) {
            Ok(l) => l,
            Err(e) => {
                proof {
                    assert(!all_hex_digits(f@));
                }
                return Err(e);
            },
        };
        out.push(16 * hi + lo);
        proof {
            assert(out@[i as int] == hex_byte_at(f@, i as int));
        }
        i = i + 1;
        k = k + 2;
    }
    Ok(out)
}

/// Parse one value of each shape, in order, from the same walker: the
/// assembly of a record's fields. Succeeds only if every field does.
fn parse_record_fields<'doc>(shapes: &[FieldShape], fields: &mut Walker<'doc>) -> (r: Result<
    Vec<FieldValue<'doc>>,
    Error,
>)
    ensures
        match r {
            Ok(vals) => shapes_parse_ok(shapes@, old(fields)@, vals@) && 0 <= shapes_consumed(
                shapes@,
                old(fields)@,
            ) <= old(fields)@.len() && final(fields)@ == old(fields)@.skip(
                shapes_consumed(shapes@, old(fields)@),
            ),
            Err(e) => exists|n: int|
                0 <= n <= old(fields)@.len() && shapes_parse_err(shapes@, old(fields)@, e, n)
                    && final(fields)@ == #[trigger] old(fields)@.skip(n),
        },
    decreases shapes@,
{
    let ghost f0 = old(fields)@;
    if shapes.len() == 0 {
        proof {
            assert(f0.skip(0) =~= f0);
        }
        return Ok(Vec::new());
    }
    let v0 = match parse_by_shape(&shapes[0], fields) {
        Ok(v) => v,
        Err(e) => {
            proof {
                let n0 = choose|n: int|
                    0 <= n <= f0.len() && shape_parse_err(shapes@[0], f0, e, n) && fields@
                        == f0.skip(n);
                assert(shapes_parse_err(shapes@, f0, e, n0));
            }
            return Err(e);
        },
    };
    let ghost c0 = shape_consumed(shapes@[0], f0);
    let rest = match parse_record_fields(slice_subrange(shapes, 1, shapes.len()), fields) {
        Ok(vs) => vs,
        Err(e) => {
            proof {
                assert(shapes@.subrange(1, shapes@.len() as int) =~= shapes@.skip(1));
                let k = choose|k: int|
                    0 <= k <= f0.skip(c0).len() && shapes_parse_err(
                        shapes@.skip(1),
                        f0.skip(c0),
                        e,
                        k,
                    ) && fields@ == f0.skip(c0).skip(k);
                assert(f0.skip(c0).skip(k) =~= f0.skip(c0 + k));
                assert(shapes_parse_err(shapes@, f0, e, c0 + k));
            }
            return Err(e);
        },
    };
    let ghost rv = rest@;
    let mut vals = rest;
    vals.insert(0, v0);
    proof {
        assert(shapes@.subrange(1, shapes@.len() as int) =~= shapes@.skip(1));
        assert(vals@.skip(1) =~= rv);
        assert(vals@[0] == v0);
        assert(shapes_parse_ok(shapes@, f0, vals@));
        let c1 = shapes_consumed(shapes@.skip(1), f0.skip(c0));
        assert(f0.skip(c0).skip(c1) =~= f0.skip(c0 + c1));
    }
    Ok(vals)
}

/// Drive the assembly a declared type's shape prescribes: the verified
/// form of the derivation rule set. A scalar shape decodes one field; a
/// record shape reads its field shapes in declaration order; a tagged
/// shape reads one field, which must equal a variant's identifier
/// exactly, and then that variant's payload, record-style; an unknown
/// tag is a field-format error.
pub fn parse_by_shape<'doc>(shape: &FieldShape, fields: &mut Walker<'doc>) -> (r: Result<
    FieldValue<'doc>,
    Error,
>)
    ensures
        match r {
            Ok(v) => shape_parse_ok(*shape, old(fields)@, v) && 0 <= shape_consumed(
                *shape,
                old(fields)@,
            ) <= old(fields)@.len() && final(fields)@ == old(fields)@.skip(
                shape_consumed(*shape, old(fields)@),
            ),
            Err(e) => exists|n: int|
                0 <= n <= old(fields)@.len() && shape_parse_err(*shape, old(fields)@, e, n)
                    && final(fields)@ == #[trigger] old(fields)@.skip(n),
        },
    decreases *shape,
{
    let ghost f0 = old(fields)@;
    match shape {
        FieldShape::Unit => {
            proof {
                assert(f0.skip(0) =~= f0);
            }
            Ok(FieldValue::Unit)
        },
        FieldShape::UInt(w) => {
            let f = fields.next_field()?;
            let v = match *w {
                IntWidth::W8 => parse_uint_field(f, 0xffu128)?,
                IntWidth::W16 => parse_uint_field(f, 0xffffu128)?,
                IntWidth::W32 => parse_uint_field(f, 0xffff_ffffu128)?,
                IntWidth::W64 => parse_uint_field(f, 0xffff_ffff_ffff_ffffu128)?,
                IntWidth::W128 => parse_uint_field(
                    f,
                    0xffff_ffff_ffff_ffff_ffff_ffff_ffff_ffffu128,
                )?,
            };
            Ok(FieldValue::UInt(v))
        },
        FieldShape::Int(w) => {
            let f = fields.next_field()?;
            let v = match *w {
                IntWidth::W8 => parse_int_field(f, 128u128, 127u128)?,
                IntWidth::W16 => parse_int_field(f, 32768u128, 32767u128)?,
                IntWidth::W32 => parse_int_field(f, 2147483648u128, 2147483647u128)?,
                IntWidth::W64 => parse_int_field(
                    f,
                    9223372036854775808u128,
                    9223372036854775807u128,
                )?,
                IntWidth::W128 => parse_int_field(
                    f,
                    0x8000_0000_0000_0000_0000_0000_0000_0000u128,
                    0x7fff_ffff_ffff_ffff_ffff_ffff_ffff_ffffu128,
                )?,
            };
            Ok(FieldValue::Int(v))
        },
        FieldShape::Bool => {
            let f = fields.next_field()?;
            if f.len() == 4 && f[0] == 116 && f[1] == 114 && f[2] == 117 && f[3] == 101 {
                proof {
                    assert(is_true_field(f@));
                }
                Ok(FieldValue::Bool(true))
            } else if f.len() == 5 && f[0] == 102 && f[1] == 97 && f[2] == 108 && f[3] == 115
                && f[4] == 101 {
                proof {
                    assert(is_false_field(f@));
                }
                Ok(FieldValue::Bool(false))
            } else {
                Err(Error::ParseField)
            }
        },
        FieldShape::Text => {
            let f = fields.next_field()?;
            Ok(FieldValue::Text(f))
        },
        FieldShape::Hex(nb) => {
            let f = fields.next_field()?;
            let bs = parse_hex_vec(f, *nb)?;
            Ok(FieldValue::Bytes(bs))
        },
        FieldShape::Record(shapes) => {
            proof {
                lemma_record_fields_decreases(*shape, *shapes);
            }
            let vals = parse_record_fields(shapes.as_slice(), fields)?;
            Ok(FieldValue::Record(vals))
        },
        FieldShape::Tagged(vars) => {
            let tag = fields.next_field()?;
            let ghost names = variant_names(vars@);
            proof {
                lemma_tag_pos(names, tag@);
            }
            let n_vars = vars.len();
            let mut j: usize = 0;
            while j < n_vars
                invariant
                    f0 == old(fields)@,
                    *shape == FieldShape::Tagged(*vars),
                    j <= n_vars,
                    n_vars == vars@.len(),
                    names == variant_names(vars@),
                    names.len() == vars@.len(),
                    forall|jj: int| 0 <= jj < j ==> #[trigger] names[jj] != tag@,
                    f0.len() >= 1,
                    tag@ == f0[0],
                    fields@ == f0.skip(1),
                decreases n_vars - j,
            {
                if bytes_eq(tag, vars[j].0.as_slice()) {
                    proof {
                        lemma_tag_pos(names, tag@);
                        assert(names[j as int] == vars@[j as int].0@);
                        let t = tag_pos(names, tag@);
                        if t < j {
                            assert(names[t] != tag@);
                        }
                        if t > j {
                            assert(names[j as int] != tag@);
                        }
                        assert(t == j as int);
                        lemma_tagged_payload_decreases(*shape, *vars, j as int);
                    }
                    let vals = match parse_record_fields(vars[j].1.as_slice(), fields) {
                        Ok(vs) => vs,
                        Err(e) => {
                            proof {
                                let k = choose|k: int|
                                    0 <= k <= f0.skip(1).len() && shapes_parse_err(
                                        vars@[j as int].1@,
                                        f0.skip(1),
                                        e,
                                        k,
                                    ) && fields@ == f0.skip(1).skip(k);
                                assert(f0.skip(1).skip(k) =~= f0.skip(1 + k));
                                assert(shape_parse_err(*shape, f0, e, 1 + k));
                            }
                            return Err(e);
                        },
                    };
                    proof {
                        let c = shapes_consumed(vars@[j as int].1@, f0.skip(1));
                        assert(f0.skip(1).skip(c) =~= f0.skip(1 + c));
                        assert(shape_consumed(*shape, f0) == 1 + c);
                    }
                    return Ok(FieldValue::Variant(j, vals));
                }
                j = j + 1;
            }
            proof {
                lemma_tag_pos(names, tag@);
                let t = tag_pos(names, tag@);
                if t < names.len() {
                    assert(names[t] != tag@);
                }
                assert(t == names.len());
            }
            Err(Error::ParseField)
        },
    }
}


/// A parse by shape cannot both succeed and fail: the two relations are
/// exclusive, for every shape and every field sequence. With the parse
/// value also fixed by [`shape_parse_ok`], the outcome of
/// [`parse_by_shape`] — and so of a whole line read by shape — is
/// determined by the input alone.
pub proof fn lemma_shape_outcome_exclusive(
    s: FieldShape,
    fields: Seq<Seq<u8>>,
    v: FieldValue,
    e: Error,
    n: int,
)
    ensures
        !(shape_parse_ok(s, fields, v) && shape_parse_err(s, fields, e, n)),
    decreases s,
{
    if shape_parse_ok(s, fields, v) && shape_parse_err(s, fields, e, n) {
        match s {
            FieldShape::Record(shapes) => {
                lemma_shapes_outcome_exclusive(shapes@, fields, v->Record_0@, e, n);
            },
            FieldShape::Tagged(vars) => {
                let k = tag_pos(variant_names(vars@), fields[0]);
                if fields.len() >= 1 && 0 <= k < vars@.len() && shapes_parse_err(
                    vars@[k].1@,
                    fields.skip(1),
                    e,
                    n - 1,
                ) {
                    lemma_shapes_outcome_exclusive(
                        vars@[k].1@,
                        fields.skip(1),
                        v->Variant_1@,
                        e,
                        n - 1,
                    );
                }
            },
            _ => {},
        }
    }
}

/// Exclusivity for a sequence of shapes read in order: see
/// [`lemma_shape_outcome_exclusive`].
pub proof fn lemma_shapes_outcome_exclusive(
    ss: Seq<FieldShape>,
    fields: Seq<Seq<u8>>,
    vals: Seq<FieldValue>,
    e: Error,
    n: int,
)
    ensures
        !(shapes_parse_ok(ss, fields, vals) && shapes_parse_err(ss, fields, e, n)),
    decreases ss,
{
    if shapes_parse_ok(ss, fields, vals) && shapes_parse_err(ss, fields, e, n) {
        if ss.len() > 0 {
            if shape_parse_err(ss[0], fields, e, n) {
                lemma_shape_outcome_exclusive(ss[0], fields, vals[0], e, n);
            } else {
                let c = shape_consumed(ss[0], fields);
                lemma_shapes_outcome_exclusive(
                    ss.skip(1),
                    fields.skip(c),
                    vals.skip(1),
                    e,
                    n - c,
                );
            }
        }
    }
}

} // verus!
