//! Implementations of [`Read`] for primitive types: borrowed text,
//! booleans, decimal integers of every width, and fixed-size byte arrays
//! decoded from hexadecimal.

use vstd::prelude::*;
use crate::err::Error;
use crate::reader::{Read, Walker};
use vstd::array::array_fill_for_copy_types;

verus! {

broadcast use vstd::array::group_array_axioms;

/// The byte `+`, which may begin a decimal literal.
pub const PLUS: u8 = 43;

/// The byte `-`, which may begin a signed decimal literal.
pub const MINUS: u8 = 45;

/// The byte `0`, the least decimal digit.
pub const DIGIT_ZERO: u8 = 48;

/// The byte `9`, the greatest decimal digit.
pub const DIGIT_NINE: u8 = 57;

/// The byte `A`, the least upper-case hexadecimal letter.
pub const UPPER_A: u8 = 65;

/// The byte `F`, the greatest upper-case hexadecimal letter.
pub const UPPER_F: u8 = 70;

/// The byte `a`, the least lower-case hexadecimal letter.
pub const LOWER_A: u8 = 97;

/// The byte `f`, the greatest lower-case hexadecimal letter.
pub const LOWER_F: u8 = 102;

/// Whether `b` is the code of a decimal digit.
pub open spec fn is_dec_digit(b: u8) -> bool {
    DIGIT_ZERO <= b <= DIGIT_NINE
}

/// The numeric value of the decimal digit `b`.
pub open spec fn dec_digit_value(b: u8) -> int
    recommends
        is_dec_digit(b),
{
    b - DIGIT_ZERO
}

/// Whether every byte of `s` is a decimal digit.
pub open spec fn all_dec_digits(s: Seq<u8>) -> bool {
    forall|i: int| 0 <= i < s.len() ==> is_dec_digit(#[trigger] s[i])
}

/// The value of the digit string `s`, most significant digit first.
pub open spec fn dec_value(s: Seq<u8>) -> int
    recommends
        all_dec_digits(s),
    decreases s.len(),
{
    if s.len() == 0 {
        0
    } else {
        dec_value(s.drop_last()) * 10 + dec_digit_value(s.last())
    }
}

/// The digit part of an unsigned decimal literal: an optional leading
/// plus sign is not part of the digits.
pub open spec fn uint_digits(s: Seq<u8>) -> Seq<u8> {
    if s.len() > 0 && s[0] == PLUS {
        s.skip(1)
    } else {
        s
    }
}

/// Whether `s` is an unsigned decimal integer literal: an optional plus
/// sign followed by at least one digit.
pub open spec fn is_uint_literal(s: Seq<u8>) -> bool {
    uint_digits(s).len() > 0 && all_dec_digits(uint_digits(s))
}

/// The value of the unsigned decimal literal `s`.
pub open spec fn uint_literal_value(s: Seq<u8>) -> int
    recommends
        is_uint_literal(s),
{
    dec_value(uint_digits(s))
}

/// The digit part of a signed decimal literal: an optional leading plus
/// or minus sign is not part of the digits.
pub open spec fn int_digits(s: Seq<u8>) -> Seq<u8> {
    if s.len() > 0 && (s[0] == PLUS || s[0] == MINUS) {
        s.skip(1)
    } else {
        s
    }
}

/// Whether `s` is a signed decimal integer literal: an optional plus or
/// minus sign followed by at least one digit.
pub open spec fn is_int_literal(s: Seq<u8>) -> bool {
    int_digits(s).len() > 0 && all_dec_digits(int_digits(s))
}

/// The value of the signed decimal literal `s`.
pub open spec fn int_literal_value(s: Seq<u8>) -> int
    recommends
        is_int_literal(s),
{
    if s.len() > 0 && s[0] == MINUS {
        -dec_value(int_digits(s))
    } else {
        dec_value(int_digits(s))
    }
}

/// A field decodes as an unsigned integer no greater than `max`.
pub open spec fn uint_field_ok(s: Seq<u8>, max: int) -> bool {
    is_uint_literal(s) && uint_literal_value(s) <= max
}

/// A field decodes as a signed integer within `lo ..= hi`.
pub open spec fn int_field_ok(s: Seq<u8>, lo: int, hi: int) -> bool {
    is_int_literal(s) && lo <= int_literal_value(s) <= hi
}

/// The value of a digit string is never negative.
proof fn lemma_dec_value_nonneg(s: Seq<u8>)
    requires
        all_dec_digits(s),
    ensures
        dec_value(s) >= 0,
    decreases s.len(),
{
    if s.len() > 0 {
        assert forall|i: int| 0 <= i < s.drop_last().len() implies is_dec_digit(
            #[trigger] s.drop_last()[i],
        ) by {
            assert(s.drop_last()[i] == s[i]);
        }
        lemma_dec_value_nonneg(s.drop_last());
    }
}

/// Extending a digit string to the right never decreases its value.
proof fn lemma_dec_value_prefix_mono(s: Seq<u8>, i: int)
    requires
        0 <= i <= s.len(),
        all_dec_digits(s),
    ensures
        dec_value(s.take(i)) <= dec_value(s),
    decreases s.len() - i,
{
    assert forall|j: int| 0 <= j < s.take(i).len() implies is_dec_digit(
        #[trigger] s.take(i)[j],
    ) by {
        assert(s.take(i)[j] == s[j]);
    }
    if i == s.len() {
        assert(s.take(i) =~= s);
    } else {
        assert(s.take(i + 1).drop_last() =~= s.take(i));
        assert(s.take(i + 1).last() == s[i]);
        lemma_dec_value_nonneg(s.take(i));
        lemma_dec_value_prefix_mono(s, i + 1);
    }
}

/// Parse the digit string `s[start..]` as a decimal value of at most
/// `max`: every byte must be a digit, at least one must be present, and
/// the value must not exceed `max`.
fn parse_dec_digits(s: &[u8], start: usize, max: u128) -> (r: Result<u128, Error>)
    requires
        start <= s@.len(),
    ensures
        match r {
            Ok(v) => s@.len() > start && all_dec_digits(s@.skip(start as int)) && v == dec_value(
                s@.skip(start as int),
            ) && v <= max,
            Err(e) => e == Error::ParseField && !(s@.len() > start && all_dec_digits(
                s@.skip(start as int),
            ) && dec_value(s@.skip(start as int)) <= max),
        },
{
    let ghost d = s@.skip(start as int);
    let n: usize = s.len();
    if start == n {
        return Err(Error::ParseField);
    }
    let mut acc: u128 = 0;
    let mut i: usize = start;
    while i < n
        invariant
            start <= i <= n,
            n == s@.len(),
            d == s@.skip(start as int),
            all_dec_digits(d.take(i - start)),
            acc == dec_value(d.take(i - start)),
            acc <= max,
        decreases n - i,
    {
        let ghost k = i - start;
        let b = s[i];
        assert(d[k] == b);
        if b < DIGIT_ZERO || b > DIGIT_NINE {
            return Err(Error::ParseField);
        }
        let dig: u128 = (b - DIGIT_ZERO) as u128;
        proof {
            assert(d.take(k + 1).drop_last() =~= d.take(k));
            assert(d.take(k + 1).last() == d[k]);
            assert(dec_value(d.take(k + 1)) == acc * 10 + dig);
            assert forall|j: int| 0 <= j < d.take(k + 1).len() implies is_dec_digit(
                #[trigger] d.take(k + 1)[j],
            ) by {
                assert(d.take(k + 1)[j] == d[j]);
            }
        }
        let next = match acc.checked_mul(10) {
            Some(m) => m.checked_add(dig),
            None => None,
        };
        match next {
            Some(a) if a <= max => {
                acc = a;
            },
            _ => {
                proof {
                    if all_dec_digits(d) {
                        lemma_dec_value_prefix_mono(d, k + 1);
                    }
                }
                return Err(Error::ParseField);
            },
        }
        i = i + 1;
    }
    proof {
        assert(d.take(n - start) =~= d);
    }
    Ok(acc)
}

/// Parse a whole field as an unsigned decimal literal of value at most
/// `max`: an optional plus sign, then at least one digit.
pub(crate) fn parse_uint_field(s: &[u8], max: u128) -> (r: Result<u128, Error>)
    ensures
        match r {
            Ok(v) => uint_field_ok(s@, max as int) && v == uint_literal_value(s@),
            Err(e) => e == Error::ParseField && !uint_field_ok(s@, max as int),
        },
{
    let start: usize = if s.len() > 0 && s[0] == PLUS {
        1
    } else {
        0
    };
    proof {
        assert(uint_digits(s@) =~= s@.skip(start as int));
    }
    parse_dec_digits(s, start, max)
}

/// Parse a whole field as a signed decimal literal whose value lies in
/// `-neg_mag ..= pos_mag`: an optional plus or minus sign, then at least
/// one digit.
pub(crate) fn parse_int_field(s: &[u8], neg_mag: u128, pos_mag: u128) -> (r: Result<i128, Error>)
    requires
        neg_mag <= 0x8000_0000_0000_0000_0000_0000_0000_0000u128,
        pos_mag <= 0x7fff_ffff_ffff_ffff_ffff_ffff_ffff_ffffu128,
    ensures
        match r {
            Ok(v) => int_field_ok(s@, -(neg_mag as int), pos_mag as int) && v
                == int_literal_value(s@),
            Err(e) => e == Error::ParseField && !int_field_ok(
                s@,
                -(neg_mag as int),
                pos_mag as int,
            ),
        },
{
    if s.len() > 0 && s[0] == MINUS {
        proof {
            assert(int_digits(s@) =~= s@.skip(1));
        }
        let m = match parse_dec_digits(s, 1, neg_mag) {
            Ok(m) => m,
            Err(e) => {
                proof {
                    if is_int_literal(s@) {
                        lemma_dec_value_nonneg(int_digits(s@));
                    }
                }
                return Err(e);
            },
        };
        if m > 0x7fff_ffff_ffff_ffff_ffff_ffff_ffff_ffffu128 {
            Ok(i128::MIN)
        } else {
            Ok(-(m as i128))
        }
    } else {
        let start: usize = if s.len() > 0 && s[0] == PLUS {
            1
        } else {
            0
        };
        proof {
            assert(int_digits(s@) =~= s@.skip(start as int));
        }
        let m = match parse_dec_digits(s, start, pos_mag) {
            Ok(m) => m,
            Err(e) => {
                proof {
                    if is_int_literal(s@) {
                        lemma_dec_value_nonneg(int_digits(s@));
                    }
                }
                return Err(e);
            },
        };
        Ok(m as i128)
    }
}

/// Whether `b` is the code of a hexadecimal digit, in either case.
pub open spec fn is_hex_digit(b: u8) -> bool {
    ||| DIGIT_ZERO <= b <= DIGIT_NINE
    ||| UPPER_A <= b <= UPPER_F
    ||| LOWER_A <= b <= LOWER_F
}

/// The numeric value of the hexadecimal digit `b`.
pub open spec fn hex_digit_value(b: u8) -> int
    recommends
        is_hex_digit(b),
{
    if DIGIT_ZERO <= b <= DIGIT_NINE {
        b - DIGIT_ZERO
    } else if UPPER_A <= b <= UPPER_F {
        b - UPPER_A + 10
    } else {
        b - LOWER_A + 10
    }
}

/// Whether every byte of `s` is a hexadecimal digit.
pub open spec fn all_hex_digits(s: Seq<u8>) -> bool {
    forall|i: int| 0 <= i < s.len() ==> is_hex_digit(#[trigger] s[i])
}

/// A field decodes as a hexadecimal byte string of exactly `nbytes`
/// bytes: two digits for each byte, and nothing else.
pub open spec fn hex_field_ok(s: Seq<u8>, nbytes: int) -> bool {
    s.len() == 2 * nbytes && all_hex_digits(s)
}

/// The byte at position `i` of the hexadecimal field `s`: the digit pair
/// at `2 * i`, high nibble first.
pub open spec fn hex_byte_at(s: Seq<u8>, i: int) -> int
    recommends
        all_hex_digits(s),
        0 <= 2 * i + 1 < s.len(),
{
    16 * hex_digit_value(s[2 * i]) + hex_digit_value(s[2 * i + 1])
}

/// The value of one hexadecimal digit, or an error for any other byte.
pub(crate) fn hex_digit(c: u8) -> (r: Result<u8, Error>)
    ensures
        match r {
            Ok(v) => is_hex_digit(c) && v == hex_digit_value(c),
            Err(e) => e == Error::ParseField && !is_hex_digit(c),
        },
{
    if DIGIT_ZERO <= c && c <= DIGIT_NINE {
        Ok(c - DIGIT_ZERO)
    } else if UPPER_A <= c && c <= UPPER_F {
        Ok(c - UPPER_A + 10)
    } else if LOWER_A <= c && c <= LOWER_F {
        Ok(c - LOWER_A + 10)
    } else {
        Err(Error::ParseField)
    }
}

/// A fixed-length byte array, decoded from a hexadecimal field of
/// exactly twice its length (case-insensitive), each digit pair giving
/// one byte, high nibble first. A field of any other length is rejected.
impl<'doc, const N: usize> Read<'doc> for [u8; N] {
    open spec fn spec_parse_ok(fields: Seq<Seq<u8>>, v: [u8; N]) -> bool {
        &&& fields.len() >= 1
        &&& hex_field_ok(fields[0], N as int)
        &&& forall|i: int| 0 <= i < N ==> v@[i] == hex_byte_at(fields[0], i)
    }

    open spec fn spec_parse_err(fields: Seq<Seq<u8>>, e: Error, n: int) -> bool {
        ||| (fields.len() == 0 && e == Error::EndOfLine && n == 0)
        ||| (fields.len() >= 1 && !hex_field_ok(fields[0], N as int) && e == Error::ParseField && n == 1)
    }

    open spec fn spec_consumed(fields: Seq<Seq<u8>>) -> int {
        1
    }

    fn parse_tsv(fields: &mut Walker<'doc>) -> (r: Result<[u8; N], Error>) {
        let f = fields.next_field()?;
        if f.len() % 2 != 0 || f.len() / 2 != N {
            proof {
                assert(f@.len() != 2 * (N as int));
            }
            return Err(Error::ParseField);
        }
        assert(f@.len() == 2 * (N as int));
        let mut out: [u8; N] = array_fill_for_copy_types::<u8, N>(0);
        let mut i: usize = 0;
        let mut k: usize = 0;
        while i < N
            invariant
                i <= N,
                k == 2 * i,
                f@.len() == 2 * (N as int),
                fields@ == old(fields)@.skip(1),
                f@ == old(fields)@[0],
                old(fields)@.len() >= 1,
                forall|j: int| 0 <= j < 2 * i ==> is_hex_digit(#[trigger] f@[j]),
                forall|j: int| 0 <= j < i ==> out@[j] == hex_byte_at(f@, j),
            decreases N - i,
        {
            let hi = match hex_digit(f[k]) {
                Ok(h) => h,
                Err(e) => {
                    proof {
                        assert(!all_hex_digits(f@));
                    }
                    return Err(e);
                },
            };
            let lo = match hex_digit(f[k + 1]) {
                Ok(l) => l,
                Err(e) => {
                    proof {
                        assert(!all_hex_digits(f@));
                    }
                    return Err(e);
                },
            };
            out[i] = 16 * hi + lo;
            proof {
                assert(out@[i as int] == hex_byte_at(f@, i as int));
            }
            i = i + 1;
            k = k + 2;
        }
        Ok(out)
    }
}

/// The field `true`, exactly.
pub open spec fn is_true_field(s: Seq<u8>) -> bool {
    s =~= seq![116u8, 114u8, 117u8, 101u8]
}

/// The field `false`, exactly.
pub open spec fn is_false_field(s: Seq<u8>) -> bool {
    s =~= seq![102u8, 97u8, 108u8, 115u8, 101u8]
}

/// A reference to a slice of the document data: any field is valid.
impl<'doc> Read<'doc> for &'doc [u8] {
    open spec fn spec_parse_ok(fields: Seq<Seq<u8>>, v: &'doc [u8]) -> bool {
        fields.len() >= 1 && v@ == fields[0]
    }

    open spec fn spec_parse_err(fields: Seq<Seq<u8>>, e: Error, n: int) -> bool {
        fields.len() == 0 && e == Error::EndOfLine && n == 0
    }

    open spec fn spec_consumed(fields: Seq<Seq<u8>>) -> int {
        1
    }

    fn parse_tsv(fields: &mut Walker<'doc>) -> (r: Result<&'doc [u8], Error>) {
        let f = fields.next_field()?;
        Ok(f)
    }
}

/// A unit value consumes no fields and always succeeds.
impl<'doc> Read<'doc> for () {
    open spec fn spec_parse_ok(fields: Seq<Seq<u8>>, v: ()) -> bool {
        true
    }

    open spec fn spec_parse_err(fields: Seq<Seq<u8>>, e: Error, n: int) -> bool {
        false
    }

    open spec fn spec_consumed(fields: Seq<Seq<u8>>) -> int {
        0
    }

    fn parse_tsv(fields: &mut Walker<'doc>) -> (r: Result<(), Error>) {
        proof {
            assert(old(fields)@.skip(0) =~= old(fields)@);
        }
        Ok(())
    }
}

/// `true` or `false`, exactly; anything else is rejected.
impl<'doc> Read<'doc> for bool {
    open spec fn spec_parse_ok(fields: Seq<Seq<u8>>, v: bool) -> bool {
        fields.len() >= 1 && (is_true_field(fields[0]) || is_false_field(fields[0])) && v
            == is_true_field(fields[0])
    }

    open spec fn spec_parse_err(fields: Seq<Seq<u8>>, e: Error, n: int) -> bool {
        ||| (fields.len() == 0 && e == Error::EndOfLine && n == 0)
        ||| (fields.len() >= 1 && !is_true_field(fields[0]) && !is_false_field(fields[0]) && e
            == Error::ParseField && n == 1)
    }

    open spec fn spec_consumed(fields: Seq<Seq<u8>>) -> int {
        1
    }

    fn parse_tsv(fields: &mut Walker<'doc>) -> (r: Result<bool, Error>) {
        let f = fields.next_field()?;
        if f.len() == 4 && f[0] == 116 && f[1] == 114 && f[2] == 117 && f[3] == 101 {
            proof {
                assert(is_true_field(f@));
            }
            Ok(true)
        } else if f.len() == 5 && f[0] == 102 && f[1] == 97 && f[2] == 108 && f[3] == 115
            && f[4] == 101 {
            proof {
                assert(is_false_field(f@));
            }
            Ok(false)
        } else {
            Err(Error::ParseField)
        }
    }
}

/// A decimal integer in the range of `u8`.
impl<'doc> Read<'doc> for u8 {
    open spec fn spec_parse_ok(fields: Seq<Seq<u8>>, v: u8) -> bool {
        fields.len() >= 1 && uint_field_ok(fields[0], u8::MAX as int) && v == uint_literal_value(
            fields[0],
        )
    }

    open spec fn spec_parse_err(fields: Seq<Seq<u8>>, e: Error, n: int) -> bool {
        ||| (fields.len() == 0 && e == Error::EndOfLine && n == 0)
        ||| (fields.len() >= 1 && !uint_field_ok(fields[0], u8::MAX as int) && e
            == Error::ParseField && n == 1)
    }

    open spec fn spec_consumed(fields: Seq<Seq<u8>>) -> int {
        1
    }

    fn parse_tsv(fields: &mut Walker<'doc>) -> (r: Result<u8, Error>) {
        let f = fields.next_field()?;
        let v = parse_uint_field(f, 0xffu128)?;
        Ok(v as u8)
    }
}

/// A decimal integer in the range of `u16`.
impl<'doc> Read<'doc> for u16 {
    open spec fn spec_parse_ok(fields: Seq<Seq<u8>>, v: u16) -> bool {
        fields.len() >= 1 && uint_field_ok(fields[0], u16::MAX as int) && v == uint_literal_value(
            fields[0],
        )
    }

    open spec fn spec_parse_err(fields: Seq<Seq<u8>>, e: Error, n: int) -> bool {
        ||| (fields.len() == 0 && e == Error::EndOfLine && n == 0)
        ||| (fields.len() >= 1 && !uint_field_ok(fields[0], u16::MAX as int) && e
            == Error::ParseField && n == 1)
    }

    open spec fn spec_consumed(fields: Seq<Seq<u8>>) -> int {
        1
    }

    fn parse_tsv(fields: &mut Walker<'doc>) -> (r: Result<u16, Error>) {
        let f = fields.next_field()?;
        let v = parse_uint_field(f, 0xffffu128)?;
        Ok(v as u16)
    }
}

/// A decimal integer in the range of `u32`.
impl<'doc> Read<'doc> for u32 {
    open spec fn spec_parse_ok(fields: Seq<Seq<u8>>, v: u32) -> bool {
        fields.len() >= 1 && uint_field_ok(fields[0], u32::MAX as int) && v == uint_literal_value(
            fields[0],
        )
    }

    open spec fn spec_parse_err(fields: Seq<Seq<u8>>, e: Error, n: int) -> bool {
        ||| (fields.len() == 0 && e == Error::EndOfLine && n == 0)
        ||| (fields.len() >= 1 && !uint_field_ok(fields[0], u32::MAX as int) && e
            == Error::ParseField && n == 1)
    }

    open spec fn spec_consumed(fields: Seq<Seq<u8>>) -> int {
        1
    }

    fn parse_tsv(fields: &mut Walker<'doc>) -> (r: Result<u32, Error>) {
        let f = fields.next_field()?;
        let v = parse_uint_field(f, 0xffff_ffffu128)?;
        Ok(v as u32)
    }
}

/// A decimal integer in the range of `u64`.
impl<'doc> Read<'doc> for u64 {
    open spec fn spec_parse_ok(fields: Seq<Seq<u8>>, v: u64) -> bool {
        fields.len() >= 1 && uint_field_ok(fields[0], u64::MAX as int) && v == uint_literal_value(
            fields[0],
        )
    }

    open spec fn spec_parse_err(fields: Seq<Seq<u8>>, e: Error, n: int) -> bool {
        ||| (fields.len() == 0 && e == Error::EndOfLine && n == 0)
        ||| (fields.len() >= 1 && !uint_field_ok(fields[0], u64::MAX as int) && e
            == Error::ParseField && n == 1)
    }

    open spec fn spec_consumed(fields: Seq<Seq<u8>>) -> int {
        1
    }

    fn parse_tsv(fields: &mut Walker<'doc>) -> (r: Result<u64, Error>) {
        let f = fields.next_field()?;
        let v = parse_uint_field(f, 0xffff_ffff_ffff_ffffu128)?;
        Ok(v as u64)
    }
}

/// A decimal integer in the range of `u128`.
impl<'doc> Read<'doc> for u128 {
    open spec fn spec_parse_ok(fields: Seq<Seq<u8>>, v: u128) -> bool {
        fields.len() >= 1 && uint_field_ok(fields[0], u128::MAX as int) && v == uint_literal_value(
            fields[0],
        )
    }

    open spec fn spec_parse_err(fields: Seq<Seq<u8>>, e: Error, n: int) -> bool {
        ||| (fields.len() == 0 && e == Error::EndOfLine && n == 0)
        ||| (fields.len() >= 1 && !uint_field_ok(fields[0], u128::MAX as int) && e
            == Error::ParseField && n == 1)
    }

    open spec fn spec_consumed(fields: Seq<Seq<u8>>) -> int {
        1
    }

    fn parse_tsv(fields: &mut Walker<'doc>) -> (r: Result<u128, Error>) {
        let f = fields.next_field()?;
        let v = parse_uint_field(f, 0xffff_ffff_ffff_ffff_ffff_ffff_ffff_ffffu128)?;
        Ok(v)
    }
}

/// A decimal integer in the range of `i8`.
impl<'doc> Read<'doc> for i8 {
    open spec fn spec_parse_ok(fields: Seq<Seq<u8>>, v: i8) -> bool {
        fields.len() >= 1 && int_field_ok(fields[0], i8::MIN as int, i8::MAX as int) && v
            == int_literal_value(fields[0])
    }

    open spec fn spec_parse_err(fields: Seq<Seq<u8>>, e: Error, n: int) -> bool {
        ||| (fields.len() == 0 && e == Error::EndOfLine && n == 0)
        ||| (fields.len() >= 1 && !int_field_ok(fields[0], i8::MIN as int, i8::MAX as int) && e
            == Error::ParseField && n == 1)
    }

    open spec fn spec_consumed(fields: Seq<Seq<u8>>) -> int {
        1
    }

    fn parse_tsv(fields: &mut Walker<'doc>) -> (r: Result<i8, Error>) {
        let f = fields.next_field()?;
        let v = parse_int_field(f, 128u128, 127u128)?;
        Ok(v as i8)
    }
}

/// A decimal integer in the range of `i16`.
impl<'doc> Read<'doc> for i16 {
    open spec fn spec_parse_ok(fields: Seq<Seq<u8>>, v: i16) -> bool {
        fields.len() >= 1 && int_field_ok(fields[0], i16::MIN as int, i16::MAX as int) && v
            == int_literal_value(fields[0])
    }

    open spec fn spec_parse_err(fields: Seq<Seq<u8>>, e: Error, n: int) -> bool {
        ||| (fields.len() == 0 && e == Error::EndOfLine && n == 0)
        ||| (fields.len() >= 1 && !int_field_ok(fields[0], i16::MIN as int, i16::MAX as int) && e
            == Error::ParseField && n == 1)
    }

    open spec fn spec_consumed(fields: Seq<Seq<u8>>) -> int {
        1
    }

    fn parse_tsv(fields: &mut Walker<'doc>) -> (r: Result<i16, Error>) {
        let f = fields.next_field()?;
        let v = parse_int_field(f, 32768u128, 32767u128)?;
        Ok(v as i16)
    }
}

/// A decimal integer in the range of `i32`.
impl<'doc> Read<'doc> for i32 {
    open spec fn spec_parse_ok(fields: Seq<Seq<u8>>, v: i32) -> bool {
        fields.len() >= 1 && int_field_ok(fields[0], i32::MIN as int, i32::MAX as int) && v
            == int_literal_value(fields[0])
    }

    open spec fn spec_parse_err(fields: Seq<Seq<u8>>, e: Error, n: int) -> bool {
        ||| (fields.len() == 0 && e == Error::EndOfLine && n == 0)
        ||| (fields.len() >= 1 && !int_field_ok(fields[0], i32::MIN as int, i32::MAX as int) && e
            == Error::ParseField && n == 1)
    }

    open spec fn spec_consumed(fields: Seq<Seq<u8>>) -> int {
        1
    }

    fn parse_tsv(fields: &mut Walker<'doc>) -> (r: Result<i32, Error>) {
        let f = fields.next_field()?;
        let v = parse_int_field(f, 2147483648u128, 2147483647u128)?;
        Ok(v as i32)
    }
}

/// A decimal integer in the range of `i64`.
impl<'doc> Read<'doc> for i64 {
    open spec fn spec_parse_ok(fields: Seq<Seq<u8>>, v: i64) -> bool {
        fields.len() >= 1 && int_field_ok(fields[0], i64::MIN as int, i64::MAX as int) && v
            == int_literal_value(fields[0])
    }

    open spec fn spec_parse_err(fields: Seq<Seq<u8>>, e: Error, n: int) -> bool {
        ||| (fields.len() == 0 && e == Error::EndOfLine && n == 0)
        ||| (fields.len() >= 1 && !int_field_ok(fields[0], i64::MIN as int, i64::MAX as int) && e
            == Error::ParseField && n == 1)
    }

    open spec fn spec_consumed(fields: Seq<Seq<u8>>) -> int {
        1
    }

    fn parse_tsv(fields: &mut Walker<'doc>) -> (r: Result<i64, Error>) {
        let f = fields.next_field()?;
        let v = parse_int_field(f, 9223372036854775808u128, 9223372036854775807u128)?;
        Ok(v as i64)
    }
}

/// A decimal integer in the range of `i128`.
impl<'doc> Read<'doc> for i128 {
    open spec fn spec_parse_ok(fields: Seq<Seq<u8>>, v: i128) -> bool {
        fields.len() >= 1 && int_field_ok(fields[0], i128::MIN as int, i128::MAX as int) && v
            == int_literal_value(fields[0])
    }

    open spec fn spec_parse_err(fields: Seq<Seq<u8>>, e: Error, n: int) -> bool {
        ||| (fields.len() == 0 && e == Error::EndOfLine && n == 0)
        ||| (fields.len() >= 1 && !int_field_ok(fields[0], i128::MIN as int, i128::MAX as int) && e
            == Error::ParseField && n == 1)
    }

    open spec fn spec_consumed(fields: Seq<Seq<u8>>) -> int {
        1
    }

    fn parse_tsv(fields: &mut Walker<'doc>) -> (r: Result<i128, Error>) {
        let f = fields.next_field()?;
        let v = parse_int_field(f, 0x8000_0000_0000_0000_0000_0000_0000_0000u128, 0x7fff_ffff_ffff_ffff_ffff_ffff_ffff_ffffu128)?;
        Ok(v)
    }
}

} // verus!
