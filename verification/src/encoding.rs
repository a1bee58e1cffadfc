//! Validation of document data against the UTF-8 encoding specification.

use vstd::prelude::*;
use vstd::utf8::{
    codepoint_width_2, codepoint_width_3, codepoint_width_4, decode_first_codepoint,
    length_of_first_scalar, not_overlong_encoding, not_surrogate, pop_first_scalar,
    valid_first_scalar, valid_leading_and_continuation_bytes_first_codepoint, valid_utf8,
};
use vstd::assert_seqs_equal;

verus! {

/// Decide whether `data` is well-formed UTF-8, in the sense of
/// `vstd::utf8::valid_utf8`: a sequence of scalar encodings of one to four
/// bytes each, with no overlong encodings and no surrogates.
pub fn is_utf8(data: &[u8]) -> (b: bool)
    ensures
        b == valid_utf8(data@),
{
    let n: usize = data.len();
    let mut i: usize = 0;
    proof {
        assert_seqs_equal!(data@.skip(0), data@);
    }
    while i < n
        invariant
            i <= n,
            n == data@.len(),
            valid_utf8(data@) == valid_utf8(data@.skip(i as int)),
        decreases n - i,
    {
        let ghost s = data@.skip(i as int);
        assert(s.len() == n - i);
        let b0 = data[i];
        assert(s[0] == b0);
        if b0 < 0x80 {
            proof {
                assert(b0 & 0x7f == b0) by (bit_vector)
                    requires
                        b0 < 0x80,
                ;
                assert(valid_first_scalar(s));
                assert(length_of_first_scalar(s) == 1);
                assert_seqs_equal!(pop_first_scalar(s), data@.skip(i + 1));
            }
            i = i + 1;
        } else if b0 < 0xc0 {
            proof {
                assert(!valid_leading_and_continuation_bytes_first_codepoint(s));
                assert(!valid_utf8(s));
            }
            return false;
        } else if b0 < 0xe0 {
            if n - i < 2 {
                assert(!valid_leading_and_continuation_bytes_first_codepoint(s));
                return false;
            }
            let b1 = data[i + 1];
            assert(s[1] == b1);
            if !(0x80 <= b1 && b1 <= 0xbf) {
                assert(!valid_leading_and_continuation_bytes_first_codepoint(s));
                return false;
            }
            let cp: u32 = (((b0 & 0x1f) as u32) << 6u32) | ((b1 & 0x3f) as u32);
            assert(cp == codepoint_width_2(b0, b1));
            if cp < 0x80 {
                assert(!not_overlong_encoding(decode_first_codepoint(s), 2));
                return false;
            }
            proof {
                assert(cp <= 0x7ff) by (bit_vector)
                    requires
                        cp == (((b0 & 0x1f) as u32) << 6u32) | ((b1 & 0x3f) as u32),
                ;
                assert(valid_first_scalar(s));
                assert(length_of_first_scalar(s) == 2);
                assert_seqs_equal!(pop_first_scalar(s), data@.skip(i + 2));
            }
            i = i + 2;
        } else if b0 < 0xf0 {
            if n - i < 3 {
                assert(!valid_leading_and_continuation_bytes_first_codepoint(s));
                return false;
            }
            let b1 = data[i + 1];
            let b2 = data[i + 2];
            assert(s[1] == b1 && s[2] == b2);
            if !(0x80 <= b1 && b1 <= 0xbf) || !(0x80 <= b2 && b2 <= 0xbf) {
                assert(!valid_leading_and_continuation_bytes_first_codepoint(s));
                return false;
            }
            let cp: u32 = (((b0 & 0x0f) as u32) << 12u32) | (((b1 & 0x3f) as u32) << 6u32) | ((b2
                & 0x3f) as u32);
            assert(cp == codepoint_width_3(b0, b1, b2));
            if cp < 0x800 {
                assert(!not_overlong_encoding(decode_first_codepoint(s), 3));
                return false;
            }
            if 0xd800 <= cp && cp <= 0xdfff {
                assert(!not_surrogate(decode_first_codepoint(s)));
                return false;
            }
            proof {
                assert(valid_first_scalar(s));
                assert(length_of_first_scalar(s) == 3);
                assert_seqs_equal!(pop_first_scalar(s), data@.skip(i + 3));
            }
            i = i + 3;
        } else if b0 < 0xf8 {
            if n - i < 4 {
                assert(!valid_leading_and_continuation_bytes_first_codepoint(s));
                return false;
            }
            let b1 = data[i + 1];
            let b2 = data[i + 2];
            let b3 = data[i + 3];
            assert(s[1] == b1 && s[2] == b2 && s[3] == b3);
            if !(0x80 <= b1 && b1 <= 0xbf) || !(0x80 <= b2 && b2 <= 0xbf) || !(0x80 <= b3 && b3
                <= 0xbf) {
                assert(!valid_leading_and_continuation_bytes_first_codepoint(s));
                return false;
            }
            let cp: u32 = (((b0 & 0x07) as u32) << 18u32) | (((b1 & 0x3f) as u32) << 12u32) | (((b2
                & 0x3f) as u32) << 6u32) | ((b3 & 0x3f) as u32);
            assert(cp == codepoint_width_4(b0, b1, b2, b3));
            if cp < 0x10000 || cp > 0x10ffff {
                assert(!not_overlong_encoding(decode_first_codepoint(s), 4));
                return false;
            }
            proof {
                assert(valid_first_scalar(s));
                assert(length_of_first_scalar(s) == 4);
                assert_seqs_equal!(pop_first_scalar(s), data@.skip(i + 4));
            }
            i = i + 4;
        } else {
            proof {
                assert(!valid_leading_and_continuation_bytes_first_codepoint(s));
                assert(!valid_utf8(s));
            }
            return false;
        }
    }
    proof {
        assert_seqs_equal!(data@.skip(n as int), Seq::<u8>::empty());
    }
    true
}

} // verus!
