//! Byte-string comparisons and a UTF-8 test.

use vstd::prelude::*;
use vstd::utf8::{
    is_continuation_byte, is_leading_byte_width_1, is_leading_byte_width_2,
    is_leading_byte_width_3, is_leading_byte_width_4, length_of_first_scalar,
    pop_first_scalar, valid_first_scalar, valid_utf8,
};

verus! {

/// True when `bytes` is a well-formed UTF-8 encoding: each scalar's
/// leading and continuation bytes in pattern, no overlong encoding, no
/// surrogate.
pub fn is_valid_utf8(bytes: &[u8]) -> (r: bool)
    ensures
        r == valid_utf8(bytes@),
{
    let n = bytes.len();
    let mut i: usize = 0;
    proof {
        assert(bytes@.skip(0) =~= bytes@);
    }
    while i < n
        invariant
            0 <= i <= n,
            n == bytes@.len(),
            valid_utf8(bytes@) <==> valid_utf8(bytes@.skip(i as int)),
        decreases n - i,
    {
        let ghost rest = bytes@.skip(i as int);
        proof {
            assert(rest.len() == n - i);
            assert(rest[0] == bytes@[i as int]);
        }
        let b1 = bytes[i];
        let width: usize;
        if b1 <= 0x7f {
            proof {
                assert(((b1 & 0x7f) as u32) <= 0x7f) by (bit_vector);
                assert(valid_first_scalar(rest));
                assert(length_of_first_scalar(rest) == 1);
            }
            width = 1;
        } else if 0xc0 <= b1 && b1 <= 0xdf {
            if n - i < 2 {
                proof {
                    assert(!valid_first_scalar(rest));
                }
                return false;
            }
            let b2 = bytes[i + 1];
            proof {
                assert(rest[1] == bytes@[i + 1]);
            }
            if !(0x80 <= b2 && b2 <= 0xbf) {
                proof {
                    assert(!valid_first_scalar(rest));
                }
                return false;
            }
            let cp: u32 = (((b1 & 0x1f) as u32) << 6u32) | ((b2 & 0x3f) as u32);
            proof {
                assert(vstd::utf8::decode_first_codepoint(rest) == cp);
                assert((((b1 & 0x1f) as u32) << 6u32) | ((b2 & 0x3f) as u32) <= 0x7ff)
                    by (bit_vector);
            }
            if cp < 0x80 {
                proof {
                    assert(!valid_first_scalar(rest));
                }
                return false;
            }
            proof {
                assert(valid_first_scalar(rest));
                assert(length_of_first_scalar(rest) == 2);
            }
            width = 2;
        } else if 0xe0 <= b1 && b1 <= 0xef {
            if n - i < 3 {
                proof {
                    assert(!valid_first_scalar(rest));
                }
                return false;
            }
            let b2 = bytes[i + 1];
            let b3 = bytes[i + 2];
            proof {
                assert(rest[1] == bytes@[i + 1]);
                assert(rest[2] == bytes@[i + 2]);
            }
            if !(0x80 <= b2 && b2 <= 0xbf) || !(0x80 <= b3 && b3 <= 0xbf) {
                proof {
                    assert(!valid_first_scalar(rest));
                }
                return false;
            }
            let cp: u32 = (((b1 & 0x0f) as u32) << 12u32) | (((b2 & 0x3f) as u32) << 6u32)
                | ((b3 & 0x3f) as u32);
            proof {
                assert(vstd::utf8::decode_first_codepoint(rest) == cp);
                assert((((b1 & 0x0f) as u32) << 12u32) | (((b2 & 0x3f) as u32) << 6u32)
                    | ((b3 & 0x3f) as u32) <= 0xffff) by (bit_vector);
            }
            if cp < 0x800 || (0xd800 <= cp && cp <= 0xdfff) {
                proof {
                    assert(!valid_first_scalar(rest));
                }
                return false;
            }
            proof {
                assert(valid_first_scalar(rest));
                assert(length_of_first_scalar(rest) == 3);
            }
            width = 3;
        } else if 0xf0 <= b1 && b1 <= 0xf7 {
            if n - i < 4 {
                proof {
                    assert(!valid_first_scalar(rest));
                }
                return false;
            }
            let b2 = bytes[i + 1];
            let b3 = bytes[i + 2];
            let b4 = bytes[i + 3];
            proof {
                assert(rest[1] == bytes@[i + 1]);
                assert(rest[2] == bytes@[i + 2]);
                assert(rest[3] == bytes@[i + 3]);
            }
            if !(0x80 <= b2 && b2 <= 0xbf) || !(0x80 <= b3 && b3 <= 0xbf) || !(0x80 <= b4
                && b4 <= 0xbf) {
                proof {
                    assert(!valid_first_scalar(rest));
                }
                return false;
            }
            let cp: u32 = (((b1 & 0x07) as u32) << 18u32) | (((b2 & 0x3f) as u32)
                << 12u32) | (((b3 & 0x3f) as u32) << 6u32) | ((b4 & 0x3f) as u32);
            proof {
                assert(vstd::utf8::decode_first_codepoint(rest) == cp);
            }
            if cp < 0x10000 || cp > 0x10ffff {
                proof {
                    assert(!valid_first_scalar(rest));
                }
                return false;
            }
            proof {
                assert(valid_first_scalar(rest));
                assert(length_of_first_scalar(rest) == 4);
            }
            width = 4;
        } else {
            // a stray continuation byte, or a byte no encoding begins with
            proof {
                assert(!is_leading_byte_width_1(rest[0]));
                assert(!is_leading_byte_width_2(rest[0]));
                assert(!is_leading_byte_width_3(rest[0]));
                assert(!is_leading_byte_width_4(rest[0]));
                assert(!valid_first_scalar(rest));
            }
            return false;
        }
        proof {
            assert(pop_first_scalar(rest) =~= bytes@.skip(i + width));
        }
        i = i + width;
    }
    proof {
        assert(bytes@.skip(n as int) =~= Seq::<u8>::empty());
        assert(valid_utf8(Seq::<u8>::empty()));
    }
    true
}

/// Equality of two byte strings.
pub fn bytes_eq(a: &[u8], b: &[u8]) -> (r: bool)
    ensures
        r == (a@ == b@),
{
    if a.len() != b.len() {
        return false;
    }
    let mut i: usize = 0;
    while i < a.len()
        invariant
            0 <= i <= a@.len(),
            a@.len() == b@.len(),
            forall|j: int| 0 <= j < i ==> a@[j] == b@[j],
        decreases a@.len() - i,
    {
        if a[i] != b[i] {
            return false;
        }
        i = i + 1;
    }
    proof {
        assert(a@ =~= b@);
    }
    true
}

/// ASCII lower-casing of one byte; other bytes pass unchanged.
pub open spec fn to_lower(b: u8) -> u8 {
    if 65 <= b && b <= 90 {
        (b + 32) as u8
    } else {
        b
    }
}

/// ASCII lower-casing of a byte string.
pub open spec fn lower_bytes(s: Seq<u8>) -> Seq<u8> {
    s.map_values(|b: u8| to_lower(b))
}

fn lower_byte(b: u8) -> (r: u8)
    ensures
        r == to_lower(b),
{
    if 65 <= b && b <= 90 {
        b + 32
    } else {
        b
    }
}

/// ASCII lower-casing of a whole byte string.
pub fn to_lower_vec(b: &[u8]) -> (r: Vec<u8>)
    ensures
        r@ == lower_bytes(b@),
{
    let mut r: Vec<u8> = Vec::new();
    let mut i: usize = 0;
    while i < b.len()
        invariant
            0 <= i <= b@.len(),
            r@.len() == i,
            forall|j: int| 0 <= j < i ==> r@[j] == lower_bytes(b@)[j],
        decreases b@.len() - i,
    {
        r.push(lower_byte(b[i]));
        proof {
            assert(lower_bytes(b@)[i as int] == to_lower(b@[i as int]));
        }
        i = i + 1;
    }
    proof {
        assert(r@ =~= lower_bytes(b@));
    }
    r
}

/// Equality of two byte strings up to ASCII case.
pub fn eq_ignore_case(a: &[u8], b: &[u8]) -> (r: bool)
    ensures
        r == (lower_bytes(a@) == lower_bytes(b@)),
{
    if a.len() != b.len() {
        proof {
            assert(lower_bytes(a@).len() != lower_bytes(b@).len());
        }
        return false;
    }
    let mut i: usize = 0;
    while i < a.len()
        invariant
            0 <= i <= a@.len(),
            a@.len() == b@.len(),
            forall|j: int| 0 <= j < i ==> lower_bytes(a@)[j] == lower_bytes(b@)[j],
        decreases a@.len() - i,
    {
        if lower_byte(a[i]) != lower_byte(b[i]) {
            proof {
                assert(lower_bytes(a@)[i as int] == to_lower(a@[i as int]));
                assert(lower_bytes(b@)[i as int] == to_lower(b@[i as int]));
            }
            return false;
        }
        proof {
            assert(lower_bytes(a@)[i as int] == to_lower(a@[i as int]));
            assert(lower_bytes(b@)[i as int] == to_lower(b@[i as int]));
        }
        i = i + 1;
    }
    proof {
        assert(lower_bytes(a@) =~= lower_bytes(b@));
    }
    true
}

} // verus!
