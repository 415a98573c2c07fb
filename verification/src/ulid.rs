//! Node identifiers: 128-bit, time-sortable, globally unique.

use vstd::prelude::*;

verus! {

/// A 128-bit, time-sortable, globally unique node identifier.
///
/// The verified logic treats an identifier as its raw 128-bit form;
/// drawing a fresh one is delegated to the `ulid` crate.
#[derive(Clone, Copy, PartialEq, Eq, Hash, Structural, Debug)]
pub struct Ulid(pub u128);

/// Relies on `ulid::Ulid::generate`: draws a fresh identifier from the
/// system clock and a random source. The result depends on both, so
/// nothing is promised of the bits.
#[verifier::external_body]
fn fresh_id_bits() -> u128 {
    ulid::Ulid::generate().into()
}

impl Ulid {
    /// Draw a fresh identifier.
    pub fn new() -> Ulid {
        Ulid(fresh_id_bits())
    }

    /// The raw 128-bit form.
    pub fn bits(&self) -> (r: u128)
        ensures
            r == self.0,
    {
        self.0
    }

    /// Rebuild an identifier from its raw 128-bit form.
    pub fn from_bits(bits: u128) -> (r: Ulid)
        ensures
            r.0 == bits,
    {
        Ulid(bits)
    }

    /// The 26-character textual form of this identifier: 128 bits as
    /// 5-bit digits, most significant first, in the base32 alphabet.
    pub fn to_text(&self) -> (r: String)
        ensures
            r@ == ulid_text(self.0),
    {
        let mut bytes: Vec<u8> = Vec::new();
        let mut i: usize = 0;
        while i < 26
            invariant
                i <= 26,
                bytes@.len() == i,
                forall|j: int|
                    0 <= j < i ==> bytes@[j] == digit_ascii(ulid_digit(self.0, j))
                        && bytes@[j] < 0x80,
            decreases 26 - i,
        {
            let shift: u32 = 125 - 5 * (i as u32);
            let wide: u128 = (self.0 >> shift) & 0x1F;
            proof {
                let x = self.0;
                let sh = shift;
                assert((x >> sh) & 0x1F < 32) by (bit_vector);
            }
            let d: u8 = wide as u8;
            proof {
                assert(d as u64 == ulid_digit(self.0, i as int));
            }
            let b = digit_byte(d);
            bytes.push(b);
            i = i + 1;
        }
        let ghost chars = bytes@.map_values(|b: u8| b as char);
        proof {
            assert(vstd::utf8::is_ascii_chars(chars));
            vstd::utf8::is_ascii_chars_encode_utf8(chars);
            assert(vstd::utf8::encode_utf8(chars) =~= bytes@);
            vstd::utf8::encode_utf8_valid_utf8(chars);
            vstd::utf8::encode_utf8_decode_utf8(chars);
        }
        let r = match crate::codec::string_from_utf8(bytes) {
            Some(s) => s,
            None => {
                proof {
                    assert(false);
                }
                String::new()
            },
        };
        proof {
            assert(r@ =~= ulid_text(self.0));
        }
        r
    }

    /// Parse the 26-character textual form back into an identifier.
    /// Accepts exactly what [`Ulid::to_text`] produces: 26 digits of
    /// the base32 alphabet, the first small enough that the identifier
    /// fits 128 bits.
    pub fn from_text(s: &str) -> (r: Option<Ulid>)
        ensures
            match r {
                Some(u) => ulid_parse(s@) == Some(u.0),
                None => ulid_parse(s@) is None,
            },
    {
        let n = s.unicode_len();
        if n != 26 {
            return None;
        }
        let mut acc: u128 = 0;
        let mut i: usize = 0;
        while i < 26
            invariant
                i <= 26,
                s@.len() == 26,
                forall|j: int| 0 <= j < i ==> code_digit((#[trigger] s@[j]) as u32) is Some,
                i > 0 ==> code_digit(s@[0] as u32)->0 < 8,
                fold_digits(s@, 0, 0) == fold_digits(s@, i as int, acc),
            decreases 26 - i,
        {
            let c = s.get_char(i);
            let d = match char_digit(c) {
                Some(d) => d,
                None => {
                    proof {
                        assert(code_digit(s@[i as int] as u32) is None);
                    }
                    return None;
                },
            };
            if i == 0 && d >= 8 {
                proof {
                    assert(code_digit(s@[0] as u32)->0 >= 8);
                }
                return None;
            }
            let ghost prev = acc;
            acc = (acc << 5) | (d as u128);
            proof {
                assert(fold_digits(s@, i as int, prev) == fold_digits(s@, i + 1, acc));
            }
            i = i + 1;
        }
        Some(Ulid(acc))
    }
}

/// The byte standing for a 5-bit digit in the textual form: the base32
/// alphabet of digits and uppercase letters without I, L, O and U.
pub open spec fn digit_ascii(d: u64) -> u8 {
    if d < 10 {
        (48 + d) as u8  // '0' through '9'
    } else if d < 18 {
        (55 + d) as u8  // 'A' through 'H'
    } else if d < 20 {
        (56 + d) as u8  // 'J', 'K'
    } else if d < 22 {
        (57 + d) as u8  // 'M', 'N'
    } else if d < 27 {
        (58 + d) as u8  // 'P' through 'T'
    } else {
        (59 + d) as u8  // 'V' through 'Z'
    }
}

/// The digit a code point stands for, if any.
pub open spec fn code_digit(u: u32) -> Option<u64> {
    if 48 <= u <= 57 {
        Some((u - 48) as u64)
    } else if 65 <= u <= 72 {
        Some((u - 55) as u64)
    } else if u == 74 || u == 75 {
        Some((u - 56) as u64)
    } else if u == 77 || u == 78 {
        Some((u - 57) as u64)
    } else if 80 <= u <= 84 {
        Some((u - 58) as u64)
    } else if 86 <= u <= 90 {
        Some((u - 59) as u64)
    } else {
        None
    }
}

/// The `i`-th 5-bit digit of an identifier, most significant first.
pub open spec fn ulid_digit(bits: u128, i: int) -> u64 {
    (((bits >> ((125 - 5 * i) as u128)) & 0x1F) as u64)
}

/// The 26-character textual form of an identifier.
pub open spec fn ulid_text(bits: u128) -> Seq<char> {
    Seq::new(26, |i: int| digit_ascii(ulid_digit(bits, i)) as char)
}

/// Reassemble an identifier from the digits at position `i` onward,
/// the earlier ones already accumulated.
pub open spec fn fold_digits(s: Seq<char>, i: int, acc: u128) -> u128
    decreases 26 - i,
{
    if i < 0 || i >= 26 {
        acc
    } else {
        match code_digit(s[i] as u32) {
            Some(d) => fold_digits(s, i + 1, (acc << 5) | (d as u128)),
            None => acc,
        }
    }
}

/// Parse the textual form: exactly 26 digits, the first below 8 so the
/// identifier fits 128 bits.
pub open spec fn ulid_parse(s: Seq<char>) -> Option<u128> {
    if s.len() == 26 && (forall|i: int|
        0 <= i < 26 ==> code_digit((#[trigger] s[i]) as u32) is Some) && code_digit(
        s[0] as u32,
    )->0 < 8 {
        Some(fold_digits(s, 0, 0))
    } else {
        None
    }
}

/// The byte standing for a 5-bit digit.
fn digit_byte(d: u8) -> (r: u8)
    requires
        d < 32,
    ensures
        r == digit_ascii(d as u64),
        r < 0x80,
{
    if d < 10 {
        48 + d
    } else if d < 18 {
        55 + d
    } else if d < 20 {
        56 + d
    } else if d < 22 {
        57 + d
    } else if d < 27 {
        58 + d
    } else {
        59 + d
    }
}

/// The digit a character stands for, if any.
fn char_digit(c: char) -> (r: Option<u8>)
    ensures
        match r {
            Some(d) => d < 32 && code_digit(c as u32) == Some(d as u64),
            None => code_digit(c as u32) is None,
        },
{
    let u = c as u32;
    if u >= 48 && u <= 57 {
        Some((u - 48) as u8)
    } else if u >= 65 && u <= 72 {
        Some((u - 55) as u8)
    } else if u == 74 || u == 75 {
        Some((u - 56) as u8)
    } else if u == 77 || u == 78 {
        Some((u - 57) as u8)
    } else if u >= 80 && u <= 84 {
        Some((u - 58) as u8)
    } else if u >= 86 && u <= 90 {
        Some((u - 59) as u8)
    } else {
        None
    }
}

/// The bits above the `i`-th digit of an identifier.
pub open spec fn prefix_bits(bits: u128, i: int) -> u128 {
    if i <= 0 {
        0
    } else if i >= 26 {
        bits
    } else {
        bits >> ((130 - 5 * i) as u128)
    }
}

proof fn lemma_fold_reassembles(bits: u128, i: int)
    requires
        0 <= i <= 26,
    ensures
        fold_digits(ulid_text(bits), i, prefix_bits(bits, i)) == bits,
    decreases 26 - i,
{
    let s = ulid_text(bits);
    if i < 26 {
        let d = ulid_digit(bits, i);
        assert(s[i] == digit_ascii(d) as char);
        proof_digit_inverse(bits, i);
        if i == 0 {
            let x = bits;
            assert(((0u128 << 5) | ((x >> 125) & 0x1F)) == x >> 125) by (bit_vector);
            assert((((x >> 125u128) & 0x1F) as u64) as u128 == (x >> 125u128) & 0x1F)
                by (bit_vector);
            assert((prefix_bits(bits, 0) << 5) | (d as u128) == prefix_bits(bits, 1));
        } else {
            let x = bits;
            let k: u128 = (125 - 5 * i) as u128;
            assert(((x >> (k + 5)) << 5) | ((x >> k) & 0x1F) == x >> k) by (bit_vector)
                requires
                    k <= 120,
            ;
            assert((((x >> k) & 0x1F) as u64) as u128 == (x >> k) & 0x1F) by (bit_vector);
            assert(prefix_bits(bits, i) == x >> (k + 5));
            if i == 25 {
                assert(x >> 0u128 == x) by (bit_vector);
            }
            assert((prefix_bits(bits, i) << 5) | (d as u128) == prefix_bits(bits, i + 1));
        }
        lemma_fold_reassembles(bits, i + 1);
        assert(fold_digits(s, i, prefix_bits(bits, i)) == fold_digits(
            s,
            i + 1,
            prefix_bits(bits, i + 1),
        ));
    }
}

/// The character written for the `i`-th digit parses back to it.
proof fn proof_digit_inverse(bits: u128, i: int)
    requires
        0 <= i < 26,
    ensures
        code_digit((ulid_text(bits)[i]) as u32) == Some(ulid_digit(bits, i)),
{
    let x = bits;
    let sh: u128 = (125 - 5 * i) as u128;
    assert((x >> sh) & 0x1F < 32) by (bit_vector);
    let d = ulid_digit(bits, i);
    assert(d < 32);
    assert(ulid_text(bits)[i] == digit_ascii(d) as char);
    assert((digit_ascii(d) as char) as u32 == digit_ascii(d) as u32);
    assert(code_digit(digit_ascii(d) as u32) == Some(d));
}

/// Textual round trip: parsing an identifier's own textual form yields
/// the identifier back, exactly.
pub proof fn lemma_ulid_text_round_trip(bits: u128)
    ensures
        ulid_parse(ulid_text(bits)) == Some(bits),
{
    let s = ulid_text(bits);
    assert forall|i: int| 0 <= i < 26 implies code_digit((#[trigger] s[i]) as u32) == Some(
        ulid_digit(bits, i),
    ) by {
        proof_digit_inverse(bits, i);
    }
    let x = bits;
    assert((x >> 125u128) & 0x1F < 8) by (bit_vector);
    assert(code_digit(s[0] as u32)->0 < 8);
    lemma_fold_reassembles(bits, 0);
}

} // verus!
