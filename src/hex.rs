//! Decoding of hexadecimal text into raw bytes.

use vstd::prelude::*;

verus! {

/// The value of one hexadecimal digit, upper or lower case.
pub open spec fn hex_digit(c: u8) -> Option<u8> {
    if 48 <= c <= 57 {
        Some((c - 48) as u8)
    } else if 97 <= c <= 102 {
        Some((c - 87) as u8)
    } else if 65 <= c <= 70 {
        Some((c - 55) as u8)
    } else {
        None
    }
}

/// Text that decodes: an even number of hexadecimal digits.
pub open spec fn valid_hex(s: Seq<u8>) -> bool {
    s.len() % 2 == 0 && forall|i: int| 0 <= i < s.len() ==> (#[trigger] hex_digit(s[i])) is Some
}

/// The bytes that valid hexadecimal text stands for, two digits a byte,
/// the high half first.
pub open spec fn hex_bytes(s: Seq<u8>) -> Seq<u8> {
    Seq::new(
        s.len() / 2,
        |i: int| (hex_digit(s[2 * i])->0 * 16 + hex_digit(s[2 * i + 1])->0) as u8,
    )
}

/// What decoding `s` gives: its bytes, or nothing when it is not valid.
pub open spec fn decode_hex_spec(s: Seq<u8>) -> Option<Seq<u8>> {
    if valid_hex(s) {
        Some(hex_bytes(s))
    } else {
        None
    }
}

fn digit_value(c: u8) -> (r: Option<u8>)
    ensures
        r == hex_digit(c),
{
    if 48 <= c && c <= 57 {
        Some(c - 48)
    } else if 97 <= c && c <= 102 {
        Some(c - 87)
    } else if 65 <= c && c <= 70 {
        Some(c - 55)
    } else {
        None
    }
}

/// Decodes hexadecimal text; `None` on odd length or a non-hex byte.
pub fn decode_hex(s: &[u8]) -> (r: Option<Vec<u8>>)
    ensures
        r matches Some(v) ==> decode_hex_spec(s@) == Some(v@),
        r is None ==> decode_hex_spec(s@) is None,
{
    if s.len() % 2 != 0 {
        return None;
    }
    let mut out: Vec<u8> = Vec::new();
    let mut i: usize = 0;
    while i < s.len() / 2
        invariant
            s@.len() % 2 == 0,
            i <= s@.len() / 2,
            out@ =~= hex_bytes(s@).subrange(0, i as int),
            forall|j: int| 0 <= j < 2 * i ==> (#[trigger] hex_digit(s@[j])) is Some,
        decreases s@.len() / 2 - i,
    {
        let hi = digit_value(s[2 * i]);
        let lo = digit_value(s[2 * i + 1]);
        match (hi, lo) {
            (Some(h), Some(l)) => {
                out.push(h * 16 + l);
                i = i + 1;
                assert forall|j: int| 0 <= j < 2 * i implies (#[trigger] hex_digit(s@[j])) is Some by {
                    if j == 2 * i - 2 || j == 2 * i - 1 {
                    }
                }
                assert(out@ =~= hex_bytes(s@).subrange(0, i as int));
            },
            _ => {
                proof {
                    assert(!valid_hex(s@)) by {
                        if hi is None {
                            assert(hex_digit(s@[2 * i as int]) is None);
                        } else {
                            assert(hex_digit(s@[2 * i + 1]) is None);
                        }
                    }
                }
                return None;
            },
        }
    }
    assert(out@ =~= hex_bytes(s@));
    Some(out)
}

} // verus!
