//! Hex digits for the byte column: two lowercase digits per byte when written,
//! either case accepted when read.

use vstd::prelude::*;

verus! {

/// The lowercase hex digit for `n`, which is less than sixteen.
pub open spec fn hex_digit(n: int) -> char {
    if n < 10 {
        ((n + 48) as u8) as char
    } else {
        ((n + 87) as u8) as char
    }
}

/// `bytes` in hex: byte `k` becomes digits `2k` (high half) and `2k + 1` (low half).
pub open spec fn hex_encode(bytes: Seq<u8>) -> Seq<char> {
    Seq::new(
        2 * bytes.len(),
        |k: int|
            if k % 2 == 0 {
                hex_digit(bytes[k / 2] as int / 16)
            } else {
                hex_digit(bytes[k / 2] as int % 16)
            },
    )
}

/// The value of the hex digit `c`, in either case.
pub open spec fn hex_value(c: char) -> Option<int> {
    if '0' <= c <= '9' {
        Some(c as int - 48)
    } else if 'a' <= c <= 'f' {
        Some(c as int - 87)
    } else if 'A' <= c <= 'F' {
        Some(c as int - 55)
    } else {
        None
    }
}

/// Whether every character of `digits` is a hex digit.
pub open spec fn all_hex(digits: Seq<char>) -> bool {
    forall|k: int| 0 <= k < digits.len() ==> (#[trigger] hex_value(digits[k])) is Some
}

/// The bytes that `digits` (hex digits, an even count of them) stand for.
pub open spec fn hex_decode(digits: Seq<char>) -> Seq<u8> {
    Seq::new(
        digits.len() / 2,
        |k: int|
            (hex_value(digits[2 * k])->0 * 16 + hex_value(digits[2 * k + 1])->0) as u8,
    )
}

fn digit_of(n: u8) -> (c: char)
    requires
        n < 16,
    ensures
        c == hex_digit(n as int),
{
    if n < 10 {
        (n + 48) as char
    } else {
        (n + 87) as char
    }
}

/// Appends `bytes` in hex to `out`.
pub fn push_hex(out: &mut Vec<char>, bytes: &[u8])
    ensures
        final(out)@ == old(out)@ + hex_encode(bytes@),
{
    let ghost start = out@;
    let mut i: usize = 0;
    while i < bytes.len()
        invariant
            i <= bytes.len(),
            out@ == start + hex_encode(bytes@).take(2 * i),
        decreases bytes.len() - i,
    {
        let b = bytes[i];
        out.push(digit_of(b / 16));
        out.push(digit_of(b % 16));
        proof {
            let h = hex_encode(bytes@);
            assert(h[2 * i as int] == hex_digit(b as int / 16)) by {
                assert((2 * i as int) % 2 == 0 && (2 * i as int) / 2 == i);
            }
            assert(h[2 * i + 1] == hex_digit(b as int % 16)) by {
                assert((2 * i + 1) % 2 == 1 && (2 * i + 1) / 2 == i);
            }
            assert(h.take(2 * i + 2) == h.take(2 * i as int).push(h[2 * i as int]).push(
                h[2 * i + 1],
            ));
        }
        i = i + 1;
    }
    assert(hex_encode(bytes@).take(2 * i) == hex_encode(bytes@));
}

/// The value of the hex digit `c`, in either case.
pub fn value_of(c: char) -> (v: Option<u8>)
    ensures
        match v {
            Some(n) => hex_value(c) == Some(n as int),
            None => hex_value(c) is None,
        },
{
    if '0' <= c && c <= '9' {
        Some(((c as u32) - 48) as u8)
    } else if 'a' <= c && c <= 'f' {
        Some(((c as u32) - 87) as u8)
    } else if 'A' <= c && c <= 'F' {
        Some(((c as u32) - 55) as u8)
    } else {
        None
    }
}

/// Why a run of hex digits is no byte string.
pub enum HexFault {
    /// A character that is not a hex digit.
    NotADigit,
    /// An odd count of digits.
    OddCount,
}

/// The bytes that `digits` stand for, or why they stand for none: a
/// character that is no hex digit is reported before an odd count.
pub fn decode_hex(digits: &[char]) -> (r: Result<Vec<u8>, HexFault>)
    ensures
        match r {
            Ok(b) => all_hex(digits@) && digits@.len() % 2 == 0 && b@ == hex_decode(digits@),
            Err(HexFault::NotADigit) => !all_hex(digits@),
            Err(HexFault::OddCount) => all_hex(digits@) && digits@.len() % 2 == 1,
        },
{
    let n = digits.len();
    let mut k: usize = 0;
    while k < n
        invariant
            k <= n,
            n == digits@.len(),
            forall|j: int| 0 <= j < k ==> (#[trigger] hex_value(digits@[j])) is Some,
        decreases n - k,
    {
        if value_of(digits[k]).is_none() {
            return Err(HexFault::NotADigit);
        }
        k = k + 1;
    }
    if n % 2 == 1 {
        return Err(HexFault::OddCount);
    }
    let mut out: Vec<u8> = Vec::new();
    let mut i: usize = 0;
    while i < n / 2
        invariant
            i <= n / 2,
            n == digits@.len(),
            n % 2 == 0,
            all_hex(digits@),
            out@ == hex_decode(digits@).take(i as int),
        decreases n / 2 - i,
    {
        let hi = value_of(digits[2 * i]);
        let lo = value_of(digits[2 * i + 1]);
        let h: u8 = match hi {
            Some(v) => v,
            None => 0,
        };
        let l: u8 = match lo {
            Some(v) => v,
            None => 0,
        };
        proof {
            assert(hex_value(digits@[2 * i as int]) is Some);
            assert(hex_value(digits@[2 * i + 1]) is Some);
        }
        out.push(h * 16 + l);
        proof {
            let d = hex_decode(digits@);
            assert(d.take(i + 1) == d.take(i as int).push(d[i as int]));
        }
        i = i + 1;
    }
    assert(hex_decode(digits@).take(i as int) == hex_decode(digits@));
    Ok(out)
}

/// Reading back what was written gives the bytes back.
pub proof fn lemma_hex_roundtrip(bytes: Seq<u8>)
    ensures
        all_hex(hex_encode(bytes)),
        hex_encode(bytes).len() % 2 == 0,
        hex_decode(hex_encode(bytes)) == bytes,
{
    let h = hex_encode(bytes);
    assert forall|k: int| 0 <= k < h.len() implies (#[trigger] hex_value(h[k])) is Some by {
        let b = bytes[k / 2] as int;
        assert(0 <= b / 16 < 16 && 0 <= b % 16 < 16);
    }
    assert forall|k: int| 0 <= k < bytes.len() implies #[trigger] hex_decode(h)[k] == bytes[k] by {
        assert((2 * k) % 2 == 0 && (2 * k) / 2 == k);
        assert((2 * k + 1) % 2 == 1 && (2 * k + 1) / 2 == k);
        let b = bytes[k] as int;
        assert(hex_value(hex_digit(b / 16)) == Some(b / 16));
        assert(hex_value(hex_digit(b % 16)) == Some(b % 16));
        assert((b / 16) * 16 + b % 16 == b);
    }
    assert(hex_decode(h) == bytes);
}

} // verus!
