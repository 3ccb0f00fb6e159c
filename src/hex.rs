//! Rendering of raw bytes as lowercase hexadecimal text and back.

use vstd::prelude::*;

verus! {

/// The ASCII character of a nibble: `0`-`9`, then `a`-`f`.
pub open spec fn hex_digit(n: u8) -> u8 {
    if n < 10 {
        (48 + n) as u8
    } else {
        (87 + n) as u8
    }
}

/// Two lowercase hex characters per byte, high nibble first.
pub open spec fn hex_of(b: Seq<u8>) -> Seq<u8> {
    Seq::new(
        2 * b.len(),
        |i: int|
            if i % 2 == 0 {
                hex_digit(b[i / 2] / 16)
            } else {
                hex_digit(b[i / 2] % 16)
            },
    )
}

/// The value of a lowercase hex character, if it is one.
pub open spec fn nibble_of(c: u8) -> Option<u8> {
    if 48 <= c && c <= 57 {
        Some((c - 48) as u8)
    } else if 97 <= c && c <= 102 {
        Some((c - 87) as u8)
    } else {
        None
    }
}

proof fn lemma_nibble_of_digit(n: u8)
    requires
        n < 16,
    ensures
        nibble_of(hex_digit(n)) == Some(n),
{
}

fn digit(n: u8) -> (r: u8)
    requires
        n < 16,
    ensures
        r == hex_digit(n),
{
    if n < 10 {
        48 + n
    } else {
        87 + n
    }
}

fn nibble(c: u8) -> (r: Option<u8>)
    ensures
        r == nibble_of(c),
{
    if 48 <= c && c <= 57 {
        Some(c - 48)
    } else if 97 <= c && c <= 102 {
        Some(c - 87)
    } else {
        None
    }
}

/// Renders bytes as lowercase hexadecimal text (ASCII bytes).
pub fn encode_hex(b: &[u8]) -> (r: Vec<u8>)
    requires
        b@.len() <= usize::MAX / 2,
    ensures
        r@ == hex_of(b@),
{
    let mut out: Vec<u8> = Vec::new();
    let mut i: usize = 0;
    while i < b.len()
        invariant
            i <= b@.len(),
            b@.len() <= usize::MAX / 2,
            out@.len() == 2 * i,
            forall|j: int| 0 <= j < 2 * i ==> out@[j] == #[trigger] hex_of(b@)[j],
        decreases b@.len() - i,
    {
        out.push(digit(b[i] / 16));
        out.push(digit(b[i] % 16));
        i += 1;
    }
    assert(out@ =~= hex_of(b@));
    out
}

/// Parses lowercase hexadecimal text into bytes. Fails on an odd length or on
/// any character that is not a lowercase hex digit.
pub fn decode_hex(s: &[u8]) -> (r: Option<Vec<u8>>)
    ensures
        r matches Some(v) ==> hex_of(v@) == s@,
        r is None ==> forall|v: Seq<u8>| hex_of(v) != s@,
{
    if s.len() % 2 != 0 {
        assert forall|v: Seq<u8>| hex_of(v) != s@ by {
            if hex_of(v) == s@ {
                assert(hex_of(v).len() == 2 * v.len());
            }
        }
        return None;
    }
    let mut out: Vec<u8> = Vec::new();
    let mut i: usize = 0;
    while i < s.len() / 2
        invariant
            s@.len() % 2 == 0,
            i <= s@.len() / 2,
            out@.len() == i,
            forall|j: int| 0 <= j < 2 * i ==> #[trigger] hex_of(out@)[j] == s@[j],
        decreases s@.len() / 2 - i,
    {
        let hi = nibble(s[2 * i]);
        let lo = nibble(s[2 * i + 1]);
        match (hi, lo) {
            (Some(h), Some(l)) => {
                proof {
                    lemma_hex_digit_inverse(s@[2 * i]);
                    lemma_hex_digit_inverse(s@[2 * i + 1]);
                }
                let ghost prev = out@;
                out.push(h * 16 + l);
                assert forall|j: int| 0 <= j < 2 * (i + 1) implies #[trigger] hex_of(out@)[j]
                    == s@[j] by {
                    if j < 2 * i {
                        assert(hex_of(prev)[j] == s@[j]);
                    } else {
                        assert((h * 16 + l) as u8 / 16 == h) by (nonlinear_arith)
                            requires
                                h < 16,
                                l < 16,
                        ;
                        assert((h * 16 + l) as u8 % 16 == l) by (nonlinear_arith)
                            requires
                                h < 16,
                                l < 16,
                        ;
                    }
                }
            },
            _ => {
                assert forall|v: Seq<u8>| hex_of(v) != s@ by {
                    if hex_of(v) == s@ {
                        let b = v[i as int];
                        assert(hex_of(v)[2 * i] == hex_digit(b / 16));
                        assert(hex_of(v)[2 * i + 1] == hex_digit(b % 16));
                        lemma_nibble_of_digit(b / 16);
                        lemma_nibble_of_digit(b % 16);
                    }
                }
                return None;
            },
        }
        i += 1;
    }
    assert(hex_of(out@) =~= s@);
    Some(out)
}

proof fn lemma_hex_digit_inverse(c: u8)
    ensures
        nibble_of(c) matches Some(n) ==> n < 16 && hex_digit(n) == c,
{
}

} // verus!
