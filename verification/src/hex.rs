//! Hexadecimal numbers as they appear in a mapping table: reading them and
//! writing them, with the proof that writing and reading back agree.

use vstd::prelude::*;

verus! {

/// The value of one hexadecimal digit, in either case; `None` for any other byte.
pub open spec fn digit_value(b: u8) -> Option<u8> {
    if 0x30 <= b <= 0x39 {
        Some((b - 0x30) as u8)
    } else if 0x61 <= b <= 0x66 {
        Some((b - 0x61 + 10) as u8)
    } else if 0x41 <= b <= 0x46 {
        Some((b - 0x41 + 10) as u8)
    } else {
        None
    }
}

/// Whether every byte of `s` is a hexadecimal digit.
pub open spec fn all_digits(s: Seq<u8>) -> bool {
    forall|i: int| 0 <= i < s.len() ==> (#[trigger] digit_value(s[i])) is Some
}

/// The number that the digit string `s` denotes, most significant digit first.
/// A byte that is no digit counts as zero; callers pair this with [`all_digits`].
pub open spec fn digits_value(s: Seq<u8>) -> nat
    decreases s.len(),
{
    if s.len() == 0 {
        0
    } else {
        let d: nat = match digit_value(s.last()) {
            Some(d) => d as nat,
            None => 0,
        };
        digits_value(s.drop_last()) * 16 + d
    }
}

/// What a field of hexadecimal text denotes: `Some(n)` exactly when the field is
/// one or more hexadecimal digits and nothing else, and `n`, their value, fits
/// in 64 bits. No sign, no `0x` prefix and no separator is accepted.
pub open spec fn hex_number(s: Seq<u8>) -> Option<u64> {
    if s.len() > 0 && all_digits(s) && digits_value(s) <= u64::MAX {
        Some(digits_value(s) as u64)
    } else {
        None
    }
}

/// The lowercase digit for a value below sixteen.
pub open spec fn digit_char(d: nat) -> u8
    recommends
        d < 16,
{
    if d < 10 {
        (0x30 + d) as u8
    } else {
        (0x61 + d - 10) as u8
    }
}

/// The shortest lowercase hexadecimal text for `n`: no leading zero, and `0`
/// for zero.
pub open spec fn hex_text(n: nat) -> Seq<u8>
    decreases n,
{
    if n < 16 {
        seq![digit_char(n)]
    } else {
        hex_text(n / 16).push(digit_char(n % 16))
    }
}

/// Reading back what [`hex_text`] wrote gives the number that was written.
pub proof fn lemma_hex_round_trip(n: nat)
    ensures
        hex_text(n).len() > 0,
        all_digits(hex_text(n)),
        digits_value(hex_text(n)) == n,
        n <= u64::MAX ==> hex_number(hex_text(n)) == Some(n as u64),
    decreases n,
{
    let t = hex_text(n);
    if n < 16 {
        assert(t.drop_last() =~= Seq::<u8>::empty());
        assert(digits_value(t.drop_last()) == 0);
        assert(digit_value(digit_char(n)) == Some(n as u8));
    } else {
        let head = hex_text(n / 16);
        lemma_hex_round_trip(n / 16);
        let d = n % 16;
        assert(digit_value(digit_char(d)) == Some(d as u8));
        assert(t.drop_last() =~= head);
        assert(t.last() == digit_char(d));
        assert forall|i: int| 0 <= i < t.len() implies (#[trigger] digit_value(t[i])) is Some by {
            if i < head.len() {
                assert(t[i] == head[i]);
            }
        }
        assert(digits_value(t) == (n / 16) * 16 + d);
    }
}

/// The value of the hexadecimal digit `b`, if it is one.
pub fn digit_of(b: u8) -> (r: Option<u8>)
    ensures
        r == digit_value(b),
{
    if b >= 0x30 && b <= 0x39 {
        Some(b - 0x30)
    } else if b >= 0x61 && b <= 0x66 {
        Some(b - 0x61 + 10)
    } else if b >= 0x41 && b <= 0x46 {
        Some(b - 0x41 + 10)
    } else {
        None
    }
}

/// Reads a field of hexadecimal digits as an unsigned 64-bit number.
pub fn parse_hex(s: &[u8]) -> (r: Option<u64>)
    ensures
        r == hex_number(s@),
{
    let n: usize = s.len();
    if n == 0 {
        return None;
    }
    let mut acc: u64 = 0;
    let mut overflowed: bool = false;
    let mut i: usize = 0;
    while i < n
        invariant
            n == s@.len(),
            i <= n,
            all_digits(s@.take(i as int)),
            overflowed ==> digits_value(s@.take(i as int)) > u64::MAX,
            !overflowed ==> acc == digits_value(s@.take(i as int)),
        decreases n - i,
    {
        let ghost before = s@.take(i as int);
        let ghost after = s@.take(i + 1);
        proof {
            assert(after.drop_last() =~= before);
            assert(after.last() == s@[i as int]);
        }
        match digit_of(s[i]) {
            None => {
                proof {
                    assert(digit_value(s@[i as int]) is None);
                }
                return None;
            },
            Some(d) => {
                if !overflowed {
                    if acc > (u64::MAX - (d as u64)) / 16 {
                        overflowed = true;
                    } else {
                        acc = acc * 16 + (d as u64);
                    }
                }
                proof {
                    assert forall|j: int| 0 <= j < after.len() implies (#[trigger] digit_value(
                        after[j],
                    )) is Some by {
                        if j < i {
                            assert(after[j] == before[j]);
                        }
                    }
                }
            },
        }
        i = i + 1;
    }
    proof {
        assert(s@.take(n as int) =~= s@);
    }
    if overflowed {
        None
    } else {
        Some(acc)
    }
}

/// Writes `n` as lowercase hexadecimal text without leading zeros.
pub fn format_hex(n: u64) -> (out: Vec<u8>)
    ensures
        out@ == hex_text(n as nat),
{
    let mut out: Vec<u8> = Vec::new();
    push_hex(&mut out, n);
    out
}

/// Appends the hexadecimal text of `n` to `out`.
pub fn push_hex(out: &mut Vec<u8>, n: u64)
    ensures
        final(out)@ == old(out)@ + hex_text(n as nat),
    decreases n,
{
    if n >= 16 {
        push_hex(out, n / 16);
    }
    let d: u8 = (n % 16) as u8;
    let c: u8 = if d < 10 {
        0x30 + d
    } else {
        0x61 + (d - 10)
    };
    out.push(c);
    proof {
        let prior = old(out)@;
        if n >= 16 {
            assert(prior + hex_text((n / 16) as nat).push(c) =~= (prior + hex_text(
                (n / 16) as nat,
            )).push(c));
        } else {
            assert(prior + seq![c] =~= prior.push(c));
        }
    }
}

} // verus!
