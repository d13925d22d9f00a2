//! Decimal rendering of unsigned integers, the textual atom of the PPM
//! encoder: every number in a PPM file is a run of ASCII digits.

use vstd::prelude::*;

verus! {

/// The decimal digits of `n`, most significant first, as ASCII bytes.
/// A single `0` digit for zero; no leading zeros otherwise.
pub open spec fn dec_bytes(n: nat) -> Seq<u8>
    decreases n,
{
    if n < 10 {
        seq![(48 + n) as u8]
    } else {
        dec_bytes(n / 10).push((48 + n % 10) as u8)
    }
}

/// Powers of ten, for bounding the length of a decimal rendering.
pub open spec fn pow10(k: nat) -> nat
    decreases k,
{
    if k == 0 {
        1
    } else {
        10 * pow10((k - 1) as nat)
    }
}

/// The powers of ten that bound a channel level and a canvas dimension.
pub proof fn lemma_pow10_values()
    ensures
        pow10(3) == 1000,
        pow10(10) == 10_000_000_000,
{
    assert(pow10(0) == 1);
    assert(pow10(1) == 10);
    assert(pow10(2) == 100);
    assert(pow10(3) == 1000);
    assert(pow10(4) == 10_000);
    assert(pow10(5) == 100_000);
    assert(pow10(6) == 1_000_000);
    assert(pow10(7) == 10_000_000);
    assert(pow10(8) == 100_000_000);
    assert(pow10(9) == 1_000_000_000);
    assert(pow10(10) == 10_000_000_000);
}

/// A decimal rendering consists of ASCII digits only.
pub proof fn lemma_dec_bytes_digits(n: nat)
    ensures
        forall|i: int| 0 <= i < dec_bytes(n).len() ==> 48 <= #[trigger] dec_bytes(n)[i] <= 57,
    decreases n,
{
    if n >= 10 {
        lemma_dec_bytes_digits(n / 10);
        let s = dec_bytes(n / 10);
        assert forall|i: int| 0 <= i < dec_bytes(n).len() implies
            48 <= #[trigger] dec_bytes(n)[i] <= 57 by {
            if i < s.len() {
                assert(dec_bytes(n)[i] == s[i]);
            } else {
                assert(dec_bytes(n)[i] == (48 + n % 10) as u8);
            }
        }
    }
}

/// Numbers below `pow10(k)` need at most `k` digits.
pub proof fn lemma_dec_bytes_len(n: nat, k: nat)
    requires
        1 <= k,
        n < pow10(k),
    ensures
        1 <= dec_bytes(n).len() <= k,
    decreases n,
{
    if n >= 10 {
        assert(pow10(k) == 10 * pow10((k - 1) as nat));
        lemma_dec_bytes_len(n / 10, (k - 1) as nat);
    }
}

/// Append the decimal rendering of `n` to `out`.
pub fn push_dec_u32(n: u32, out: &mut Vec<u8>)
    ensures
        final(out)@ == old(out)@ + dec_bytes(n as nat),
    decreases n,
{
    if n < 10 {
        out.push(48 + n as u8);
    } else {
        push_dec_u32(n / 10, out);
        out.push(48 + (n % 10) as u8);
    }
    assert(out@ =~= old(out)@ + dec_bytes(n as nat));
}

} // verus!
