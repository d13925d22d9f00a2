//! RGB colors whose three channels are stored as IEEE 754 double-precision
//! bit patterns, together with the exact conversion of a channel to the
//! 8-bit level that the PPM encoder emits: scale by 255, round to the
//! nearest integer (ties away from zero), saturate into [0, 255].
//!
//! Keeping the raw bit patterns makes the raster and the encoder exact
//! integer logic: a channel value of `m / 2^s` scaled by 255 and rounded is
//! `(255·m + 2^(s-1)) / 2^s` in integer arithmetic, with no floating-point
//! operation anywhere.

use vstd::arithmetic::div_mod::lemma_basic_div;
use vstd::arithmetic::div_mod::lemma_multiply_divide_lt;
use vstd::arithmetic::power2::lemma2_to64;
use vstd::arithmetic::power2::lemma2_to64_rest;
use vstd::arithmetic::power2::lemma_pow2_pos;
use vstd::arithmetic::power2::lemma_pow2_strictly_increases;
use vstd::arithmetic::power2::lemma_pow2_unfold;
use vstd::arithmetic::power2::pow2;
use vstd::prelude::*;

verus! {

/// A color with red, green and blue channels.  Each channel holds the bit
/// pattern of an IEEE 754 double-precision value; the channel for black is
/// all zero bits, the pattern of +0.0.  Channels are unconstrained: callers
/// may store patterns of values below zero or above one, and only the
/// encoder saturates them.
#[derive(Clone, Copy, Debug, PartialEq, Eq, Structural)]
pub struct Color {
    pub red: u64,
    pub green: u64,
    pub blue: u64,
}

/// Black: every channel is +0.0, whose bit pattern is all zero bits.
pub open spec fn black() -> Color {
    Color { red: 0u64, green: 0u64, blue: 0u64 }
}

/// The sign bit of a double-precision bit pattern: 1 for negative values.
pub open spec fn sign_bit(b: u64) -> u64 {
    b / 0x8000_0000_0000_0000
}

/// The 11 exponent bits of a double-precision bit pattern.
pub open spec fn exp_bits(b: u64) -> u64 {
    (b / 0x10_0000_0000_0000) % 0x800
}

/// The 52 fraction bits of a double-precision bit pattern.
pub open spec fn frac_bits(b: u64) -> u64 {
    b % 0x10_0000_0000_0000
}

/// The integer significand `m`: the encoded value is `±m · 2^(e' - 1075)`,
/// where `e'` is the exponent field for normal values and 1 for subnormals.
pub open spec fn significand(b: u64) -> nat {
    if exp_bits(b) == 0 {
        frac_bits(b) as nat
    } else {
        (frac_bits(b) + 0x10_0000_0000_0000) as nat
    }
}

/// For a finite value below one, the binary scale `s` such that the encoded
/// value is `significand(b) / 2^s`.  The exponent field is at most 1022
/// here, so `s` is at least 53.
pub open spec fn scale_down(b: u64) -> nat {
    (1075 - (if exp_bits(b) == 0 { 1int } else { exp_bits(b) as int })) as nat
}

/// `m / 2^shift` scaled by 255 and rounded to the nearest integer, ties
/// rounding up: `(255·m + 2^(shift-1)) / 2^shift` exactly.
pub open spec fn round_scaled(m: nat, shift: nat) -> int
    recommends
        1 <= shift,
{
    ((m * 255 + pow2((shift - 1) as nat)) / pow2(shift)) as int
}

/// The 8-bit PPM level of a channel given by its bit pattern: the channel's
/// value scaled by 255, rounded to the nearest integer (ties away from
/// zero), and saturated into [0, 255].  NaN and every negative value
/// saturate to 0; values at or above one, and positive infinity, to 255.
pub open spec fn channel_level(b: u64) -> int {
    if exp_bits(b) == 0x7ff {
        if sign_bit(b) == 0 && frac_bits(b) == 0 {
            255
        } else {
            0
        }
    } else if sign_bit(b) == 1 {
        0
    } else if exp_bits(b) >= 1023 {
        255
    } else {
        round_scaled(significand(b), scale_down(b))
    }
}

/// `2^k` as a machine word.
fn pow2_u64(k: u64) -> (r: u64)
    requires
        k <= 61,
    ensures
        r as nat == pow2(k as nat),
        r >= 1,
{
    proof {
        lemma2_to64();
    }
    let mut i: u64 = 0;
    let mut r: u64 = 1;
    while i < k
        invariant
            i <= k,
            k <= 61,
            r as nat == pow2(i as nat),
        decreases k - i,
    {
        proof {
            lemma_pow2_unfold((i + 1) as nat);
            if (i as nat) < 61 {
                lemma_pow2_strictly_increases(i as nat, 61);
            }
            lemma2_to64_rest();
        }
        r = r * 2;
        i = i + 1;
    }
    proof {
        lemma_pow2_pos(k as nat);
    }
    r
}

/// Convert one channel to its PPM level by exact integer decoding of the
/// bit pattern.
pub fn channel_to_level(b: u64) -> (level: u8)
    ensures
        level as int == channel_level(b),
{
    let sign: u64 = b / 0x8000_0000_0000_0000;
    let e: u64 = (b / 0x10_0000_0000_0000) % 0x800;
    let f: u64 = b % 0x10_0000_0000_0000;
    if e == 0x7ff {
        if sign == 0 && f == 0 {
            255
        } else {
            0
        }
    } else if sign == 1 {
        0
    } else if e >= 1023 {
        255
    } else {
        let ep: u64 = if e == 0 { 1 } else { e };
        let shift: u64 = 1075 - ep;
        let m: u64 = if e == 0 { f } else { f + 0x10_0000_0000_0000 };
        assert(m == significand(b));
        assert(shift as nat == scale_down(b));
        assert(m < 0x20_0000_0000_0000);
        if shift >= 62 {
            proof {
                lemma2_to64_rest();
                if shift > 62 {
                    lemma_pow2_strictly_increases(61, (shift - 1) as nat);
                }
                lemma_pow2_unfold(shift as nat);
                lemma_pow2_pos((shift - 1) as nat);
                assert(m * 255 + pow2((shift - 1) as nat) < pow2(shift as nat));
                lemma_basic_div(
                    (m * 255 + pow2((shift - 1) as nat)) as int,
                    pow2(shift as nat) as int,
                );
            }
            0
        } else {
            let half: u64 = pow2_u64(shift - 1);
            let p: u64 = pow2_u64(shift);
            proof {
                lemma2_to64_rest();
                lemma_pow2_strictly_increases((shift - 1) as nat, 61);
            }
            let num: u64 = m * 255 + half;
            proof {
                lemma2_to64_rest();
                if shift > 53 {
                    lemma_pow2_strictly_increases(53, shift as nat);
                }
                assert(m < p);
                assert(2 * half == p) by {
                    lemma_pow2_unfold(shift as nat);
                }
                assert(num < 256 * p);
                lemma_multiply_divide_lt(num as int, p as int, 256);
            }
            let q: u64 = num / p;
            assert(q < 256);
            q as u8
        }
    }
}

/// Channel levels always lie in [0, 255]: the conversion saturates and can
/// never wrap an out-of-range channel around.
pub proof fn lemma_channel_level_bounds(b: u64)
    ensures
        0 <= channel_level(b) <= 255,
{
    if exp_bits(b) != 0x7ff && sign_bit(b) != 1 && exp_bits(b) < 1023 {
        let m = significand(b);
        let shift = scale_down(b);
        lemma2_to64_rest();
        if shift > 53 {
            lemma_pow2_strictly_increases(53, shift);
        }
        assert(m < pow2(shift));
        assert(2 * pow2((shift - 1) as nat) == pow2(shift)) by {
            lemma_pow2_unfold(shift);
        }
        let num = m * 255 + pow2((shift - 1) as nat);
        assert(num < 256 * pow2(shift));
        lemma_pow2_pos(shift);
        lemma_multiply_divide_lt(num as int, pow2(shift) as int, 256);
    }
}

impl Color {
    /// A color from three channel bit patterns.
    pub fn new(red: u64, green: u64, blue: u64) -> (c: Color)
        ensures
            c == (Color { red, green, blue }),
    {
        Color { red, green, blue }
    }

    /// Black: every channel is +0.0, whose bit pattern is all zero bits.
    pub fn black() -> (c: Color)
        ensures
            c == black(),
    {
        Color { red: 0, green: 0, blue: 0 }
    }

    /// The bit pattern of the red channel.
    pub fn red(&self) -> (r: u64)
        ensures
            r == self.red,
    {
        self.red
    }

    /// The bit pattern of the green channel.
    pub fn green(&self) -> (r: u64)
        ensures
            r == self.green,
    {
        self.green
    }

    /// The bit pattern of the blue channel.
    pub fn blue(&self) -> (r: u64)
        ensures
            r == self.blue,
    {
        self.blue
    }

    /// The three 8-bit PPM levels of this color, in red, green, blue order.
    pub fn to_u8(&self) -> (levels: (u8, u8, u8))
        ensures
            levels.0 as int == channel_level(self.red),
            levels.1 as int == channel_level(self.green),
            levels.2 as int == channel_level(self.blue),
    {
        (
            channel_to_level(self.red),
            channel_to_level(self.green),
            channel_to_level(self.blue),
        )
    }
}

} // verus!
