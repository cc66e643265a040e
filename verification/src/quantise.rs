//! Snapping a heard tone to the nearest tone of the code, and tolerance
//! checks. Frequencies are whole Hz.
use vstd::prelude::*;

use crate::modulation::{symbol_freq, symbol_of};
use crate::{MOD_OFFSET, MOD_STEP_SIZE};

verus! {

/// The symbol nearest to a tone of `freq` Hz: `(freq - MOD_OFFSET) /
/// MOD_STEP_SIZE` rounded to the nearest whole number (halves away from
/// zero) and clamped to `0..=15`.
pub open spec fn nearest_symbol(freq: u32) -> u8 {
    if freq <= MOD_OFFSET {
        0
    } else if (freq - MOD_OFFSET + MOD_STEP_SIZE / 2) / (MOD_STEP_SIZE as int) > 15 {
        15
    } else {
        ((freq - MOD_OFFSET + MOD_STEP_SIZE / 2) / (MOD_STEP_SIZE as int)) as u8
    }
}

/// The tone of the code nearest to `freq`.
pub fn quantise_to_codec(freq: u32) -> (r: u32)
    ensures
        r == symbol_freq(nearest_symbol(freq)),
        nearest_symbol(freq) < 16,
{
    let symbol: u32 = if freq <= MOD_OFFSET {
        0
    } else {
        let q: u32 = (freq - MOD_OFFSET) / MOD_STEP_SIZE + if (freq - MOD_OFFSET) % MOD_STEP_SIZE
            >= MOD_STEP_SIZE / 2 {
            1
        } else {
            0
        };
        if q > 15 {
            15
        } else {
            q
        }
    };
    proof {
        if freq > MOD_OFFSET {
            let x = (freq - MOD_OFFSET) as int;
            assert((x + 128) / 256 == x / 256 + if x % 256 >= 128 {
                1int
            } else {
                0int
            }) by (nonlinear_arith)
                requires
                    x >= 0,
            ;
        }
    }
    symbol * MOD_STEP_SIZE + MOD_OFFSET
}

/// Whether `n` lies within `tolerance` of `goal`.
pub fn is_within_tolerance_to(n: u32, goal: u32, tolerance: u32) -> (r: bool)
    ensures
        r == (n - goal <= tolerance && goal - n <= tolerance),
{
    if n >= goal {
        n - goal <= tolerance
    } else {
        goal - n <= tolerance
    }
}

/// Snapping a tone of the code gives it back.
pub proof fn lemma_quantise_code_tone(k: u8)
    requires
        k < 16,
    ensures
        nearest_symbol(symbol_freq(k)) == k,
{
    assert(symbol_freq(k) == k * 256 + 1024);
    if k > 0 {
        assert((k * 256 + 128) / 256 == k as int) by (nonlinear_arith)
            requires
                k < 16,
        ;
    }
}

/// A tone of the code, shifted by less than half the distance between two
/// tones, snaps back to it.
pub proof fn lemma_quantise_recovers_distorted_tone(k: u8, distortion: int)
    requires
        k < 16,
        -128 < distortion < 128,
        symbol_freq(k) + distortion >= 0,
    ensures
        nearest_symbol((symbol_freq(k) + distortion) as u32) == k,
{
    let f = symbol_freq(k) + distortion;
    assert(symbol_freq(k) == k * 256 + 1024);
    if f > 1024 {
        assert((k * 256 + distortion + 128) / 256 == k as int) by (nonlinear_arith)
            requires
                k < 16,
                -128 < distortion < 128,
        ;
    } else {
        assert(k == 0);
    }
}

/// What snapping gives is always read back as a symbol below 16.
pub proof fn lemma_quantised_symbol(freq: u32)
    ensures
        symbol_of(symbol_freq(nearest_symbol(freq))) == nearest_symbol(freq),
        nearest_symbol(freq) < 16,
{
    crate::modulation::lemma_symbol_roundtrip(nearest_symbol(freq));
}

} // verus!
