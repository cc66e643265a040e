//! Sample bookkeeping for the audio devices: window sizes and channel
//! layout. The samples themselves are produced and consumed outside this
//! crate.
use vstd::prelude::*;

use crate::SYMBOL_DURATION_MS;

verus! {

/// The number of samples in a window of half a symbol at `sample_rate`
/// samples per second: `SYMBOL_DURATION_MS / 2` milliseconds of samples,
/// rounded to the nearest whole number (halves up), at least one.
pub open spec fn half_symbol_len(sample_rate: u32) -> nat {
    let n = (SYMBOL_DURATION_MS * sample_rate + 1000) / 2000;
    if n < 1 {
        1
    } else {
        n as nat
    }
}

/// A window of half a symbol holds `SYMBOL_DURATION_MS / 2` milliseconds
/// of samples, rounded to the nearest whole sample (halves up), and at
/// least one: `2000 * len` lies within 1000 of `SYMBOL_DURATION_MS *
/// sample_rate` (below by less than 1000) unless that would leave no
/// sample. So the window grows with the sample rate.
pub proof fn lemma_half_symbol_window(sample_rate: u32, faster: u32)
    ensures
        half_symbol_len(sample_rate) >= 1,
        SYMBOL_DURATION_MS * sample_rate < 2000 * half_symbol_len(sample_rate) + 1000,
        2000 * half_symbol_len(sample_rate) <= SYMBOL_DURATION_MS * sample_rate + 1000
            || half_symbol_len(sample_rate) == 1,
        SYMBOL_DURATION_MS * sample_rate >= 1000 ==> 2000 * half_symbol_len(sample_rate)
            <= SYMBOL_DURATION_MS * sample_rate + 1000,
        sample_rate <= faster ==> half_symbol_len(sample_rate) <= half_symbol_len(faster),
{
    let a = SYMBOL_DURATION_MS * sample_rate + 1000;
    let b = SYMBOL_DURATION_MS * faster + 1000;
    assert(a / 2000 * 2000 <= a && a < a / 2000 * 2000 + 2000) by (nonlinear_arith)
        requires
            a >= 0,
    ;
    if sample_rate <= faster {
        assert(a <= b) by (nonlinear_arith)
            requires
                sample_rate <= faster,
                a == 120 * sample_rate + 1000,
                b == 120 * faster + 1000,
        ;
        assert(a / 2000 <= b / 2000) by (nonlinear_arith)
            requires
                0 <= a <= b,
        ;
    }
}

/// The number of samples in a window of half a symbol: `SYMBOL_DURATION_MS
/// / 2` milliseconds of samples at `sample_rate`, rounded to the nearest
/// whole sample (halves up), at least one.
pub fn half_symbol_samples(sample_rate: u32) -> (r: usize)
    ensures
        r == half_symbol_len(sample_rate),
        r >= 1,
        SYMBOL_DURATION_MS * sample_rate < 2000 * r + 1000,
        SYMBOL_DURATION_MS * sample_rate >= 1000 ==> 2000 * r <= SYMBOL_DURATION_MS * sample_rate
            + 1000,
{
    proof {
        lemma_half_symbol_window(sample_rate, sample_rate);
    }
    let n: u64 = (SYMBOL_DURATION_MS * sample_rate as u64 + 1000) / 2000;
    if n < 1 {
        1
    } else {
        n as usize
    }
}

/// `mono` with each sample repeated once per channel (frames of
/// `channels` equal samples); `mono` itself for one channel or none.
pub open spec fn interleaved<T>(mono: Seq<T>, channels: u16) -> Seq<T> {
    let c: int = if channels <= 1 {
        1
    } else {
        channels as int
    };
    Seq::new((mono.len() * c) as nat, |k: int| mono[k / c])
}

/// Lays out a mono signal for a device with `channels` channels.
pub fn interleave_channels<T: Copy>(mono: &[T], channels: u16) -> (r: Vec<T>)
    requires
        mono@.len() * (channels as int) <= usize::MAX,
    ensures
        r@ == interleaved(mono@, channels),
{
    let c: usize = if channels <= 1 {
        1
    } else {
        channels as usize
    };
    let ghost want = interleaved(mono@, channels);
    let n: usize = mono.len();
    assert(n * c <= usize::MAX) by (nonlinear_arith)
        requires
            n * (channels as int) <= usize::MAX,
            c == (if channels <= 1 { 1 } else { channels as int }),
            n >= 0,
    ;
    let mut out: Vec<T> = Vec::new();
    let mut i: usize = 0;
    while i < n
        invariant
            n == mono@.len(),
            c >= 1,
            c == (if channels <= 1 { 1 } else { channels as int }),
            n * c <= usize::MAX,
            want == interleaved(mono@, channels),
            want.len() == n * c,
            i <= n,
            out@ == want.take(i * c),
        decreases n - i,
    {
        let sample = mono[i];
        let mut j: usize = 0;
        proof {
            lemma_frame_bounds(i as int, n as int, c as int);
        }
        while j < c
            invariant
                n == mono@.len(),
                c >= 1,
                i < n,
                (i + 1) * c <= n * c,
                want == interleaved(mono@, channels),
                want.len() == n * c,
                c == (if channels <= 1 { 1 } else { channels as int }),
                sample == mono@[i as int],
                j <= c,
                out@ == want.take(i * c + j),
            decreases c - j,
        {
            proof {
                lemma_frame_index(i as int, j as int, c as int);
                assert(i * c + j < (i + 1) * c) by (nonlinear_arith)
                    requires
                        j < c,
                ;
                assert(want[i * c + j] == mono@[(i * c + j) / (c as int)]);
            }
            out.push(sample);
            j = j + 1;
            assert(out@ =~= want.take(i * c + j));
        }
        assert(i * c + c == (i + 1) * c) by (nonlinear_arith);
        i = i + 1;
    }
    assert(want.take(n * c) =~= want);
    out
}

/// Frame `i` of `n` frames of `c` samples lies within the signal.
proof fn lemma_frame_bounds(i: int, n: int, c: int)
    requires
        0 <= i < n,
        c >= 1,
    ensures
        (i + 1) * c <= n * c,
        i * c >= 0,
{
    assert((i + 1) * c <= n * c) by (nonlinear_arith)
        requires
            0 <= i < n,
            c >= 1,
    ;
    assert(i * c >= 0) by (nonlinear_arith)
        requires
            0 <= i,
            c >= 1,
    ;
}

/// Sample `j` of frame `i` copies mono sample `i`.
proof fn lemma_frame_index(i: int, j: int, c: int)
    requires
        0 <= i,
        0 <= j < c,
    ensures
        (i * c + j) / c == i,
{
    assert((i * c + j) / c == i) by (nonlinear_arith)
        requires
            0 <= i,
            0 <= j < c,
    ;
}

} // verus!
