//! 16-MFSK: every byte becomes two tones, one per nibble, high nibble first.
use vstd::prelude::*;

use crate::frequency::Frequency;
use crate::{MOD_OFFSET, MOD_STEP_SIZE, SYMBOL_DURATION_MS};

verus! {

/// The high nibble of a byte.
pub open spec fn high_nibble(b: u8) -> u8 {
    (b >> 4u8) & 0x0Fu8
}

/// The low nibble of a byte.
pub open spec fn low_nibble(b: u8) -> u8 {
    b & 0x0Fu8
}

/// The tone, in Hz, that carries symbol `n`.
pub open spec fn symbol_freq(n: u8) -> u32 {
    (n * MOD_STEP_SIZE + MOD_OFFSET) as u32
}

/// The symbol that a tone of `f` Hz is read as: `(f - MOD_OFFSET) / MOD_STEP_SIZE`,
/// rounded toward zero and saturated to the range of a byte.
pub open spec fn symbol_of(f: u32) -> u8 {
    if f < MOD_OFFSET {
        0
    } else if (f - MOD_OFFSET) / (MOD_STEP_SIZE as int) > 255 {
        255
    } else {
        ((f - MOD_OFFSET) / (MOD_STEP_SIZE as int)) as u8
    }
}

/// The byte whose high nibble is the low nibble of `high` and whose low
/// nibble is the low nibble of `low`.
pub open spec fn join_nibbles(high: u8, low: u8) -> u8 {
    (((high & 0x0Fu8) as u32 * 16 + (low & 0x0Fu8) as u32)) as u8
}

/// The tones that carry `data`: two per byte, high nibble first, each one
/// symbol long.
pub open spec fn modulated(data: Seq<u8>) -> Seq<Frequency> {
    Seq::new(
        2 * data.len(),
        |k: int|
            Frequency {
                freq: symbol_freq(
                    if k % 2 == 0 {
                        high_nibble(data[k / 2])
                    } else {
                        low_nibble(data[k / 2])
                    },
                ),
                len: SYMBOL_DURATION_MS,
            },
    )
}

/// The bytes that a sequence of tones of even length carries.
pub open spec fn demodulated(freqs: Seq<Frequency>) -> Seq<u8> {
    Seq::new(
        freqs.len() / 2,
        |i: int| join_nibbles(symbol_of(freqs[2 * i].freq), symbol_of(freqs[2 * i + 1].freq)),
    )
}

/// Splits a byte into its high and its low nibble.
pub fn split_byte(value: u8) -> (r: [u8; 2])
    ensures
        r[0] == high_nibble(value),
        r[1] == low_nibble(value),
        r[0] < 16,
        r[1] < 16,
{
    let high: u8 = (value >> 4u8) & 0x0Fu8;
    let low: u8 = value & 0x0Fu8;
    assert(high < 16 && low < 16) by (bit_vector)
        requires
            high == (value >> 4u8) & 0x0Fu8,
            low == value & 0x0Fu8,
    ;
    [high, low]
}

/// Joins two nibbles into a byte; only the low four bits of each argument count.
pub fn create_byte(high: u8, low: u8) -> (r: u8)
    ensures
        r == join_nibbles(high, low),
{
    let r: u8 = ((high & 0x0Fu8) << 4u8) | (low & 0x0Fu8);
    assert(r == join_nibbles(high, low)) by (bit_vector)
        requires
            r == ((high & 0x0Fu8) << 4u8) | (low & 0x0Fu8),
    ;
    r
}

/// The symbol carried by a tone of `f` Hz.
fn demodulate_symbol(f: u32) -> (r: u8)
    ensures
        r == symbol_of(f),
{
    if f < MOD_OFFSET {
        0
    } else {
        let q: u32 = (f - MOD_OFFSET) / MOD_STEP_SIZE;
        if q > 255 {
            255
        } else {
            q as u8
        }
    }
}

/// 16-MFSK modulation: each byte becomes two tones, high nibble first; nibble
/// `n` is sent at `n * MOD_STEP_SIZE + MOD_OFFSET` Hz.
pub fn modulate(data: Vec<u8>) -> (r: Vec<Frequency>)
    requires
        2 * data.len() <= usize::MAX,
    ensures
        r@ == modulated(data@),
{
    let mut out: Vec<Frequency> = Vec::new();
    let mut i: usize = 0;
    while i < data.len()
        invariant
            i <= data.len(),
            2 * data.len() <= usize::MAX,
            out@.len() == 2 * i,
            forall|k: int| 0 <= k < 2 * i ==> #[trigger] out@[k] == modulated(data@)[k],
        decreases data.len() - i,
    {
        let nibbles = split_byte(data[i]);
        let hi = Frequency::new(nibbles[0] as u32 * MOD_STEP_SIZE + MOD_OFFSET);
        let lo = Frequency::new(nibbles[1] as u32 * MOD_STEP_SIZE + MOD_OFFSET);
        out.push(hi);
        out.push(lo);
        proof {
            assert((2 * i) / 2 == i as int);
            assert((2 * i + 1) / 2 == i as int);
            assert((2 * i + 1) % 2 == 1);
        }
        i = i + 1;
    }
    assert(out@ =~= modulated(data@));
    out
}

/// 16-MFSK demodulation: every two tones become one byte, the first tone
/// carrying the high nibble. A sequence of odd length carries no bytes and
/// gives `None`.
pub fn demodulate(freqs: Vec<Frequency>) -> (r: Option<Vec<u8>>)
    ensures
        freqs.len() % 2 != 0 ==> r is None,
        freqs.len() % 2 == 0 ==> (r matches Some(bytes) && bytes@ == demodulated(freqs@)),
{
    if freqs.len() % 2 != 0 {
        return None;
    }
    let mut out: Vec<u8> = Vec::new();
    let mut i: usize = 0;
    let n: usize = freqs.len() / 2;
    while i < n
        invariant
            n == freqs.len() / 2,
            freqs.len() % 2 == 0,
            i <= n,
            out@.len() == i,
            forall|k: int| 0 <= k < i ==> #[trigger] out@[k] == demodulated(freqs@)[k],
        decreases n - i,
    {
        let high = demodulate_symbol(freqs[2 * i].freq);
        let low = demodulate_symbol(freqs[2 * i + 1].freq);
        out.push(create_byte(high, low));
        i = i + 1;
    }
    assert(out@ =~= demodulated(freqs@));
    Some(out)
}

/// Joining the two nibbles of a byte gives the byte back.
pub proof fn lemma_join_split(b: u8)
    ensures
        join_nibbles(high_nibble(b), low_nibble(b)) == b,
        high_nibble(b) < 16,
        low_nibble(b) < 16,
{
    assert(((((b >> 4u8) & 0x0Fu8) & 0x0Fu8) as u32 * 16 + ((b & 0x0Fu8) & 0x0Fu8) as u32) as u8
        == b) by (bit_vector);
    assert(((b >> 4u8) & 0x0Fu8) < 16 && (b & 0x0Fu8) < 16) by (bit_vector);
}

/// Every symbol below 16 is read back from its own tone.
pub proof fn lemma_symbol_roundtrip(n: u8)
    requires
        n < 16,
    ensures
        symbol_of(symbol_freq(n)) == n,
{
    assert(symbol_freq(n) == n * 256 + 1024);
    assert((n * 256 + 1024 - 1024) / 256 == n as int) by (nonlinear_arith)
        requires
            n < 16,
    ;
}

/// Demodulating the tones of some bytes gives those bytes back.
pub proof fn lemma_demodulate_modulate(data: Seq<u8>)
    ensures
        modulated(data).len() % 2 == 0,
        demodulated(modulated(data)) == data,
{
    let m = modulated(data);
    assert forall|i: int| 0 <= i < data.len() implies #[trigger] demodulated(m)[i] == data[i] by {
        assert((2 * i) / 2 == i && (2 * i) % 2 == 0);
        assert((2 * i + 1) / 2 == i && (2 * i + 1) % 2 == 1);
        lemma_join_split(data[i]);
        lemma_symbol_roundtrip(high_nibble(data[i]));
        lemma_symbol_roundtrip(low_nibble(data[i]));
    }
    assert(demodulated(m) =~= data);
}

} // verus!
