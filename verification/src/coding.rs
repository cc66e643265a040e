//! The base64 alphabet numbered from 1, and tones for it.
//!
//! Characters of the standard base64 alphabet with padding (`A`-`Z`,
//! `a`-`z`, `0`-`9`, `+`, `/`, `=`) are numbered 1 to 65 in that order, and
//! each number has its own tone.
use vstd::prelude::*;

verus! {

/// `c` belongs to the base64 alphabet with padding.
pub open spec fn is_base64_char(c: char) -> bool {
    let u = c as u32;
    ||| 65 <= u <= 90
    ||| 97 <= u <= 122
    ||| 48 <= u <= 57
    ||| u == 43
    ||| u == 47
    ||| u == 61
}

/// The number of a base64 character: `A`-`Z` are 1-26, `a`-`z` 27-52,
/// `0`-`9` 53-62, `+` 63, `/` 64, `=` 65.
pub open spec fn base64_number(c: char) -> u8 {
    let u = c as u32;
    if 65 <= u <= 90 {
        (u - 65 + 1) as u8
    } else if 97 <= u <= 122 {
        (u - 97 + 27) as u8
    } else if 48 <= u <= 57 {
        (u - 48 + 53) as u8
    } else if u == 43 {
        63
    } else if u == 47 {
        64
    } else {
        65
    }
}

/// The base64 character with number `n`, for `n` in `1..=65`.
pub open spec fn base64_char_of(n: u8) -> char {
    if 1 <= n <= 26 {
        (65 + n - 1) as char
    } else if 27 <= n <= 52 {
        (97 + n - 27) as char
    } else if 53 <= n <= 62 {
        (48 + n - 53) as char
    } else if n == 63 {
        '+'
    } else if n == 64 {
        '/'
    } else {
        '='
    }
}

/// The number of a base64 character.
pub fn base64_char_to_base64_value(c: char) -> (r: u8)
    requires
        is_base64_char(c),
    ensures
        r == base64_number(c),
        1 <= r <= 65,
{
    match c {
        'A' => 1,
        'B' => 2,
        'C' => 3,
        'D' => 4,
        'E' => 5,
        'F' => 6,
        'G' => 7,
        'H' => 8,
        'I' => 9,
        'J' => 10,
        'K' => 11,
        'L' => 12,
        'M' => 13,
        'N' => 14,
        'O' => 15,
        'P' => 16,
        'Q' => 17,
        'R' => 18,
        'S' => 19,
        'T' => 20,
        'U' => 21,
        'V' => 22,
        'W' => 23,
        'X' => 24,
        'Y' => 25,
        'Z' => 26,
        'a' => 27,
        'b' => 28,
        'c' => 29,
        'd' => 30,
        'e' => 31,
        'f' => 32,
        'g' => 33,
        'h' => 34,
        'i' => 35,
        'j' => 36,
        'k' => 37,
        'l' => 38,
        'm' => 39,
        'n' => 40,
        'o' => 41,
        'p' => 42,
        'q' => 43,
        'r' => 44,
        's' => 45,
        't' => 46,
        'u' => 47,
        'v' => 48,
        'w' => 49,
        'x' => 50,
        'y' => 51,
        'z' => 52,
        '0' => 53,
        '1' => 54,
        '2' => 55,
        '3' => 56,
        '4' => 57,
        '5' => 58,
        '6' => 59,
        '7' => 60,
        '8' => 61,
        '9' => 62,
        '+' => 63,
        '/' => 64,
        '=' => 65,
        _ => {
            assert(false);
            0
        },
    }
}

/// The base64 character with number `n`.
pub fn base64_value_to_base64_char(n: u8) -> (r: char)
    requires
        1 <= n <= 65,
    ensures
        r == base64_char_of(n),
        is_base64_char(r),
{
    match n {
        1 => 'A',
        2 => 'B',
        3 => 'C',
        4 => 'D',
        5 => 'E',
        6 => 'F',
        7 => 'G',
        8 => 'H',
        9 => 'I',
        10 => 'J',
        11 => 'K',
        12 => 'L',
        13 => 'M',
        14 => 'N',
        15 => 'O',
        16 => 'P',
        17 => 'Q',
        18 => 'R',
        19 => 'S',
        20 => 'T',
        21 => 'U',
        22 => 'V',
        23 => 'W',
        24 => 'X',
        25 => 'Y',
        26 => 'Z',
        27 => 'a',
        28 => 'b',
        29 => 'c',
        30 => 'd',
        31 => 'e',
        32 => 'f',
        33 => 'g',
        34 => 'h',
        35 => 'i',
        36 => 'j',
        37 => 'k',
        38 => 'l',
        39 => 'm',
        40 => 'n',
        41 => 'o',
        42 => 'p',
        43 => 'q',
        44 => 'r',
        45 => 's',
        46 => 't',
        47 => 'u',
        48 => 'v',
        49 => 'w',
        50 => 'x',
        51 => 'y',
        52 => 'z',
        53 => '0',
        54 => '1',
        55 => '2',
        56 => '3',
        57 => '4',
        58 => '5',
        59 => '6',
        60 => '7',
        61 => '8',
        62 => '9',
        63 => '+',
        64 => '/',
        65 => '=',
        _ => {
            assert(false);
            'A'
        },
    }
}

/// The number of a base64 character, as the receiver reads it.
pub fn base64_to_value(c: char) -> (r: u8)
    requires
        is_base64_char(c),
    ensures
        r == base64_number(c),
        1 <= r <= 65,
{
    base64_char_to_base64_value(c)
}

/// The base64 text (standard alphabet, with padding) of `data`, as
/// `base64::encode` writes it.
pub uninterp spec fn base64_text(data: Seq<u8>) -> Seq<char>;

/// `base64::encode`, with the characters of the text it returns in order.
/// The crate encodes with its `STANDARD` configuration: the characters
/// `A`-`Z`, `a`-`z`, `0`-`9`, `+`, `/`, and `=` for padding.
#[verifier::external_body]
fn base64_encode(data: &[u8]) -> (r: Vec<char>)
    ensures
        r@ == base64_text(data@),
        forall|i: int| 0 <= i < r@.len() ==> is_base64_char(#[trigger] r@[i]),
{
    base64::encode(data).chars().collect()
}

/// The tone, in Hz, that carries base64 character `c`.
pub open spec fn base64_tone(c: char) -> u32 {
    (440 + (base64_number(c) + 5) * 10) as u32
}

/// The base64 number that a tone of `freq` Hz carries, before it is
/// checked against the alphabet.
pub open spec fn tone_number(freq: u32) -> u8 {
    ((freq - 440) / 10 - 5) as u8
}

/// The tone that carries base64 character `c`.
pub fn base64_to_freq(c: char) -> (r: u32)
    requires
        is_base64_char(c),
    ensures
        r == base64_tone(c),
{
    let v: u32 = base64_char_to_base64_value(c) as u32;
    440 + (v + 5) * 10
}

/// The base64 character that a tone of `freq` Hz carries.
pub fn freq_to_base64(freq: u32) -> (r: char)
    requires
        freq >= 440,
        (freq - 440) / 10 >= 5,
        1 <= tone_number(freq) <= 65,
    ensures
        r == base64_char_of(tone_number(freq)),
{
    base64_value_to_base64_char(((freq - 440) / 10 - 5) as u8)
}

/// The tone, in Hz, of base64 number `n` on the receiving side: 440 Hz for
/// number 1, then 20 Hz apart.
pub fn base64_value_to_frequency(n: u8) -> (r: u32)
    requires
        n >= 1,
    ensures
        r == 440 + (n - 1) * 20,
{
    440 + (n as u32 - 1) * 20
}

/// Frequencies are taken as they are heard.
pub fn quantize(freq: u32) -> (r: u32)
    ensures
        r == freq,
{
    freq
}

/// The tones that carry `contents`: its base64 text, one tone per character.
pub fn encode(contents: &[u8]) -> (r: Vec<u32>)
    ensures
        r@ == base64_text(contents@).map_values(|c: char| base64_tone(c)),
{
    let text = base64_encode(contents);
    let mut out: Vec<u32> = Vec::new();
    let mut i: usize = 0;
    while i < text.len()
        invariant
            i <= text.len(),
            forall|k: int| 0 <= k < text@.len() ==> is_base64_char(#[trigger] text@[k]),
            out@ == text@.take(i as int).map_values(|c: char| base64_tone(c)),
        decreases text.len() - i,
    {
        out.push(base64_to_freq(text[i]));
        i = i + 1;
        assert(text@.take(i as int) =~= text@.take((i - 1) as int).push(text@[i - 1]));
        assert(out@ =~= text@.take(i as int).map_values(|c: char| base64_tone(c)));
    }
    assert(text@.take(i as int) =~= text@);
    out
}

/// Reading the tone of a base64 character gives the character back.
pub proof fn lemma_tone_roundtrip(c: char)
    requires
        is_base64_char(c),
    ensures
        base64_tone(c) >= 440,
        (base64_tone(c) - 440) / 10 >= 5,
        tone_number(base64_tone(c)) == base64_number(c),
        base64_char_of(tone_number(base64_tone(c))) == c,
{
    lemma_char_number_roundtrip(c);
    let n = base64_number(c);
    assert((440 + (n + 5) * 10 - 440) / 10 - 5 == n as int) by (nonlinear_arith)
        requires
            1 <= n <= 65,
    ;
}

/// Numbering a base64 character and taking the character of that number
/// gives the character back.
pub proof fn lemma_char_number_roundtrip(c: char)
    requires
        is_base64_char(c),
    ensures
        1 <= base64_number(c) <= 65,
        base64_char_of(base64_number(c)) == c,
{
}

/// Taking the character of a number and numbering it gives the number back.
pub proof fn lemma_number_char_roundtrip(n: u8)
    requires
        1 <= n <= 65,
    ensures
        is_base64_char(base64_char_of(n)),
        base64_number(base64_char_of(n)) == n,
{
}

} // verus!
