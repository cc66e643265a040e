use echolot::coding::{
    base64_char_to_base64_value, base64_to_freq, base64_to_value, base64_value_to_base64_char,
    base64_value_to_frequency, encode, freq_to_base64, quantize,
};

const ALPHABET: &str = "ABCDEFGHIJKLMNOPQRSTUVWXYZabcdefghijklmnopqrstuvwxyz0123456789+/=";

#[test]
fn alphabet_numbering() {
    for (i, c) in ALPHABET.chars().enumerate() {
        let n = (i + 1) as u8;
        assert_eq!(base64_char_to_base64_value(c), n);
        assert_eq!(base64_to_value(c), n);
        assert_eq!(base64_value_to_base64_char(n), c);
    }
}

#[test]
fn tones_of_characters() {
    assert_eq!(base64_to_freq('A'), 500);
    assert_eq!(base64_to_freq('='), 1140);
    for c in ALPHABET.chars() {
        assert_eq!(freq_to_base64(base64_to_freq(c)), c);
    }
    assert_eq!(base64_value_to_frequency(1), 440);
    assert_eq!(base64_value_to_frequency(3), 480);
    assert_eq!(quantize(1234), 1234);
}

#[test]
fn encode_text() {
    // "hi" is "aGk=" in base64
    assert_eq!(encode(b"hi"), vec![760, 560, 860, 1140]);
    assert_eq!(encode(b""), Vec::<u32>::new());
}
