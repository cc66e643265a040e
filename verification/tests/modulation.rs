use echolot::frequency::Frequency;
use echolot::modulation::{create_byte, demodulate, modulate, split_byte};

#[test]
fn modulate_bytes() {
    let freqs = modulate(vec![0x00, 0xA5, 0xFF]);
    let hz: Vec<u32> = freqs.iter().map(|f| f.freq).collect();
    assert_eq!(hz, vec![1024, 1024, 3584, 2304, 4864, 4864]);
    assert!(freqs.iter().all(|f| f.len == 120));
}

#[test]
fn demodulate_tones() {
    let freqs: Vec<Frequency> = [3584u32, 2304, 1024, 4864].iter().map(|&f| Frequency::new(f)).collect();
    assert_eq!(demodulate(freqs), Some(vec![0xA5, 0x0F]));
    let odd: Vec<Frequency> = vec![Frequency::new(1024)];
    assert_eq!(demodulate(odd), None);
    // below the lowest tone reads as nibble 0; high tones keep their low nibble
    let rough: Vec<Frequency> = vec![Frequency::new(500), Frequency::new(1024 + 17 * 256)];
    assert_eq!(demodulate(rough), Some(vec![0x01]));
}

#[test]
fn modulation_roundtrip() {
    let data: Vec<u8> = (0..=255).collect();
    assert_eq!(demodulate(modulate(data.clone())), Some(data));
}

#[test]
fn nibbles() {
    assert_eq!(split_byte(0xC3), [0x0C, 0x03]);
    assert_eq!(create_byte(0x0C, 0x03), 0xC3);
    assert_eq!(create_byte(0xFC, 0xF3), 0xC3);
}

#[test]
fn frequency_equality_ignores_duration() {
    assert_eq!(Frequency::new(3100), Frequency::new_with_len(3100, 500));
    assert_ne!(Frequency::new(3100), Frequency::new(4100));
    assert_eq!(Frequency::new(3100).len, 120);
}
