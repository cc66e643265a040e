use echolot::modulation::modulate;
use echolot::packets::encode_packet;
use echolot::quantise::{is_within_tolerance_to, quantise_to_codec};
use echolot::MOD_STEP_SIZE;
use rand::{RngExt, SeedableRng};

#[test]
fn test_quantisation() {
    let mut rng = rand::rngs::StdRng::seed_from_u64(42);

    let serialized = bincode::serialize(&("foo.txt".to_string(), 1711u64)).unwrap();
    let expected_freqs: Vec<u32> = modulate(encode_packet(&serialized).unwrap())
        .iter()
        .map(|f| f.freq)
        .collect();

    let max_distortion = MOD_STEP_SIZE as f32 / 3.0;

    let distorted_freqs: Vec<f32> = expected_freqs
        .iter()
        .map(|&f| f as f32 + rng.random_range(-max_distortion..max_distortion))
        .collect::<Vec<f32>>();

    let quantised_freqs = distorted_freqs
        .iter()
        .map(|&f| quantise_to_codec(f.round() as u32))
        .collect::<Vec<u32>>();

    assert_eq!(quantised_freqs, expected_freqs);
}

#[test]
fn quantise_edges() {
    assert_eq!(quantise_to_codec(0), 1024);
    assert_eq!(quantise_to_codec(1024), 1024);
    assert_eq!(quantise_to_codec(1151), 1024);
    assert_eq!(quantise_to_codec(1152), 1280);
    assert_eq!(quantise_to_codec(4864), 4864);
    assert_eq!(quantise_to_codec(8192), 4864);
    assert_eq!(quantise_to_codec(u32::MAX), 4864);
}

#[test]
fn tolerance() {
    assert!(is_within_tolerance_to(8212, 8192, 20));
    assert!(is_within_tolerance_to(8172, 8192, 20));
    assert!(!is_within_tolerance_to(8213, 8192, 20));
    assert!(!is_within_tolerance_to(8171, 8192, 20));
}
