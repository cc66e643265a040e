use echolot::audio::half_symbol_samples;
use echolot::quantise::quantise_to_codec;

#[test]
fn test_fft_freq() {
    // every tone of the code is recognised as itself once detected
    for n in 0..16u32 {
        let f = n * 256 + 1024;
        assert_eq!(quantise_to_codec(f), f);
    }
    // half a symbol of 120 ms is 60 ms of samples
    assert_eq!(half_symbol_samples(48_000), 2880);
    assert_eq!(half_symbol_samples(44_100), 2646);
    assert_eq!(half_symbol_samples(25), 2);
    assert_eq!(half_symbol_samples(1), 1);
    assert_eq!(half_symbol_samples(0), 1);
}
