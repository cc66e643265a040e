use echolot::combinations::combinations;
use echolot::error_correction::{
    check_envelope, rs_decode_payload, rs_encode_payload, try_rs_decode_payload, DecodeError, DATA_SHARDS,
    HEADER_SIZE, PARITY_SHARDS,
};
use echolot::reed_solomon::{CodecError, ErasureCodec};
use rand::{RngExt, SeedableRng};

fn gen_test_bin() -> Vec<u8> {
    let mut rng = rand::rngs::StdRng::seed_from_u64(42);
    (0..1000).map(|_| rng.random::<u8>()).collect()
}

#[test]
fn decode_recovers_single_corrupted_shard() {
    let input = gen_test_bin();
    let mut encoded = rs_encode_payload(&input);

    encoded[8] ^= 0xAA;

    let output = rs_decode_payload(&encoded);
    assert_eq!(input, output);
}

#[test]
#[should_panic(expected = "truncated shard payload")]
fn decode_rejects_malformed_envelope() {
    let mut malformed: Vec<u8> = vec![4, 2];
    malformed.extend_from_slice(&10u32.to_le_bytes());
    malformed.extend_from_slice(&[1, 2, 3, 4, 5]);

    let _ = try_rs_decode_payload(&malformed).unwrap_or_else(|e| panic!("{}", e.message()));
}

#[test]
fn encoding_has_header_and_six_shards() {
    let payload: Vec<u8> = vec![1, 2, 3, 4, 5];
    let encoded = rs_encode_payload(&payload);
    // shards of ceil(5 / 4) = 2 bytes
    assert_eq!(encoded.len(), HEADER_SIZE + 6 * 2);
    assert_eq!(&encoded[..6], &[4, 2, 5, 0, 0, 0]);
    assert_eq!(&encoded[6..14], &[1, 2, 3, 4, 5, 0, 0, 0]);
    assert_eq!(DATA_SHARDS, 4);
    assert_eq!(PARITY_SHARDS, 2);
}

#[test]
fn roundtrip_of_short_payloads() {
    for len in 1..40usize {
        let payload: Vec<u8> = (0..len).map(|i| (i * 37 + 11) as u8).collect();
        let encoded = rs_encode_payload(&payload);
        assert_eq!(rs_decode_payload(&encoded), payload);
    }
}

#[test]
fn recovers_each_damaged_shard() {
    let payload: Vec<u8> = (0..64u32).map(|i| (i * 7 + 3) as u8).collect();
    let encoded = rs_encode_payload(&payload);
    let shard_len = 16;
    for shard in 0..6 {
        let mut damaged = encoded.clone();
        for k in 0..shard_len {
            damaged[HEADER_SIZE + shard * shard_len + k] ^= 0x5A;
        }
        assert_eq!(rs_decode_payload(&damaged), payload);
    }
}

#[test]
fn decode_errors() {
    assert_eq!(try_rs_decode_payload(&[4, 2, 1, 0, 0]), Err(DecodeError::PacketTooShort));
    assert_eq!(
        try_rs_decode_payload(&[0, 2, 1, 0, 0, 0, 1, 2]),
        Err(DecodeError::InvalidShardCounts)
    );
    assert_eq!(
        try_rs_decode_payload(&[4, 0, 1, 0, 0, 0, 1, 2]),
        Err(DecodeError::InvalidShardCounts)
    );
    assert_eq!(
        try_rs_decode_payload(&[200, 100, 1, 0, 0, 0, 1, 2]),
        Err(DecodeError::CodecInit)
    );
    assert_eq!(try_rs_decode_payload(&[4, 2, 1, 0, 0, 0]), Err(DecodeError::MissingShardPayload));
    assert_eq!(
        try_rs_decode_payload(&[4, 2, 10, 0, 0, 0, 1, 2, 3, 4, 5]),
        Err(DecodeError::TruncatedShardPayload)
    );
    // six one-byte shards that claim a payload longer than the data shards
    assert_eq!(
        try_rs_decode_payload(&[4, 2, 9, 0, 0, 0, 1, 2, 3, 4, 5, 6]),
        Err(DecodeError::Unrecoverable)
    );
}

#[test]
fn error_messages() {
    assert_eq!(
        DecodeError::TruncatedShardPayload.message(),
        "Codec failed on Packet parsing: truncated shard payload"
    );
    assert_eq!(
        DecodeError::PacketTooShort.message(),
        "Codec failed on Packet header parsing: packet too short"
    );
}

#[test]
fn combinations_in_lexicographic_order() {
    assert_eq!(combinations(4, 0), vec![Vec::<usize>::new()]);
    assert_eq!(combinations(3, 1), vec![vec![0], vec![1], vec![2]]);
    assert_eq!(
        combinations(4, 2),
        vec![vec![0, 1], vec![0, 2], vec![0, 3], vec![1, 2], vec![1, 3], vec![2, 3]]
    );
    assert_eq!(combinations(2, 3), Vec::<Vec<usize>>::new());
    assert_eq!(combinations(6, 2).len(), 15);
}

#[test]
fn erasure_codec_shard_counts() {
    let codec = ErasureCodec::new(4, 2).unwrap();
    assert_eq!(codec.data_shard_count(), 4);
    assert_eq!(codec.parity_shard_count(), 2);
    assert!(matches!(ErasureCodec::new(0, 2), Err(CodecError::InvalidShardCounts)));
    assert!(matches!(ErasureCodec::new(4, 0), Err(CodecError::InvalidShardCounts)));
    assert!(matches!(ErasureCodec::new(200, 57), Err(CodecError::InvalidShardCounts)));
    assert!(ErasureCodec::new(200, 56).is_ok());
}

#[test]
fn parity_shards_are_computed() {
    let encoded = rs_encode_payload(&[1, 2, 3, 4]);
    // data shards are one byte each; the parity of nonzero data is not zero
    assert_eq!(encoded.len(), 12);
    assert_ne!(&encoded[10..12], &[0, 0]);
    // a damaged data shard is repaired
    let mut damaged = encoded.clone();
    damaged[6] = 0xEE;
    assert_eq!(rs_decode_payload(&damaged), vec![1, 2, 3, 4]);
}

#[test]
fn damaged_parity_and_header_limits() {
    let payload: Vec<u8> = (0..10u32).map(|i| (i * 29 + 1) as u8).collect();
    let encoded = rs_encode_payload(&payload);
    // shards of ceil(10 / 4) = 3 bytes; the last parity shard is damaged
    let mut damaged = encoded.clone();
    damaged[HEADER_SIZE + 5 * 3] ^= 0xFF;
    assert_eq!(try_rs_decode_payload(&damaged), Ok(payload.clone()));
    // a header that claims more than the data shards can hold
    let mut too_long = encoded.clone();
    too_long[2] = 13;
    assert_eq!(try_rs_decode_payload(&too_long), Err(DecodeError::Unrecoverable));
    // a header that claims exactly what the data shards hold
    let mut full = encoded.clone();
    full[2] = 12;
    let out = try_rs_decode_payload(&full).unwrap();
    assert_eq!(out.len(), 12);
    assert_eq!(&out[..10], &payload[..]);
}

#[test]
fn envelope_checked_before_decoding() {
    assert_eq!(check_envelope(&[4, 2, 1, 0, 0]), Some(DecodeError::PacketTooShort));
    assert_eq!(
        check_envelope(&[0, 2, 1, 0, 0, 0, 1, 2]),
        Some(DecodeError::InvalidShardCounts)
    );
    assert_eq!(
        check_envelope(&[200, 100, 1, 0, 0, 0, 1, 2]),
        Some(DecodeError::CodecInit)
    );
    assert_eq!(check_envelope(&[4, 2, 1, 0, 0, 0]), Some(DecodeError::MissingShardPayload));
    assert_eq!(
        check_envelope(&[4, 2, 10, 0, 0, 0, 1, 2, 3, 4, 5]),
        Some(DecodeError::TruncatedShardPayload)
    );
    assert_eq!(
        check_envelope(&[4, 2, 9, 0, 0, 0, 1, 2, 3, 4, 5, 6]),
        Some(DecodeError::Unrecoverable)
    );
    assert_eq!(check_envelope(&[4, 2, 4, 0, 0, 0, 1, 2, 3, 4, 5, 6]), None);
    let encoded = rs_encode_payload(&[7, 7, 7]);
    assert_eq!(check_envelope(&encoded), None);
}
