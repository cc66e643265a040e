use echolot::error_correction::{check_envelope, DecodeError};
use echolot::packets::{checksum, decode_packet, encode_packet, FileInfo, FileTransmission, PacketError};

fn serialize_file_info(info: &FileInfo) -> Vec<u8> {
    bincode::serialize(&(&info.file_name, info.file_size)).unwrap()
}

fn deserialize_file_info(bytes: &[u8]) -> FileInfo {
    let (file_name, file_size): (String, u64) = bincode::deserialize(bytes).unwrap();
    FileInfo { file_name, file_size }
}

fn serialize_file_transmission(t: &FileTransmission) -> Vec<u8> {
    bincode::serialize(&(&t.file, t.checksum)).unwrap()
}

fn deserialize_file_transmission(bytes: &[u8]) -> FileTransmission {
    let (file, checksum): (Vec<u8>, u32) = bincode::deserialize(bytes).unwrap();
    FileTransmission { file, checksum }
}

#[test]
fn roundtrip_fileinfo_packet() {
    let input = FileInfo {
        file_name: "foo.txt".to_string(),
        file_size: 1711,
    };

    let encoded = encode_packet(&serialize_file_info(&input)).unwrap();
    let output = deserialize_file_info(&decode_packet(&encoded).unwrap());

    assert_eq!(input, output);
}

#[test]
fn roundtrip_file_transmission_packet() {
    let input = FileTransmission {
        file: (0..=255).cycle().take(1024).collect(),
        checksum: 1234567,
    };

    let encoded = encode_packet(&serialize_file_transmission(&input)).unwrap();
    let output = deserialize_file_transmission(&decode_packet(&encoded).unwrap());

    assert_eq!(input, output);
}

#[test]
fn checksum_is_crc32() {
    assert_eq!(checksum(b"123456789"), 0xCBF4_3926);
    assert_eq!(checksum(b""), 0);
}

#[test]
fn new_transmission_is_intact_and_damage_is_seen() {
    let t = FileTransmission::new(b"hello over sound".to_vec());
    assert_eq!(t.checksum, checksum(b"hello over sound"));
    assert!(t.is_intact());
    let mut damaged = t.clone();
    damaged.file[0] ^= 1;
    assert!(!damaged.is_intact());
}

#[test]
fn packet_decode_errors() {
    // an envelope that does not decode is told apart before decoding
    assert_eq!(check_envelope(&[4, 2, 1]), Some(DecodeError::PacketTooShort));
    // a valid envelope around bytes that are no xz stream
    let envelope = echolot::error_correction::rs_encode_payload(b"not xz");
    assert_eq!(check_envelope(&envelope), None);
    assert_eq!(decode_packet(&envelope), Err(PacketError::Decompression));
    assert_eq!(PacketError::Decompression.message(), "Codec failed on Decompression");
}

#[test]
fn empty_payload_does_not_fit_envelope() {
    assert_eq!(echolot::packets::protect(&[]), Err(PacketError::Size));
    let protected = echolot::packets::protect(&[9, 8, 7]).unwrap();
    assert_eq!(protected.len(), 6 + 6);
}

#[test]
fn packet_with_damaged_shard_decodes() {
    let input = FileInfo {
        file_name: "report.pdf".to_string(),
        file_size: 90210,
    };
    let mut encoded = encode_packet(&serialize_file_info(&input)).unwrap();
    encoded[7] ^= 0x3C;
    assert_eq!(check_envelope(&encoded), None);
    let output = deserialize_file_info(&decode_packet(&encoded).unwrap());
    assert_eq!(input, output);
}
