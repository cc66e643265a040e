//! Packets: what is sent in one transmission, and how its bytes are
//! compressed and protected on the way.
//!
//! The bytes of a packet are its serialised form (made outside this crate),
//! compressed with xz at preset 9, then encoded with the Reed-Solomon
//! envelope of `error_correction`.
use vstd::prelude::*;

use crate::error_correction::{
    decodable, decoded_payload, is_encoding_of, lemma_decode_encode, one_shard_changed, rs_encode_payload,
    shard_len_for, try_rs_decode_payload, DecodeError, HEADER_SIZE,
};

verus! {

/// The xz compression preset packets are compressed with.
pub const COMPRESSION_PRESET: u32 = 9;

/// What decompressing the xz stream `data` gives: the bytes it holds, or
/// `None` when `data` is no valid xz stream.
pub uninterp spec fn xz_decompressed(data: Seq<u8>) -> Option<Seq<u8>>;

/// The CRC-32 (IEEE) checksum of `data`, as `crc32fast::hash` computes it.
pub uninterp spec fn crc32_of(data: Seq<u8>) -> u32;

#[verifier::external_type_specification]
#[verifier::external_body]
pub struct ExLzmaError(lzma::LzmaError);

/// `lzma::compress`: xz-compresses `buf` at `preset` with the system's
/// liblzma. What it returns is an xz stream that decompresses to `buf`
/// (compression is lossless); which stream that is depends on the liblzma
/// build and is left unsaid. It can fail (for instance when memory runs
/// out), which depends on the machine, so success is not stated.
#[verifier::external_body]
fn lzma_compress(buf: &[u8], preset: u32) -> (r: Result<Vec<u8>, lzma::LzmaError>)
    ensures
        r matches Ok(v) ==> xz_decompressed(v@) == Some(buf@),
{
    lzma::compress(buf, preset)
}

/// `lzma::decompress`: decompresses an xz stream; on success it returns the
/// bytes the stream holds. It fails on data that is no valid stream, and
/// can also fail when memory runs out, so success is not stated.
#[verifier::external_body]
fn lzma_decompress(buf: &[u8]) -> (r: Result<Vec<u8>, lzma::LzmaError>)
    ensures
        r matches Ok(v) ==> xz_decompressed(buf@) == Some(v@),
{
    lzma::decompress(buf)
}

/// `crc32fast::hash`: the CRC-32 checksum of `buf`, named `crc32_of`.
#[verifier::external_body]
fn crc32_hash(buf: &[u8]) -> (r: u32)
    ensures
        r == crc32_of(buf@),
{
    crc32fast::hash(buf)
}

/// The CRC-32 checksum of `data`.
pub fn checksum(data: &[u8]) -> (r: u32)
    ensures
        r == crc32_of(data@),
{
    crc32_hash(data)
}

/// Why a packet could not be encoded or decoded.
#[derive(Debug, Clone, Copy, PartialEq, Eq)]
pub enum PacketError {
    /// Compression failed.
    Compression,
    /// The compressed bytes are empty or too long for the envelope.
    Size,
    /// The recovered bytes could not be decompressed.
    Decompression,
}

impl PacketError {
    /// The text that describes the error.
    pub open spec fn text(self) -> Seq<char> {
        match self {
            PacketError::Compression => "Codec failed on Compression"@,
            PacketError::Size => "Codec failed on Packet length conversion"@,
            PacketError::Decompression => "Codec failed on Decompression"@,
        }
    }

    /// The message that describes the error.
    pub fn message(&self) -> (r: &'static str)
        ensures
            r@ == self.text(),
    {
        match self {
            PacketError::Compression => "Codec failed on Compression",
            PacketError::Size => "Codec failed on Packet length conversion",
            PacketError::Decompression => "Codec failed on Decompression",
        }
    }
}

/// The compressed bytes `c` fit in the envelope.
pub open spec fn fits_envelope(c: Seq<u8>) -> bool {
    &&& 0 < c.len() <= u32::MAX
    &&& HEADER_SIZE + 6 * shard_len_for(c.len()) <= usize::MAX
}

/// Puts compressed bytes into the Reed-Solomon envelope; `Size` when they
/// are empty or too long for it.
pub fn protect(compressed: &[u8]) -> (r: Result<Vec<u8>, PacketError>)
    ensures
        fits_envelope(compressed@) ==> (r matches Ok(v) && is_encoding_of(v@, compressed@)),
        !fits_envelope(compressed@) ==> r == Err::<Vec<u8>, PacketError>(PacketError::Size),
{
    let n: usize = compressed.len();
    if n == 0 || n > u32::MAX as usize {
        return Err(PacketError::Size);
    }
    let shard_len: usize = n / 4 + if n % 4 != 0 {
        1
    } else {
        0
    };
    assert(shard_len == shard_len_for(n as nat));
    if shard_len > (usize::MAX - HEADER_SIZE) / 6 {
        return Err(PacketError::Size);
    }
    Ok(rs_encode_payload(compressed))
}

/// The bytes sent for a packet whose serialised form is `serialized`:
/// compressed, then put into the Reed-Solomon envelope. Compression can
/// fail (`Compression`); otherwise the result is `protect` of the
/// compressed bytes.
pub fn encode_packet(serialized: &[u8]) -> (r: Result<Vec<u8>, PacketError>)
    ensures
        r matches Ok(v) ==> exists|c: Seq<u8>|
            #[trigger] is_encoding_of(v@, c) && fits_envelope(c) && xz_decompressed(c) == Some(
                serialized@,
            ),
        r matches Err(e) ==> e == PacketError::Compression || e == PacketError::Size,
        r == Err::<Vec<u8>, PacketError>(PacketError::Size) ==> exists|c: Seq<u8>|
            #[trigger] xz_decompressed(c) == Some(serialized@) && !fits_envelope(c),
{
    match lzma_compress(serialized, COMPRESSION_PRESET) {
        Ok(compressed) => {
            let r = protect(compressed.as_slice());
            proof {
                if r is Ok {
                    assert(is_encoding_of(r->Ok_0@, compressed@));
                } else {
                    assert(xz_decompressed(compressed@) == Some(serialized@));
                }
            }
            r
        },
        Err(_) => Err(PacketError::Compression),
    }
}

/// The serialised form of the packet that `encoded` carries: the envelope
/// decoded, then decompressed. Only for envelopes that decode
/// (`check_envelope` tells); the result is what the compressed bytes hold,
/// unless decompression fails (`Decompression`). An envelope of compressed
/// bytes with one shard damaged gives what those compressed bytes hold, as
/// an undamaged one does.
pub fn decode_packet(encoded: &[u8]) -> (r: Result<Vec<u8>, PacketError>)
    requires
        decodable(encoded@),
    ensures
        decoded_payload(encoded@) is Ok,
        (r matches Ok(v) && xz_decompressed(decoded_payload(encoded@)->Ok_0) == Some(v@)) || r
            == Err::<Vec<u8>, PacketError>(PacketError::Decompression),
        forall|c: Seq<u8>, good: Seq<u8>|
            0 < c.len() <= u32::MAX && #[trigger] is_encoding_of(good, c) && one_shard_changed(
                encoded@,
                good,
            ) ==> (r matches Ok(v) && xz_decompressed(c) == Some(v@)) || r == Err::<
                Vec<u8>,
                PacketError,
            >(PacketError::Decompression),
{
    let compressed = match try_rs_decode_payload(encoded) {
        Ok(c) => c,
        Err(_) => {
            assert(false);
            return Err(PacketError::Decompression);
        },
    };
    match lzma_decompress(compressed.as_slice()) {
        Ok(v) => Ok(v),
        Err(_) => Err(PacketError::Decompression),
    }
}

/// Decoding what `encode_packet` made of `serialized` gives `serialized`
/// back, unless decompression fails: the envelope gives back the compressed
/// bytes, and they decompress to `serialized`.
pub proof fn lemma_packet_roundtrip(serialized: Seq<u8>, encoded: Seq<u8>, compressed: Seq<u8>)
    requires
        is_encoding_of(encoded, compressed),
        fits_envelope(compressed),
        xz_decompressed(compressed) == Some(serialized),
    ensures
        decoded_payload(encoded) == Ok::<Seq<u8>, DecodeError>(compressed),
        xz_decompressed(decoded_payload(encoded)->Ok_0) == Some(serialized),
{
    lemma_decode_encode(compressed, encoded);
}

/// Announces a file: its name and its size in bytes.
#[derive(Debug, Clone, PartialEq, Eq)]
pub struct FileInfo {
    pub file_name: String,
    pub file_size: u64,
}

/// Carries a file and the CRC-32 checksum the sender computed of it.
#[derive(Debug, Clone, PartialEq, Eq)]
pub struct FileTransmission {
    pub file: Vec<u8>,
    pub checksum: u32,
}

impl FileTransmission {
    /// The file still has the checksum that came with it.
    pub open spec fn intact(&self) -> bool {
        self.checksum == crc32_of(self.file@)
    }

    /// The transmission of `file`, with its checksum.
    pub fn new(file: Vec<u8>) -> (r: Self)
        ensures
            r.file@ == file@,
            r.checksum == crc32_of(file@),
            r.intact(),
    {
        let checksum = crc32_hash(file.as_slice());
        FileTransmission { file, checksum }
    }

    /// Whether the file still has the checksum that came with it.
    pub fn is_intact(&self) -> (r: bool)
        ensures
            r == self.intact(),
    {
        crc32_hash(self.file.as_slice()) == self.checksum
    }
}

} // verus!
