//! Protecting a payload with a Reed-Solomon erasure code, and getting it
//! back from a possibly damaged encoding.
//!
//! An encoding is a header of six bytes (the number of data shards, the
//! number of parity shards, the payload length as a little-endian `u32`)
//! followed by all shards, data shards first. The payload fills the data
//! shards in order and is padded with zeros.
//!
//! Decoding sets aside ever more shards, fewer first, until the rest
//! reconstruct to a codeword whose data can hold the payload. What comes
//! back is the data of a codeword nearest to the received shards, so an
//! encoding with one damaged shard, data or parity, decodes to its payload.
use vstd::prelude::*;

use crate::combinations::{combinations, combos, increasing_within};
use vstd::arithmetic::div_mod::{lemma_div_denominator, lemma_fundamental_div_mod};
use crate::reed_solomon::{
    agrees_with, count_present, differing_before, is_codeword, only_codeword_within,
    present_have_len, reconstructible, restores, rs_encode, rs_parity,
    rs_reconstruct, rs_reconstructed, rs_verify, shard_distance, well_shaped, ErasureCodec,
};

verus! {

broadcast use vstd::seq_lib::group_seq_properties;

/// Number of data shards the encoder uses.
pub const DATA_SHARDS: usize = 4;

/// Number of parity shards the encoder uses.
pub const PARITY_SHARDS: usize = 2;

/// Length of the header in front of the shards.
pub const HEADER_SIZE: usize = 6;

/// Length of each shard for a payload of `n` bytes: `n / DATA_SHARDS`,
/// rounded up.
pub open spec fn shard_len_for(n: nat) -> nat {
    (n + 3) / 4
}

/// The data shards for `payload`: its bytes in order, padded with zeros.
pub open spec fn data_shards_of(payload: Seq<u8>) -> Seq<Seq<u8>> {
    let l = shard_len_for(payload.len());
    Seq::new(
        4,
        |i: int|
            Seq::new(
                l,
                |k: int|
                    if i * l + k < payload.len() {
                        payload[i * l + k]
                    } else {
                        0u8
                    },
            ),
    )
}

/// The four bytes of `v`, least significant first.
pub open spec fn le_bytes(v: u32) -> Seq<u8> {
    seq![(v % 256) as u8, ((v / 256) % 256) as u8, ((v / 65536) % 256) as u8, (v / 16777216) as u8]
}

/// The number whose little-endian bytes are the first four of `b`.
pub open spec fn le_value(b: Seq<u8>) -> nat {
    (b[0] + 256 * b[1] + 65536 * b[2] + 16777216 * b[3]) as nat
}

/// The encoding of `payload`: the header, then the data shards, then their
/// parity.
pub open spec fn encoded_payload(payload: Seq<u8>) -> Seq<u8> {
    let data = data_shards_of(payload);
    seq![4u8, 2u8] + le_bytes(payload.len() as u32) + (data + rs_parity(2, data)).flatten()
}

/// `e` is an encoding that `rs_encode_payload` makes of `payload`: the
/// header and the shards, where the code gave one parity shard per parity
/// shard slot, each as long as a data shard.
pub open spec fn is_encoding_of(e: Seq<u8>, payload: Seq<u8>) -> bool {
    let data = data_shards_of(payload);
    &&& e == encoded_payload(payload)
    &&& well_shaped(data + rs_parity(2, data), 6)
}

/// The deep view of a vector of indices is its view.
pub proof fn lemma_usizes_deep_view(v: &Vec<usize>)
    ensures
        v.deep_view() == v@,
{
    assert(v.deep_view() =~= v@);
}

/// The deep view of a byte vector is its view.
pub proof fn lemma_bytes_deep_view(v: &Vec<u8>)
    ensures
        v.deep_view() == v@,
{
    assert(v.deep_view() =~= v@);
}

/// Appends the bytes of `bytes` to `out`.
fn append_bytes(out: &mut Vec<u8>, bytes: &Vec<u8>)
    ensures
        final(out)@ == old(out)@ + bytes@,
{
    let mut i: usize = 0;
    while i < bytes.len()
        invariant
            i <= bytes.len(),
            out@ == old(out)@ + bytes@.take(i as int),
        decreases bytes.len() - i,
    {
        out.push(bytes[i]);
        i = i + 1;
        assert(bytes@.take(i as int) =~= bytes@.take((i - 1) as int).push(bytes@[i - 1]));
    }
    assert(bytes@.take(i as int) =~= bytes@);
}

/// Data shard `i` of `payload`, each shard `shard_len` long.
fn data_shard(payload: &[u8], i: usize, shard_len: usize) -> (r: Vec<u8>)
    requires
        i < 4,
        shard_len == shard_len_for(payload@.len()),
        4 * shard_len <= usize::MAX,
    ensures
        r@ == data_shards_of(payload@)[i as int],
{
    let ghost want = data_shards_of(payload@)[i as int];
    let mut out: Vec<u8> = Vec::new();
    let mut k: usize = 0;
    assert(i * shard_len <= 3 * shard_len) by (nonlinear_arith)
        requires
            i < 4,
    ;
    let base: usize = i * shard_len;
    while k < shard_len
        invariant
            k <= shard_len,
            base == i * shard_len,
            base + shard_len <= usize::MAX,
            shard_len == shard_len_for(payload@.len()),
            i < 4,
            want == data_shards_of(payload@)[i as int],
            out@.len() == k,
            forall|j: int| 0 <= j < k ==> #[trigger] out@[j] == want[j],
        decreases shard_len - k,
    {
        let pos: usize = base + k;
        if pos < payload.len() {
            out.push(payload[pos]);
        } else {
            out.push(0u8);
        }
        k = k + 1;
    }
    assert(out@ =~= want);
    out
}

/// `len` zero bytes.
pub open spec fn zeros(len: nat) -> Seq<u8> {
    Seq::new(len, |k: int| 0u8)
}

/// `len` zero bytes.
fn zero_shard(len: usize) -> (r: Vec<u8>)
    ensures
        r@ == zeros(len as nat),
{
    let mut out: Vec<u8> = Vec::new();
    let mut k: usize = 0;
    while k < len
        invariant
            k <= len,
            out@ == zeros(k as nat),
        decreases len - k,
    {
        out.push(0u8);
        k = k + 1;
        assert(out@ =~= zeros(k as nat));
    }
    out
}

/// Encodes `payload` with `DATA_SHARDS` data shards and `PARITY_SHARDS`
/// parity shards, each `ceil(len / DATA_SHARDS)` bytes long, behind the
/// header.
pub fn rs_encode_payload(payload: &[u8]) -> (r: Vec<u8>)
    requires
        0 < payload@.len() <= u32::MAX,
        HEADER_SIZE + 6 * shard_len_for(payload@.len()) <= usize::MAX,
    ensures
        is_encoding_of(r@, payload@),
        r@.len() == HEADER_SIZE + 6 * shard_len_for(payload@.len()),
{
    let codec = match ErasureCodec::new(DATA_SHARDS, PARITY_SHARDS) {
        Ok(c) => c,
        Err(_) => {
            assert(false);
            return Vec::new();
        },
    };
    let n: usize = payload.len();
    let shard_len: usize = n / 4 + if n % 4 != 0 {
        1
    } else {
        0
    };
    assert(shard_len == shard_len_for(n as nat));
    let ghost data = data_shards_of(payload@);
    let ghost initial = data + seq![zeros(shard_len as nat), zeros(shard_len as nat)];

    let mut shards: Vec<Vec<u8>> = Vec::new();
    let mut i: usize = 0;
    while i < 6
        invariant
            i <= 6,
            shard_len == shard_len_for(payload@.len()),
            HEADER_SIZE + 6 * shard_len <= usize::MAX,
            data == data_shards_of(payload@),
            initial == data + seq![zeros(shard_len as nat), zeros(shard_len as nat)],
            shards.deep_view() == initial.take(i as int),
        decreases 6 - i,
    {
        let shard = if i < 4 {
            data_shard(payload, i, shard_len)
        } else {
            zero_shard(shard_len)
        };
        let ghost before = shards.deep_view();
        proof {
            lemma_bytes_deep_view(&shard);
        }
        shards.push(shard);
        assert(shards.deep_view() =~= before.push(initial[i as int]));
        i = i + 1;
        assert(initial.take(i as int) =~= initial.take((i - 1) as int).push(initial[i - 1]));
    }
    assert(initial.take(6) =~= initial);
    assert(initial.take(4) =~= data);
    assert(shard_len > 0);
    assert(well_shaped(shards.deep_view(), codec.total_count()));
    let encoded = rs_encode(&codec, &mut shards);
    if encoded.is_err() {
        assert(false);
        return Vec::new();
    }
    let ghost all = shards.deep_view();
    assert(all == data + rs_parity(2, data));

    let len32: u32 = n as u32;
    let mut out: Vec<u8> = Vec::new();
    out.push(4u8);
    out.push(2u8);
    out.push((len32 & 0xffu32) as u8);
    out.push(((len32 >> 8u32) & 0xffu32) as u8);
    out.push(((len32 >> 16u32) & 0xffu32) as u8);
    out.push((len32 >> 24u32) as u8);
    proof {
        lemma_le_bytes(len32);
    }
    let ghost header = out@;
    assert(header =~= seq![4u8, 2u8] + le_bytes(len32));

    let mut j: usize = 0;
    while j < 6
        invariant
            j <= 6,
            all == shards.deep_view(),
            well_shaped(all, 6),
            all[0].len() == shard_len,
            HEADER_SIZE + 6 * shard_len <= usize::MAX,
            out@ == header + all.take(j as int).flatten(),
            out@.len() == HEADER_SIZE + j * shard_len,
        decreases 6 - j,
    {
        proof {
            lemma_bytes_deep_view(&shards[j as int]);
        }
        append_bytes(&mut out, &shards[j]);
        proof {
            assert(all.take(j + 1) =~= all.take(j as int).push(all[j as int]));
            all.take(j as int).lemma_flatten_push(all[j as int]);
            assert(j * shard_len + shard_len == (j + 1) * shard_len) by (nonlinear_arith);
        }
        j = j + 1;
    }
    assert(all.take(6) =~= all);
    out
}

/// The bytes written for the payload length are its little-endian bytes.
proof fn lemma_le_bytes(v: u32)
    ensures
        (v & 0xffu32) as u8 == (v % 256) as u8,
        ((v >> 8u32) & 0xffu32) as u8 == ((v / 256) % 256) as u8,
        ((v >> 16u32) & 0xffu32) as u8 == ((v / 65536) % 256) as u8,
        (v >> 24u32) as u8 == (v / 16777216) as u8,
{
    assert((v & 0xffu32) as u8 == (v % 256) as u8) by (bit_vector);
    assert(((v >> 8u32) & 0xffu32) as u8 == ((v / 256) % 256) as u8) by (bit_vector);
    assert(((v >> 16u32) & 0xffu32) as u8 == ((v / 65536) % 256) as u8) by (bit_vector);
    assert((v >> 24u32) as u8 == (v / 16777216) as u8) by (bit_vector);
}

/// Why an encoding could not be decoded.
#[derive(Debug, Clone, Copy, PartialEq, Eq)]
pub enum DecodeError {
    /// Shorter than the header.
    PacketTooShort,
    /// The header names no data shards or no parity shards.
    InvalidShardCounts,
    /// The header names more shards than the code supports (256).
    CodecInit,
    /// Nothing follows the header.
    MissingShardPayload,
    /// What follows the header does not split into equal shards.
    TruncatedShardPayload,
    /// No choice of at most as many missing shards as there are parity
    /// shards gives a consistent codeword that holds the payload.
    Unrecoverable,
}

impl DecodeError {
    /// The text that describes the error.
    pub open spec fn text(self) -> Seq<char> {
        match self {
            DecodeError::PacketTooShort => "Codec failed on Packet header parsing: packet too short"@,
            DecodeError::InvalidShardCounts => "Codec failed on Packet header parsing: invalid shard counts"@,
            DecodeError::CodecInit => "Codec failed on Reed-Solomon initialisation"@,
            DecodeError::MissingShardPayload => "Codec failed on Packet parsing: missing shard payload"@,
            DecodeError::TruncatedShardPayload => "Codec failed on Packet parsing: truncated shard payload"@,
            DecodeError::Unrecoverable => "Codec failed on Reed-Solomon reconstruction: unrecoverable packet"@,
        }
    }

    /// The message that describes the error.
    pub fn message(&self) -> (r: &'static str)
        ensures
            r@ == self.text(),
    {
        match self {
            DecodeError::PacketTooShort => "Codec failed on Packet header parsing: packet too short",
            DecodeError::InvalidShardCounts => "Codec failed on Packet header parsing: invalid shard counts",
            DecodeError::CodecInit => "Codec failed on Reed-Solomon initialisation",
            DecodeError::MissingShardPayload => "Codec failed on Packet parsing: missing shard payload",
            DecodeError::TruncatedShardPayload => "Codec failed on Packet parsing: truncated shard payload",
            DecodeError::Unrecoverable => "Codec failed on Reed-Solomon reconstruction: unrecoverable packet",
        }
    }
}

/// `count` shards of `len` bytes each, cut from `body` in order.
pub open spec fn split_shards(body: Seq<u8>, count: nat, len: nat) -> Seq<Seq<u8>> {
    Seq::new(count, |i: int| body.subrange(i * len, i * len + len))
}

/// `shards` with the shards at the indices in `missing` marked missing.
pub open spec fn erase(shards: Seq<Seq<u8>>, missing: Seq<usize>) -> Seq<Option<Seq<u8>>> {
    Seq::new(
        shards.len(),
        |i: int|
            if missing.contains(i as usize) {
                None
            } else {
                Some(shards[i])
            },
    )
}

/// The shards after reconstruction of `cand`: the present ones as they are,
/// the missing ones as the code fills them in.
pub open spec fn filled(cand: Seq<Option<Seq<u8>>>, data_count: nat, parity_count: nat) -> Seq<
    Seq<u8>,
> {
    Seq::new(
        cand.len(),
        |i: int|
            if cand[i] is Some {
                cand[i]->0
            } else {
                rs_reconstructed(data_count, parity_count, cand)[i]
            },
    )
}

/// What decoding yields when the shards at the indices in `missing` are
/// treated as lost: the first `payload_len` bytes of the data shards, when
/// the rest can be reconstructed, the result is a codeword and the data
/// shards hold at least `payload_len` bytes.
pub open spec fn attempt(
    shards: Seq<Seq<u8>>,
    data_count: nat,
    parity_count: nat,
    missing: Seq<usize>,
    payload_len: nat,
) -> Option<Seq<u8>> {
    let cand = erase(shards, missing);
    if !reconstructible(cand, data_count, parity_count) {
        None
    } else {
        let full = filled(cand, data_count, parity_count);
        let data = full.take(data_count as int).flatten();
        if !is_codeword(full, data_count, parity_count) {
            None
        } else if payload_len > data.len() {
            None
        } else {
            Some(data.take(payload_len as int))
        }
    }
}

/// The result of the first choice of missing shards in `patterns` for which
/// `attempt` succeeds.
pub open spec fn search(
    shards: Seq<Seq<u8>>,
    data_count: nat,
    parity_count: nat,
    patterns: Seq<Seq<usize>>,
    payload_len: nat,
) -> Option<Seq<u8>>
    decreases patterns.len(),
{
    if patterns.len() == 0 {
        None
    } else {
        match attempt(shards, data_count, parity_count, patterns[0], payload_len) {
            Some(p) => Some(p),
            None => search(shards, data_count, parity_count, patterns.drop_first(), payload_len),
        }
    }
}

/// The choices of missing shards among `n` that decoding tries, from
/// `from` missing shards up to `max` missing shards: fewer missing shards
/// first, each count in lexicographic order.
pub open spec fn all_patterns(n: nat, from: nat, max: nat) -> Seq<Seq<usize>>
    decreases max + 1 - from,
{
    if from > max {
        Seq::empty()
    } else {
        combos(0, n, from) + all_patterns(n, from + 1, max)
    }
}

/// The payload recovered from `shards`, if any.
pub open spec fn recovered(
    shards: Seq<Seq<u8>>,
    data_count: nat,
    parity_count: nat,
    payload_len: nat,
) -> Option<Seq<u8>> {
    search(
        shards,
        data_count,
        parity_count,
        all_patterns(shards.len(), 0, parity_count),
        payload_len,
    )
}

/// The shards of an encoding `e` whose header is well formed: what follows
/// the header, cut into as many equal pieces as the header names shards.
pub open spec fn received_shards(e: Seq<u8>) -> Seq<Seq<u8>> {
    let total = (e[0] + e[1]) as nat;
    let body = e.skip(HEADER_SIZE as int);
    split_shards(body, total, body.len() / total)
}

/// What decoding `e` yields.
pub open spec fn decoded_payload(e: Seq<u8>) -> Result<Seq<u8>, DecodeError> {
    if e.len() < HEADER_SIZE {
        Err(DecodeError::PacketTooShort)
    } else if e[0] == 0 || e[1] == 0 {
        Err(DecodeError::InvalidShardCounts)
    } else if e[0] + e[1] > 256 {
        Err(DecodeError::CodecInit)
    } else if e.len() == HEADER_SIZE {
        Err(DecodeError::MissingShardPayload)
    } else if (e.len() - HEADER_SIZE) as nat % ((e[0] + e[1]) as nat) != 0 {
        Err(DecodeError::TruncatedShardPayload)
    } else {
        match recovered(received_shards(e), e[0] as nat, e[1] as nat, le_value(e.subrange(2, 6))) {
            Some(p) => Ok(p),
            None => Err(DecodeError::Unrecoverable),
        }
    }
}

/// Whether `idx` occurs in `v`.
fn contains_index(v: &Vec<usize>, idx: usize) -> (r: bool)
    ensures
        r == v@.contains(idx),
{
    let mut i: usize = 0;
    while i < v.len()
        invariant
            i <= v.len(),
            forall|j: int| 0 <= j < i ==> v@[j] != idx,
        decreases v.len() - i,
    {
        if v[i] == idx {
            assert(v@[i as int] == idx);
            return true;
        }
        i = i + 1;
    }
    false
}

/// A copy of `v`.
fn copy_bytes(v: &Vec<u8>) -> (r: Vec<u8>)
    ensures
        r@ == v@,
        r.deep_view() == v@,
{
    let mut out: Vec<u8> = Vec::new();
    append_bytes(&mut out, v);
    assert(out@ =~= v@);
    proof {
        lemma_bytes_deep_view(&out);
    }
    out
}

/// Decoding with the shards at the indices in `missing` treated as lost.
#[verifier::rlimit(40)]
fn try_pattern(
    codec: &ErasureCodec,
    shards: &Vec<Vec<u8>>,
    missing: &Vec<usize>,
    data_shards: usize,
    payload_len: usize,
) -> (r: Option<Vec<u8>>)
    requires
        well_shaped(shards.deep_view(), codec.total_count()),
        data_shards == codec.data_count(),
    ensures
        r.deep_view() == attempt(
            shards.deep_view(),
            codec.data_count(),
            codec.parity_count(),
            missing@,
            payload_len as nat,
        ),
        restores(erase(shards.deep_view(), missing@), codec.data_count(), codec.parity_count()),
        r is Some ==> payload_len <= codec.data_count() * shards.deep_view()[0].len(),
        r is Some ==> well_shaped(
            filled(erase(shards.deep_view(), missing@), codec.data_count(), codec.parity_count()),
            codec.total_count(),
        ),
        r is Some ==> filled(
            erase(shards.deep_view(), missing@),
            codec.data_count(),
            codec.parity_count(),
        )[0].len() == shards.deep_view()[0].len(),
        r is Some ==> only_codeword_within(
            filled(erase(shards.deep_view(), missing@), codec.data_count(), codec.parity_count()),
            codec.data_count(),
            codec.parity_count(),
        ),
{
    let ghost sv = shards.deep_view();
    let ghost d = codec.data_count();
    let ghost p = codec.parity_count();
    let ghost shard_len: nat = sv[0].len();
    let n: usize = shards.len();
    let ghost want = erase(sv, missing@);

    let mut cand: Vec<Option<Vec<u8>>> = Vec::new();
    let mut idx: usize = 0;
    while idx < n
        invariant
            n == shards.len(),
            sv == shards.deep_view(),
            want == erase(sv, missing@),
            idx <= n,
            cand.deep_view() == want.take(idx as int),
        decreases n - idx,
    {
        let ghost before = cand.deep_view();
        if contains_index(missing, idx) {
            cand.push(None);
        } else {
            let c = copy_bytes(&shards[idx]);
            proof {
                lemma_bytes_deep_view(&shards[idx as int]);
            }
            cand.push(Some(c));
        }
        assert(cand.deep_view() =~= before.push(want[idx as int]));
        idx = idx + 1;
        assert(want.take(idx as int) =~= want.take((idx - 1) as int).push(want[idx - 1]));
    }
    assert(want.take(n as int) =~= want);
    let ghost cand0 = cand.deep_view();
    assert(present_have_len(cand0, shard_len));

    if rs_reconstruct(codec, &mut cand).is_err() {
        return None;
    }
    proof {
        let rec = rs_reconstructed(d, p, cand0);
        assert forall|i: int| 0 <= i < cand0.len() && (#[trigger] cand0[i]) is Some implies cand0[i]->0
            == rec[i] by {
            assert(cand.deep_view()[i] == cand0[i]);
            assert(cand.deep_view()[i] == Some(rec[i]));
        }
        assert(agrees_with(cand0, rec));
    }
    let ghost full_spec = filled(cand0, d, p);
    assert forall|i: int| 0 <= i < n implies #[trigger] cand.deep_view()[i] == Some(full_spec[i]) by {
        if cand0[i] is Some {
            assert(cand.deep_view()[i] == cand0[i]);
        }
    }

    let mut full: Vec<Vec<u8>> = Vec::new();
    let mut i: usize = 0;
    while i < n
        invariant
            n == cand.deep_view().len(),
            i <= n,
            full_spec.len() == n,
            forall|k: int| 0 <= k < n ==> #[trigger] cand.deep_view()[k] == Some(full_spec[k]),
            full.deep_view() == full_spec.take(i as int),
        decreases n - i,
    {
        let ghost before = full.deep_view();
        match &cand[i] {
            Some(v) => {
                assert(cand.deep_view()[i as int] == Some(v.deep_view()));
                proof {
                    lemma_bytes_deep_view(v);
                }
                let c = copy_bytes(v);
                full.push(c);
            },
            None => {
                assert(cand.deep_view()[i as int] == None::<Seq<u8>>);
                assert(false);
                return None;
            },
        }
        assert(full.deep_view() =~= before.push(full_spec[i as int]));
        i = i + 1;
        assert(full_spec.take(i as int) =~= full_spec.take((i - 1) as int).push(full_spec[i - 1]));
    }
    assert(full_spec.take(n as int) =~= full_spec);
    assert(present_have_len(cand.deep_view(), shard_len));
    assert forall|k: int| 0 <= k < n implies (#[trigger] full_spec[k]).len() == shard_len by {
        assert(cand.deep_view()[k] == Some(full_spec[k]));
    }
    assert(well_shaped(full.deep_view(), codec.total_count()));

    match rs_verify(codec, &full) {
        Ok(true) => {},
        _ => {
            return None;
        },
    }

    let mut data: Vec<u8> = Vec::new();
    let mut j: usize = 0;
    while j < data_shards
        invariant
            j <= data_shards,
            data_shards == d,
            d <= n,
            n == full.deep_view().len(),
            data@ == full.deep_view().take(j as int).flatten(),
        decreases data_shards - j,
    {
        proof {
            lemma_bytes_deep_view(&full[j as int]);
        }
        append_bytes(&mut data, &full[j]);
        proof {
            let fv = full.deep_view();
            assert(fv.take(j + 1) =~= fv.take(j as int).push(fv[j as int]));
            fv.take(j as int).lemma_flatten_push(fv[j as int]);
        }
        j = j + 1;
    }
    proof {
        let fv = full.deep_view();
        assert(fv.take(d as int).take(d as int) =~= fv.take(d as int));
        assert forall|k: int| 0 <= k < d implies (#[trigger] fv.take(d as int)[k]).len() == shard_len by {
            assert(fv.take(d as int)[k] == full_spec[k]);
        }
        lemma_flatten_uniform(fv.take(d as int), shard_len);
        assert(data@.len() == d * shard_len);
    }
    if payload_len > data.len() {
        return None;
    }
    data.truncate(payload_len);
    proof {
        lemma_bytes_deep_view(&data);
    }
    Some(data)
}

/// Tries every choice of at most `parity_shards` missing shards, fewer
/// first, and returns the payload of the first choice under which the
/// shards reconstruct to a codeword whose data shards hold `payload_len`
/// bytes.
///
/// That payload is the data of a codeword nearest to the shards, and
/// nothing is found only when the data shards are too short for the
/// payload. A codeword within half the parity count of the shards is the
/// one whose data comes back.
fn recover_payload(
    codec: &ErasureCodec,
    shards: &Vec<Vec<u8>>,
    data_shards: usize,
    parity_shards: usize,
    payload_len: usize,
) -> (r: Option<Vec<u8>>)
    requires
        well_shaped(shards.deep_view(), codec.total_count()),
        data_shards == codec.data_count(),
        parity_shards == codec.parity_count(),
        data_shards > 0,
        codec.total_count() <= 256,
    ensures
        r.deep_view() == recovered(
            shards.deep_view(),
            codec.data_count(),
            codec.parity_count(),
            payload_len as nat,
        ),
        r is None <==> payload_len > codec.data_count() * shards.deep_view()[0].len(),
        r matches Some(v) ==> exists|c: Seq<Seq<u8>>|
            #[trigger] nearest_codeword(
                c,
                shards.deep_view(),
                codec.data_count(),
                codec.parity_count(),
            ) && v@ == data_of(c, codec.data_count(), payload_len as nat),
        forall|c: Seq<Seq<u8>>|
            well_shaped(c, codec.total_count()) && is_codeword(
                c,
                codec.data_count(),
                codec.parity_count(),
            ) && 2 * #[trigger] shard_distance(c, shards.deep_view()) <= codec.parity_count()
                && payload_len <= codec.data_count() * shards.deep_view()[0].len() ==> (r is Some
                && r->0@ == data_of(c, codec.data_count(), payload_len as nat)),
{
    let ghost sv = shards.deep_view();
    let ghost d = codec.data_count();
    let ghost p = codec.parity_count();
    let ghost pl = payload_len as nat;
    let n: usize = shards.len();
    let ghost goal = recovered(sv, d, p, pl);
    let ghost all = all_patterns(n as nat, 0, p);
    let ghost mut done: Seq<Seq<usize>> = Seq::empty();
    assert(all =~= done + all);

    let mut missing_count: usize = 0;
    while missing_count <= parity_shards
        invariant
            sv == shards.deep_view(),
            n == sv.len(),
            well_shaped(sv, codec.total_count()),
            data_shards == d,
            d == codec.data_count(),
            p == codec.parity_count(),
            pl == payload_len,
            parity_shards == p,
            data_shards > 0,
            codec.total_count() <= 256,
            missing_count <= parity_shards + 1,
            goal == recovered(sv, d, p, pl),
            goal == search(sv, d, p, all_patterns(n as nat, missing_count as nat, p), pl),
            all == all_patterns(n as nat, 0, p),
            all == done + all_patterns(n as nat, missing_count as nat, p),
            forall|k: int|
                0 <= k < done.len() ==> restores(erase(sv, #[trigger] done[k]), d, p) && attempt(
                    sv,
                    d,
                    p,
                    done[k],
                    pl,
                ) is None,
        decreases parity_shards + 1 - missing_count,
    {
        let patterns = combinations(n, missing_count);
        let ghost cs = patterns.deep_view();
        let ghost rest = all_patterns(n as nat, (missing_count + 1) as nat, p);
        assert(all_patterns(n as nat, missing_count as nat, p) == cs + rest);
        assert(cs.skip(0) =~= cs);
        let mut j: usize = 0;
        while j < patterns.len()
            invariant
                sv == shards.deep_view(),
                n == sv.len(),
                well_shaped(sv, codec.total_count()),
                data_shards == d,
                d == codec.data_count(),
                p == codec.parity_count(),
                pl == payload_len,
                data_shards > 0,
                codec.total_count() <= 256,
                rest == all_patterns(n as nat, (missing_count + 1) as nat, p),
                cs == patterns.deep_view(),
                j <= patterns.len(),
                goal == recovered(sv, d, p, pl),
                goal == search(sv, d, p, cs.skip(j as int) + rest, pl),
                all == all_patterns(n as nat, 0, p),
                all == done + (cs.skip(j as int) + rest),
                forall|k: int|
                    0 <= k < done.len() ==> restores(erase(sv, #[trigger] done[k]), d, p)
                        && attempt(sv, d, p, done[k], pl) is None,
            decreases patterns.len() - j,
        {
            let ghost tail = cs.skip(j as int) + rest;
            assert(tail[0] == cs[j as int]);
            assert(tail.drop_first() =~= cs.skip(j + 1) + rest);
            proof {
                lemma_usizes_deep_view(&patterns[j as int]);
            }
            let attempt_result = try_pattern(codec, shards, &patterns[j], data_shards, payload_len);
            assert(patterns@[j as int]@ == cs[j as int]);
            if attempt_result.is_some() {
                assert(attempt_result.deep_view() == attempt(sv, d, p, tail[0], pl));
                assert(search(sv, d, p, tail, pl) == attempt(sv, d, p, tail[0], pl));
                proof {
                    let i = done.len() as int;
                    assert(all[i] == cs[j as int]);
                    assert forall|k: int| 0 <= k < i implies restores(
                        erase(sv, #[trigger] all_patterns(sv.len(), 0, p)[k]),
                        d,
                        p,
                    ) && attempt(sv, d, p, all_patterns(sv.len(), 0, p)[k], pl) is None by {
                        assert(all[k] == done[k]);
                    }
                    lemma_first_success(sv, d, p, pl, i);
                    let c = filled(erase(sv, all[i]), d, p);
                    assert(nearest_codeword(c, sv, d, p));
                }
                return attempt_result;
            }
            proof {
                assert(done.push(cs[j as int]) + (cs.skip(j + 1) + rest) =~= done + tail);
                done = done.push(cs[j as int]);
            }
            j = j + 1;
        }
        assert(cs.skip(j as int) + rest =~= rest);
        missing_count = missing_count + 1;
    }
    assert(all_patterns(n as nat, missing_count as nat, p) =~= Seq::<Seq<usize>>::empty());
    proof {
        assert(done =~= all);
        assert forall|k: int| 0 <= k < all_patterns(sv.len(), 0, p).len() implies restores(
            erase(sv, #[trigger] all_patterns(sv.len(), 0, p)[k]),
            d,
            p,
        ) && attempt(sv, d, p, all_patterns(sv.len(), 0, p)[k], pl) is None by {
            assert(all[k] == done[k]);
        }
        lemma_exhausted(sv, d, p, pl);
    }
    None
}

/// The header of `e` names a code with data and parity shards and at most
/// 256 shards in all, and what follows the header splits into that many
/// shards of one positive length.
pub open spec fn envelope_ok(e: Seq<u8>) -> bool {
    &&& e.len() > HEADER_SIZE
    &&& e[0] != 0
    &&& e[1] != 0
    &&& e[0] + e[1] <= 256
    &&& (e.len() - HEADER_SIZE) as nat % ((e[0] + e[1]) as nat) == 0
}

/// The payload length that the header of `e` states.
pub open spec fn stated_len(e: Seq<u8>) -> nat {
    le_value(e.subrange(2, 6))
}

/// The length of each shard of `e`.
pub open spec fn shard_len_of(e: Seq<u8>) -> nat {
    (e.len() - HEADER_SIZE) as nat / ((e[0] + e[1]) as nat)
}

/// `e` decodes: its envelope is well formed and its data shards can hold
/// the payload length that its header states.
pub open spec fn decodable(e: Seq<u8>) -> bool {
    &&& envelope_ok(e)
    &&& stated_len(e) <= e[0] * shard_len_of(e)
}

/// Why `e` does not decode, read from its header and length alone; `None`
/// when it decodes.
pub open spec fn envelope_error(e: Seq<u8>) -> Option<DecodeError> {
    if e.len() < HEADER_SIZE {
        Some(DecodeError::PacketTooShort)
    } else if e[0] == 0 || e[1] == 0 {
        Some(DecodeError::InvalidShardCounts)
    } else if e[0] + e[1] > 256 {
        Some(DecodeError::CodecInit)
    } else if e.len() == HEADER_SIZE {
        Some(DecodeError::MissingShardPayload)
    } else if (e.len() - HEADER_SIZE) as nat % ((e[0] + e[1]) as nat) != 0 {
        Some(DecodeError::TruncatedShardPayload)
    } else if stated_len(e) > e[0] * shard_len_of(e) {
        Some(DecodeError::Unrecoverable)
    } else {
        None
    }
}

/// Why `encoded_packet` would not decode, if it would not, found from its
/// header and length without decoding it.
pub fn check_envelope(encoded_packet: &[u8]) -> (r: Option<DecodeError>)
    ensures
        r == envelope_error(encoded_packet@),
        r is None <==> decodable(encoded_packet@),
{
    let ghost e = encoded_packet@;
    if encoded_packet.len() < HEADER_SIZE {
        return Some(DecodeError::PacketTooShort);
    }
    let data_shards: usize = encoded_packet[0] as usize;
    let parity_shards: usize = encoded_packet[1] as usize;
    if data_shards == 0 || parity_shards == 0 {
        return Some(DecodeError::InvalidShardCounts);
    }
    if data_shards + parity_shards > 256 {
        return Some(DecodeError::CodecInit);
    }
    let total: usize = data_shards + parity_shards;
    let body_len: usize = encoded_packet.len() - HEADER_SIZE;
    if body_len == 0 {
        return Some(DecodeError::MissingShardPayload);
    }
    if body_len % total != 0 {
        return Some(DecodeError::TruncatedShardPayload);
    }
    let shard_len: usize = body_len / total;
    let payload_len: u32 = encoded_packet[2] as u32 + 256u32 * encoded_packet[3] as u32 + 65536u32
        * encoded_packet[4] as u32 + 16777216u32 * encoded_packet[5] as u32;
    assert(payload_len == stated_len(e));
    proof {
        lemma_split_bounds(body_len as nat, total as nat, shard_len as nat);
        assert(data_shards * shard_len <= total * shard_len) by (nonlinear_arith)
            requires
                data_shards <= total,
        ;
    }
    if payload_len as usize > data_shards * shard_len {
        Some(DecodeError::Unrecoverable)
    } else {
        None
    }
}

/// `e` is `good` with at most one shard changed: the same length, the same
/// header, and shards that differ in at most one place.
pub open spec fn one_shard_changed(e: Seq<u8>, good: Seq<u8>) -> bool {
    &&& e.len() == good.len()
    &&& e.take(HEADER_SIZE as int) == good.take(HEADER_SIZE as int)
    &&& shard_distance(received_shards(e), received_shards(good)) <= 1
}

/// Decodes an encoding made by `rs_encode_payload`, repairing lost or
/// damaged shards where the parity allows; the error says why it could not.
///
/// It succeeds exactly on the encodings that `decodable` describes, and then
/// returns the data of a codeword nearest to the received shards. Where a
/// codeword lies within half the parity count of them, its data is what
/// comes back: an encoding of a payload with one shard damaged decodes to
/// the payload.
pub fn try_rs_decode_payload(encoded_packet: &[u8]) -> (r: Result<Vec<u8>, DecodeError>)
    ensures
        match r {
            Ok(v) => decoded_payload(encoded_packet@) == Ok::<Seq<u8>, DecodeError>(v@),
            Err(e) => decoded_payload(encoded_packet@) == Err::<Seq<u8>, DecodeError>(e),
        },
        r is Ok <==> decodable(encoded_packet@),
        match r {
            Ok(_) => envelope_error(encoded_packet@) is None,
            Err(d) => envelope_error(encoded_packet@) == Some(d),
        },
        r matches Ok(v) ==> exists|c: Seq<Seq<u8>>|
            #[trigger] nearest_codeword(
                c,
                received_shards(encoded_packet@),
                encoded_packet@[0] as nat,
                encoded_packet@[1] as nat,
            ) && v@ == data_of(c, encoded_packet@[0] as nat, stated_len(encoded_packet@)),
        forall|c: Seq<Seq<u8>>|
            decodable(encoded_packet@) && well_shaped(
                c,
                (encoded_packet@[0] + encoded_packet@[1]) as nat,
            ) && is_codeword(c, encoded_packet@[0] as nat, encoded_packet@[1] as nat) && 2
                * #[trigger] shard_distance(c, received_shards(encoded_packet@))
                <= encoded_packet@[1] ==> (r is Ok && r->Ok_0@ == data_of(
                c,
                encoded_packet@[0] as nat,
                stated_len(encoded_packet@),
            )),
        forall|payload: Seq<u8>, good: Seq<u8>|
            0 < payload.len() <= u32::MAX && #[trigger] is_encoding_of(good, payload)
                && one_shard_changed(encoded_packet@, good) ==> (r is Ok && r->Ok_0@ == payload),
{
    let ghost e = encoded_packet@;
    proof {
        assert forall|payload: Seq<u8>, good: Seq<u8>|
            0 < payload.len() <= u32::MAX && #[trigger] is_encoding_of(good, payload)
                && one_shard_changed(e, good) implies decodable(e) by {
            lemma_damaged_encoding(payload, good, e);
        }
    }
    if encoded_packet.len() < HEADER_SIZE {
        return Err(DecodeError::PacketTooShort);
    }
    let data_shards: usize = encoded_packet[0] as usize;
    let parity_shards: usize = encoded_packet[1] as usize;
    if data_shards == 0 || parity_shards == 0 {
        return Err(DecodeError::InvalidShardCounts);
    }
    let payload_len: u32 = encoded_packet[2] as u32 + 256u32 * encoded_packet[3] as u32 + 65536u32
        * encoded_packet[4] as u32 + 16777216u32 * encoded_packet[5] as u32;
    assert(payload_len == le_value(e.subrange(2, 6)));
    let codec = match ErasureCodec::new(data_shards, parity_shards) {
        Ok(c) => c,
        Err(_) => {
            return Err(DecodeError::CodecInit);
        },
    };
    let total: usize = data_shards + parity_shards;
    let packet_len: usize = encoded_packet.len();
    let body_len: usize = packet_len - HEADER_SIZE;
    if body_len == 0 {
        return Err(DecodeError::MissingShardPayload);
    }
    if body_len % total != 0 {
        return Err(DecodeError::TruncatedShardPayload);
    }
    let shard_len: usize = body_len / total;
    let ghost body = e.skip(HEADER_SIZE as int);
    let ghost want = split_shards(body, total as nat, shard_len as nat);
    proof {
        lemma_split_bounds(body_len as nat, total as nat, shard_len as nat);
    }

    let mut shards: Vec<Vec<u8>> = Vec::new();
    let mut i: usize = 0;
    while i < total
        invariant
            e == encoded_packet@,
            e.len() == body_len + HEADER_SIZE,
            packet_len == body_len + HEADER_SIZE,
            body == e.skip(HEADER_SIZE as int),
            body.len() == body_len,
            total > 0,
            shard_len > 0,
            body_len == total * shard_len,
            want == split_shards(body, total as nat, shard_len as nat),
            i <= total,
            shards.deep_view() == want.take(i as int),
        decreases total - i,
    {
        proof {
            lemma_shard_start(i as nat, total as nat, shard_len as nat);
        }
        assert(i * shard_len + shard_len <= body_len);
        assert(encoded_packet@.len() == body_len + HEADER_SIZE);
        let start: usize = HEADER_SIZE + i * shard_len;
        let mut shard: Vec<u8> = Vec::new();
        let mut k: usize = 0;
        while k < shard_len
            invariant
                e == encoded_packet@,
                e.len() == body_len + HEADER_SIZE,
                packet_len == body_len + HEADER_SIZE,
                body == e.skip(HEADER_SIZE as int),
                start == HEADER_SIZE + i * shard_len,
                i < total,
                i * shard_len + shard_len <= body_len,
                body.len() == body_len,
                k <= shard_len,
                shard@ == body.subrange(i * shard_len, i * shard_len + k),
            decreases shard_len - k,
        {
            shard.push(encoded_packet[start + k]);
            k = k + 1;
            assert(shard@ =~= body.subrange(i * shard_len, i * shard_len + k));
        }
        let ghost before = shards.deep_view();
        proof {
            lemma_bytes_deep_view(&shard);
        }
        shards.push(shard);
        assert(shards.deep_view() =~= before.push(want[i as int]));
        i = i + 1;
        assert(want.take(i as int) =~= want.take((i - 1) as int).push(want[i - 1]));
    }
    assert(want.take(total as int) =~= want);
    assert forall|j: int| 0 <= j < total implies (#[trigger] want[j]).len() == shard_len by {
        lemma_shard_start(j as nat, total as nat, shard_len as nat);
    }
    assert(well_shaped(shards.deep_view(), codec.total_count()));

    assert(shards.deep_view() == received_shards(e));
    let recovered_payload = recover_payload(
        &codec,
        &shards,
        data_shards,
        parity_shards,
        payload_len as usize,
    );
    let r = match recovered_payload {
        Some(payload) => {
            proof {
                lemma_bytes_deep_view(&payload);
            }
            Ok(payload)
        },
        None => Err(DecodeError::Unrecoverable),
    };
    proof {
        assert forall|payload: Seq<u8>, good: Seq<u8>|
            0 < payload.len() <= u32::MAX && #[trigger] is_encoding_of(good, payload)
                && one_shard_changed(e, good) implies (r is Ok && r->Ok_0@ == payload) by {
            let c = lemma_damaged_encoding(payload, good, e);
        }
    }
    r
}

/// Decodes an encoding made by `rs_encode_payload`, repairing lost or
/// damaged shards where the parity allows. Only for encodings that decode;
/// `try_rs_decode_payload` takes any bytes.
pub fn rs_decode_payload(encoded_packet: &[u8]) -> (r: Vec<u8>)
    requires
        decodable(encoded_packet@),
    ensures
        decoded_payload(encoded_packet@) == Ok::<Seq<u8>, DecodeError>(r@),
        exists|c: Seq<Seq<u8>>|
            #[trigger] nearest_codeword(
                c,
                received_shards(encoded_packet@),
                encoded_packet@[0] as nat,
                encoded_packet@[1] as nat,
            ) && r@ == data_of(c, encoded_packet@[0] as nat, stated_len(encoded_packet@)),
        forall|c: Seq<Seq<u8>>|
            well_shaped(c, (encoded_packet@[0] + encoded_packet@[1]) as nat) && is_codeword(
                c,
                encoded_packet@[0] as nat,
                encoded_packet@[1] as nat,
            ) && 2 * #[trigger] shard_distance(c, received_shards(encoded_packet@))
                <= encoded_packet@[1] ==> r@ == data_of(
                c,
                encoded_packet@[0] as nat,
                stated_len(encoded_packet@),
            ),
        forall|payload: Seq<u8>, good: Seq<u8>|
            0 < payload.len() <= u32::MAX && #[trigger] is_encoding_of(good, payload)
                && one_shard_changed(encoded_packet@, good) ==> r@ == payload,
{
    match try_rs_decode_payload(encoded_packet) {
        Ok(v) => v,
        Err(_) => {
            assert(false);
            Vec::new()
        },
    }
}

/// Cutting `total` shards of `shard_len` bytes from a body of `body_len`
/// bytes stays within the body.
proof fn lemma_split_bounds(body_len: nat, total: nat, shard_len: nat)
    requires
        total > 0,
        body_len > 0,
        body_len % total == 0,
        shard_len == body_len / total,
    ensures
        shard_len > 0,
        body_len == total * shard_len,
{
    assert(body_len == total * (body_len / total) + body_len % total) by (nonlinear_arith)
        requires
            total > 0,
    ;
    assert(shard_len > 0) by (nonlinear_arith)
        requires
            body_len == total * shard_len,
            body_len > 0,
    ;
}

/// Shard `i` of `total` lies within the body.
proof fn lemma_shard_start(i: nat, total: nat, shard_len: nat)
    requires
        i < total,
    ensures
        (i + 1) * shard_len <= total * shard_len,
        i * shard_len + shard_len == (i + 1) * shard_len,
{
    assert((i + 1) * shard_len <= total * shard_len) by (nonlinear_arith)
        requires
            i < total,
    ;
    assert(i * shard_len + shard_len == (i + 1) * shard_len) by (nonlinear_arith);
}

/// In a sequence of shards of one length, byte `j` of the concatenation is
/// byte `j % len` of shard `j / len`.
pub proof fn lemma_flatten_uniform(s: Seq<Seq<u8>>, len: nat)
    requires
        len > 0,
        forall|i: int| 0 <= i < s.len() ==> (#[trigger] s[i]).len() == len,
    ensures
        s.flatten().len() == s.len() * len,
        forall|j: int|
            0 <= j < s.len() * len ==> #[trigger] s.flatten()[j] == s[j / (len as int)][j % (
            len as int)],
    decreases s.len(),
{
    if s.len() > 0 {
        let rest = s.drop_first();
        lemma_flatten_uniform(rest, len);
        assert(s.flatten() == s[0] + rest.flatten());
        assert(s.len() * len == len + rest.len() * len) by (nonlinear_arith)
            requires
                s.len() == rest.len() + 1,
        ;
        assert forall|j: int| 0 <= j < s.len() * len implies #[trigger] s.flatten()[j] == s[j / (
        len as int)][j % (len as int)] by {
            let l = len as int;
            if j < l {
                assert(j / l == 0 && j % l == j) by (nonlinear_arith)
                    requires
                        0 <= j < l,
                ;
            } else {
                let j2 = j - l;
                assert(j2 / l == j / l - 1 && j2 % l == j % l && j / l >= 1 && j / l < s.len()) by (
                nonlinear_arith)
                    requires
                        j2 == j - l,
                        j >= l,
                        l > 0,
                        j < s.len() * l,
                ;
                assert(s.flatten()[j] == rest.flatten()[j2]);
                assert(rest[j2 / l] == s[j / l]);
            }
        }
    }
}

/// Cutting the concatenation of shards of one length back into shards of
/// that length gives the shards.
pub proof fn lemma_split_flatten(s: Seq<Seq<u8>>, len: nat)
    requires
        len > 0,
        forall|i: int| 0 <= i < s.len() ==> (#[trigger] s[i]).len() == len,
    ensures
        split_shards(s.flatten(), s.len(), len) == s,
{
    lemma_flatten_uniform(s, len);
    let f = s.flatten();
    let l = len as int;
    assert forall|i: int| 0 <= i < s.len() implies #[trigger] split_shards(f, s.len(), len)[i]
        == s[i] by {
        assert(i * l + l <= s.len() * l) by (nonlinear_arith)
            requires
                0 <= i < s.len(),
                l > 0,
        ;
        assert(i * l >= 0) by (nonlinear_arith)
            requires
                i >= 0,
                l > 0,
        ;
        let piece = f.subrange(i * l, i * l + l);
        assert forall|k: int| 0 <= k < l implies piece[k] == s[i][k] by {
            assert((i * l + k) / l == i && (i * l + k) % l == k) by (nonlinear_arith)
                requires
                    0 <= k < l,
                    i >= 0,
            ;
            assert(f[i * l + k] == s[(i * l + k) / l][(i * l + k) % l]);
        }
        assert(piece =~= s[i]);
    }
    assert(split_shards(f, s.len(), len) =~= s);
}

/// The data shards of a payload, laid end to end, start with the payload.
pub proof fn lemma_data_shards_hold_payload(payload: Seq<u8>)
    requires
        payload.len() > 0,
    ensures
        data_shards_of(payload).flatten().len() == 4 * shard_len_for(payload.len()),
        payload.len() <= data_shards_of(payload).flatten().len(),
        data_shards_of(payload).flatten().take(payload.len() as int) == payload,
{
    let l = shard_len_for(payload.len());
    let data = data_shards_of(payload);
    assert(l > 0);
    lemma_flatten_uniform(data, l);
    let f = data.flatten();
    assert(payload.len() <= 4 * l);
    assert forall|j: int| 0 <= j < payload.len() implies #[trigger] f.take(payload.len() as int)[j]
        == payload[j] by {
        let li = l as int;
        assert((j / li) * li + j % li == j && 0 <= j / li < 4 && 0 <= j % li < li) by (
        nonlinear_arith)
            requires
                0 <= j < 4 * li,
                li > 0,
        ;
        assert(f[j] == data[j / li][j % li]);
    }
    assert(f.take(payload.len() as int) =~= payload);
}

/// The little-endian bytes of `v` read back as `v`.
proof fn lemma_le_roundtrip(v: u32)
    ensures
        le_value(le_bytes(v)) == v,
{
    let x = v as int;
    lemma_fundamental_div_mod(x, 256);
    lemma_fundamental_div_mod(x / 256, 256);
    lemma_fundamental_div_mod(x / 65536, 256);
    lemma_div_denominator(x, 256, 256);
    lemma_div_denominator(x, 65536, 256);
    assert(x / 16777216 < 256);
}

/// The layout of an encoding that `rs_encode_payload` made: its header, and
/// shards that are the data shards of the payload and their parity.
proof fn lemma_encoding_layout(payload: Seq<u8>, e: Seq<u8>)
    requires
        0 < payload.len() <= u32::MAX,
        is_encoding_of(e, payload),
    ensures
        e.len() == 6 + 6 * shard_len_for(payload.len()),
        e[0] == 4,
        e[1] == 2,
        stated_len(e) == payload.len(),
        shard_len_of(e) == shard_len_for(payload.len()),
        received_shards(e) == data_shards_of(payload) + rs_parity(2, data_shards_of(payload)),
{
    let n = payload.len();
    let l = shard_len_for(n);
    let data = data_shards_of(payload);
    let shards = data + rs_parity(2, data);
    let header = seq![4u8, 2u8] + le_bytes(n as u32);
    assert(e == header + shards.flatten());
    assert forall|i: int| 0 <= i < shards.len() implies (#[trigger] shards[i]).len() == l by {
        assert(shards[i].len() == shards[0].len());
        assert(shards[0] == data[0]);
    }
    lemma_flatten_uniform(shards, l);
    assert(e.len() == 6 + 6 * l);
    assert(e[0] == 4 && e[1] == 2);
    let body = e.skip(6);
    assert(body =~= shards.flatten());
    assert((6 * l) as nat % 6 == 0 && (6 * l) as nat / 6 == l) by (nonlinear_arith);
    assert(e.subrange(2, 6) =~= le_bytes(n as u32));
    lemma_le_roundtrip(n as u32);
    lemma_split_flatten(shards, l);
    assert(split_shards(body, 6, l) == shards);
    assert(received_shards(e) == shards);
}

/// An encoding of `payload` with at most one shard changed decodes, and the
/// encoding's shards are a codeword within half the parity count of what
/// was received, whose data start with the payload.
pub proof fn lemma_damaged_encoding(payload: Seq<u8>, good: Seq<u8>, e: Seq<u8>) -> (c: Seq<Seq<u8>>)
    requires
        0 < payload.len() <= u32::MAX,
        is_encoding_of(good, payload),
        one_shard_changed(e, good),
    ensures
        decodable(e),
        e[0] == 4 && e[1] == 2,
        c == received_shards(good),
        well_shaped(c, 6),
        is_codeword(c, 4, 2),
        2 * shard_distance(c, received_shards(e)) <= 2,
        data_of(c, 4, stated_len(e)) == payload,
{
    lemma_encoding_layout(payload, good);
    let n = payload.len();
    let l = shard_len_for(n);
    let data = data_shards_of(payload);
    let c = data + rs_parity(2, data);
    assert(e[0] == e.take(6)[0] && good[0] == good.take(6)[0]);
    assert(e[1] == e.take(6)[1] && good[1] == good.take(6)[1]);
    assert(e.subrange(2, 6) =~= good.subrange(2, 6)) by {
        assert forall|k: int| 0 <= k < 4 implies e.subrange(2, 6)[k] == good.subrange(2, 6)[k] by {
            assert(e.take(6)[k + 2] == good.take(6)[k + 2]);
        }
    }
    assert((6 * l) as nat % 6 == 0) by (nonlinear_arith);
    assert(envelope_ok(e));
    assert(shard_len_of(e) == l);
    lemma_data_shards_hold_payload(payload);
    assert(c.take(4) =~= data);
    assert(decodable(e));
    assert(c.skip(4) =~= rs_parity(2, data));
    assert(is_codeword(c, 4, 2));
    crate::reed_solomon::lemma_distance_symmetric(received_shards(e), c, 6);
    c
}

/// An encoding that `rs_encode_payload` made decodes, and it is itself with
/// no shard changed; so `rs_decode_payload` takes it and gives the payload
/// back.
pub proof fn lemma_encoding_decodable(payload: Seq<u8>, e: Seq<u8>)
    requires
        0 < payload.len() <= u32::MAX,
        is_encoding_of(e, payload),
    ensures
        decodable(e),
        one_shard_changed(e, e),
{
    crate::reed_solomon::lemma_distance_self(received_shards(e), received_shards(e).len() as int);
    lemma_damaged_encoding(payload, e, e);
}

/// Decoding an encoding that `rs_encode_payload` made gives the payload back.
pub proof fn lemma_decode_encode(payload: Seq<u8>, e: Seq<u8>)
    requires
        0 < payload.len() <= u32::MAX,
        is_encoding_of(e, payload),
    ensures
        decoded_payload(e) == Ok::<Seq<u8>, DecodeError>(payload),
{
    lemma_encoding_layout(payload, e);
    let n = payload.len();
    let l = shard_len_for(n);
    let data = data_shards_of(payload);
    let shards = data + rs_parity(2, data);

    let none: Seq<usize> = Seq::empty();
    assert(all_patterns(6, 0, 2) == combos(0, 6, 0) + all_patterns(6, 1, 2));
    assert(combos(0, 6, 0) == seq![none]);
    let pats = all_patterns(6, 0, 2);
    assert(pats[0] == none);
    let cand = erase(shards, none);
    assert forall|i: int| 0 <= i < cand.len() implies (#[trigger] cand[i]) is Some by {
        assert(!none.contains(i as usize));
    }
    crate::reed_solomon::lemma_all_present(cand, cand.len() as int);
    assert(present_have_len(cand, l));
    assert(reconstructible(cand, 4, 2));
    let full = filled(cand, 4, 2);
    assert(full =~= shards);
    assert(shards.take(4) =~= data);
    assert(shards.skip(4) =~= rs_parity(2, data));
    assert(is_codeword(full, 4, 2));
    lemma_data_shards_hold_payload(payload);
    assert(attempt(shards, 4, 2, none, n) == Some(payload));
    assert(recovered(shards, 4, 2, n) == Some(payload));
}

/// A search that succeeds does so with one of the patterns it was given,
/// after every earlier pattern failed.
proof fn lemma_search_some(
    shards: Seq<Seq<u8>>,
    d: nat,
    p: nat,
    pats: Seq<Seq<usize>>,
    len: nat,
)
    requires
        search(shards, d, p, pats, len) is Some,
    ensures
        exists|i: int|
            0 <= i < pats.len() && attempt(shards, d, p, #[trigger] pats[i], len) == search(
                shards,
                d,
                p,
                pats,
                len,
            ) && forall|j: int| 0 <= j < i ==> attempt(shards, d, p, #[trigger] pats[j], len) is None,
    decreases pats.len(),
{
    if attempt(shards, d, p, pats[0], len) is Some {
        assert(attempt(shards, d, p, pats[0], len) == search(shards, d, p, pats, len));
    } else {
        let rest = pats.drop_first();
        lemma_search_some(shards, d, p, rest, len);
        let i = choose|i: int|
            0 <= i < rest.len() && attempt(shards, d, p, #[trigger] rest[i], len) == search(
                shards,
                d,
                p,
                rest,
                len,
            ) && forall|j: int| 0 <= j < i ==> attempt(shards, d, p, #[trigger] rest[j], len) is None;
        assert(pats[i + 1] == rest[i]);
        assert forall|j: int| 0 <= j < i + 1 implies attempt(shards, d, p, #[trigger] pats[j], len)
            is None by {
            if j > 0 {
                assert(pats[j] == rest[j - 1]);
            }
        }
    }
}

/// In the order decoding tries patterns, every pattern with fewer missing
/// shards than the one at `i` comes before it.
proof fn lemma_fewer_first(n: nat, from: nat, max: nat, i: int, s: Seq<usize>)
    requires
        n <= usize::MAX,
        0 <= i < all_patterns(n, from, max).len(),
        from <= s.len() < all_patterns(n, from, max)[i].len(),
        increasing_within(s, 0, n),
    ensures
        exists|j: int| 0 <= j < i && #[trigger] all_patterns(n, from, max)[j] == s,
    decreases max + 1 - from,
{
    let cs = combos(0, n, from);
    let rest = all_patterns(n, from + 1, max);
    assert(all_patterns(n, from, max) == cs + rest);
    crate::combinations::lemma_combos_sound(0, n, from);
    if i < cs.len() {
        assert(cs[i].len() == from);
        assert(false);
    }
    if s.len() == from {
        crate::combinations::lemma_combos_complete(0, n, from, s);
        let j = choose|j: int| 0 <= j < cs.len() && cs[j] == s;
        assert(all_patterns(n, from, max)[j] == s);
    } else {
        assert(rest[i - cs.len()] == all_patterns(n, from, max)[i]);
        lemma_fewer_first(n, from + 1, max, i - cs.len(), s);
        let j = choose|j: int| 0 <= j < i - cs.len() && #[trigger] rest[j] == s;
        assert(all_patterns(n, from, max)[j + cs.len()] == s);
    }
}

/// Every pattern that decoding tries names at most `max` distinct shards
/// among `n`, in increasing order.
proof fn lemma_patterns_bounded(n: nat, from: nat, max: nat, i: int)
    requires
        n <= usize::MAX,
        0 <= i < all_patterns(n, from, max).len(),
    ensures
        all_patterns(n, from, max)[i].len() <= max,
        increasing_within(all_patterns(n, from, max)[i], 0, n),
    decreases max + 1 - from,
{
    let cs = combos(0, n, from);
    assert(all_patterns(n, from, max) == cs + all_patterns(n, from + 1, max));
    if i < cs.len() {
        crate::combinations::lemma_combos_sound(0, n, from);
        assert(cs[i] == all_patterns(n, from, max)[i]);
    } else {
        lemma_patterns_bounded(n, from + 1, max, i - cs.len());
    }
}

/// Whatever decoding returns is the data of a codeword that agrees with the
/// received shards everywhere but at no more shards than there are parity
/// shards, cut to the length the header names; and no choice of fewer
/// shards to set aside gives a payload.
pub proof fn lemma_decode_sound(e: Seq<u8>, payload: Seq<u8>)
    requires
        decoded_payload(e) == Ok::<Seq<u8>, DecodeError>(payload),
    ensures
        exists|missing: Seq<usize>, full: Seq<Seq<u8>>|
            {
                &&& missing.len() <= e[1]
                &&& #[trigger] increasing_within(missing, 0, received_shards(e).len())
                &&& full.len() == received_shards(e).len()
                &&& #[trigger] is_codeword(full, e[0] as nat, e[1] as nat)
                &&& forall|i: int|
                    0 <= i < received_shards(e).len() && !missing.contains(i as usize)
                        ==> #[trigger] full[i] == received_shards(e)[i]
                &&& payload == full.take(e[0] as int).flatten().take(
                    le_value(e.subrange(2, 6)) as int,
                )
                &&& forall|fewer: Seq<usize>|
                    fewer.len() < missing.len() && increasing_within(fewer, 0, received_shards(e).len())
                        ==> #[trigger] attempt(
                        received_shards(e),
                        e[0] as nat,
                        e[1] as nat,
                        fewer,
                        le_value(e.subrange(2, 6)),
                    ) is None
            },
{
    let shards = received_shards(e);
    let d = e[0] as nat;
    let p = e[1] as nat;
    let len = le_value(e.subrange(2, 6));
    let n = shards.len();
    let pats = all_patterns(n, 0, p);
    assert(recovered(shards, d, p, len) == Some(payload));
    lemma_search_some(shards, d, p, pats, len);
    let i = choose|i: int|
        0 <= i < pats.len() && attempt(shards, d, p, #[trigger] pats[i], len) == search(
            shards,
            d,
            p,
            pats,
            len,
        ) && forall|j: int| 0 <= j < i ==> attempt(shards, d, p, #[trigger] pats[j], len) is None;
    let missing = pats[i];
    assert(n <= 510);
    lemma_patterns_bounded(n, 0, p, i);
    let cand = erase(shards, missing);
    let full = filled(cand, d, p);
    assert(attempt(shards, d, p, missing, len) == Some(payload));
    assert forall|k: int| 0 <= k < n && !missing.contains(k as usize) implies #[trigger] full[k]
        == shards[k] by {
        assert(cand[k] == Some(shards[k]));
    }
    assert forall|fewer: Seq<usize>|
        fewer.len() < missing.len() && increasing_within(fewer, 0, n) implies #[trigger] attempt(
        shards,
        d,
        p,
        fewer,
        len,
    ) is None by {
        lemma_fewer_first(n, 0, p, i, fewer);
        let j = choose|j: int| 0 <= j < i && #[trigger] pats[j] == fewer;
        assert(attempt(shards, d, p, pats[j], len) is None);
    }
}


/// The first `len` bytes of the data shards of `c`, laid end to end.
pub open spec fn data_of(c: Seq<Seq<u8>>, data_count: nat, len: nat) -> Seq<u8> {
    c.take(data_count as int).flatten().take(len as int)
}

/// `c` is a codeword nearest to `shards`: no codeword of the same shape
/// differs from `shards` in fewer shards, and it differs from `shards` in no
/// more shards than there are parity shards.
pub open spec fn nearest_codeword(
    c: Seq<Seq<u8>>,
    shards: Seq<Seq<u8>>,
    data_count: nat,
    parity_count: nat,
) -> bool {
    &&& well_shaped(c, data_count + parity_count)
    &&& is_codeword(c, data_count, parity_count)
    &&& shard_distance(c, shards) <= parity_count
    &&& forall|other: Seq<Seq<u8>>|
        well_shaped(other, data_count + parity_count) && is_codeword(
            other,
            data_count,
            parity_count,
        ) ==> shard_distance(c, shards) <= #[trigger] shard_distance(other, shards)
}

/// The positions below `k` at which `a` and `b` differ, in increasing
/// order.
pub open spec fn differing_positions(a: Seq<Seq<u8>>, b: Seq<Seq<u8>>, k: int) -> Seq<usize>
    decreases k,
{
    if k <= 0 {
        Seq::empty()
    } else if a[k - 1] != b[k - 1] {
        differing_positions(a, b, k - 1).push((k - 1) as usize)
    } else {
        differing_positions(a, b, k - 1)
    }
}

/// The positions of the parity shards among `total` shards, the first
/// `data_count` being data shards.
pub open spec fn parity_positions(data_count: nat, total: nat) -> Seq<usize> {
    Seq::new((total - data_count) as nat, |j: int| (data_count + j) as usize)
}

/// The positions at which two shard sequences differ are as many as their
/// distance, increasing, and exactly those at which they differ.
proof fn lemma_differing_positions(a: Seq<Seq<u8>>, b: Seq<Seq<u8>>, k: int)
    requires
        0 <= k <= usize::MAX,
    ensures
        differing_positions(a, b, k).len() == differing_before(a, b, k),
        increasing_within(differing_positions(a, b, k), 0, k as nat),
        forall|i: int|
            0 <= i < k ==> (#[trigger] differing_positions(a, b, k).contains(i as usize) <==> a[i]
                != b[i]),
    decreases k,
{
    if k > 0 {
        lemma_differing_positions(a, b, k - 1);
        let prev = differing_positions(a, b, k - 1);
        let cur = differing_positions(a, b, k);
        assert forall|i: int| 0 <= i < k implies (#[trigger] cur.contains(i as usize) <==> a[i]
            != b[i]) by {
            if i < k - 1 {
                if prev.contains(i as usize) {
                    let j = choose|j: int| 0 <= j < prev.len() && prev[j] == i as usize;
                    assert(cur[j] == prev[j]);
                }
                if cur.contains(i as usize) {
                    let j = choose|j: int| 0 <= j < cur.len() && cur[j] == i as usize;
                    if j < prev.len() {
                        assert(cur[j] == prev[j]);
                    }
                }
            } else {
                if a[k - 1] != b[k - 1] {
                    assert(cur[cur.len() - 1] == (k - 1) as usize);
                } else {
                    if cur.contains(i as usize) {
                        let j = choose|j: int| 0 <= j < cur.len() && cur[j] == i as usize;
                        assert(cur[j] == prev[j]);
                    }
                }
            }
        }
    }
}

/// Every increasing choice of at most `max` shards among `n`, from `from`
/// shards on, is among the patterns that decoding tries.
proof fn lemma_pattern_listed(n: nat, from: nat, max: nat, s: Seq<usize>)
    requires
        n <= usize::MAX,
        increasing_within(s, 0, n),
        from <= s.len() <= max,
    ensures
        exists|i: int|
            0 <= i < all_patterns(n, from, max).len() && #[trigger] all_patterns(n, from, max)[i]
                == s,
    decreases max + 1 - from,
{
    let cs = combos(0, n, from);
    let rest = all_patterns(n, from + 1, max);
    assert(all_patterns(n, from, max) == cs + rest);
    if s.len() == from {
        crate::combinations::lemma_combos_complete(0, n, from, s);
        let j = choose|j: int| 0 <= j < cs.len() && cs[j] == s;
        assert(all_patterns(n, from, max)[j] == s);
    } else {
        lemma_pattern_listed(n, from + 1, max, s);
        let j = choose|j: int| 0 <= j < rest.len() && #[trigger] rest[j] == s;
        assert(all_patterns(n, from, max)[j + cs.len()] == s);
    }
}


/// The data shards of a codeword whose shards all have the length `len`
/// hold `data_count * len` bytes.
proof fn lemma_data_len(c: Seq<Seq<u8>>, data_count: nat, len: nat)
    requires
        len > 0,
        data_count <= c.len(),
        forall|i: int| 0 <= i < c.len() ==> (#[trigger] c[i]).len() == len,
    ensures
        c.take(data_count as int).flatten().len() == data_count * len,
{
    let t = c.take(data_count as int);
    assert forall|i: int| 0 <= i < t.len() implies (#[trigger] t[i]).len() == len by {
        assert(t[i] == c[i]);
    }
    lemma_flatten_uniform(t, len);
}

/// Where the search first succeeds at pattern `i`, having learnt of every
/// earlier pattern what reconstruction does, the codeword it finds is
/// nearest to the shards, and it is the only codeword within half the
/// parity count of them.
proof fn lemma_first_success(sv: Seq<Seq<u8>>, d: nat, q: nat, pl: nat, i: int)
    requires
        well_shaped(sv, d + q),
        d + q <= 256,
        0 <= i < all_patterns(sv.len(), 0, q).len(),
        forall|k: int|
            0 <= k < i ==> restores(erase(sv, #[trigger] all_patterns(sv.len(), 0, q)[k]), d, q)
                && attempt(sv, d, q, all_patterns(sv.len(), 0, q)[k], pl) is None,
        attempt(sv, d, q, all_patterns(sv.len(), 0, q)[i], pl) is Some,
        well_shaped(filled(erase(sv, all_patterns(sv.len(), 0, q)[i]), d, q), d + q),
        filled(erase(sv, all_patterns(sv.len(), 0, q)[i]), d, q)[0].len() == sv[0].len(),
        only_codeword_within(filled(erase(sv, all_patterns(sv.len(), 0, q)[i]), d, q), d, q),
    ensures
        nearest_codeword(filled(erase(sv, all_patterns(sv.len(), 0, q)[i]), d, q), sv, d, q),
        attempt(sv, d, q, all_patterns(sv.len(), 0, q)[i], pl) == Some(
            data_of(filled(erase(sv, all_patterns(sv.len(), 0, q)[i]), d, q), d, pl),
        ),
        forall|other: Seq<Seq<u8>>|
            well_shaped(other, d + q) && is_codeword(other, d, q) && 2 * #[trigger] shard_distance(
                other,
                sv,
            ) <= q ==> other == filled(erase(sv, all_patterns(sv.len(), 0, q)[i]), d, q),
{
    let n = sv.len();
    let pats = all_patterns(n, 0, q);
    let m = pats[i];
    let cand = erase(sv, m);
    let c = filled(cand, d, q);
    let l = sv[0].len();
    lemma_patterns_bounded(n, 0, q, i);
    assert forall|k: int| 0 <= k < n && #[trigger] c[k] != sv[k] implies m.contains(k as usize) by {
        if !m.contains(k as usize) {
            assert(cand[k] == Some(sv[k]));
        }
    }
    crate::reed_solomon::lemma_distance_within(c, sv, m, n as int);
    assert(shard_distance(c, sv) <= m.len());
    lemma_data_len(c, d, l);
    assert(pl <= d * l);
    assert forall|other: Seq<Seq<u8>>|
        well_shaped(other, d + q) && is_codeword(other, d, q) implies shard_distance(c, sv)
        <= #[trigger] shard_distance(other, sv) by {
        if shard_distance(other, sv) < shard_distance(c, sv) {
            let dp = differing_positions(other, sv, n as int);
            lemma_differing_positions(other, sv, n as int);
            lemma_fewer_first(n, 0, q, i, dp);
            let j = choose|j: int| 0 <= j < i && #[trigger] pats[j] == dp;
            assert(restores(erase(sv, pats[j]), d, q));
            let cand2 = erase(sv, dp);
            assert forall|k: int| 0 <= k < n implies ((#[trigger] cand2[k]) is Some <==> other[k]
                == sv[k]) by {
                assert(dp.contains(k as usize) <==> other[k] != sv[k]);
            }
            crate::reed_solomon::lemma_present_where_equal(cand2, other, sv, n as int);
            assert(count_present(cand2) >= d);
            assert(present_have_len(cand2, l));
            assert(reconstructible(cand2, d, q));
            assert(agrees_with(cand2, other));
            assert(rs_reconstructed(d, q, cand2) == other);
            assert(filled(cand2, d, q) =~= other);
            if forall|k: int| 0 <= k < n ==> #[trigger] other[k] != sv[k] {
                crate::reed_solomon::lemma_distance_everywhere(other, sv, n as int);
                assert(false);
            }
            let k0 = choose|k: int| 0 <= k < n && !(#[trigger] other[k] != sv[k]);
            assert(other[k0].len() == l);
            lemma_data_len(other, d, l);
            assert(attempt(sv, d, q, dp, pl) is Some);
            assert(false);
        }
    }
    assert(nearest_codeword(c, sv, d, q));
    assert forall|other: Seq<Seq<u8>>|
        well_shaped(other, d + q) && is_codeword(other, d, q) && 2 * #[trigger] shard_distance(
            other,
            sv,
        ) <= q implies other == c by {
        crate::reed_solomon::lemma_distance_triangle(other, sv, c, n as int);
        crate::reed_solomon::lemma_distance_symmetric(sv, c, n as int);
        assert(shard_distance(other, c) <= q);
    }
}

/// Where every pattern was tried and failed, having learnt of each what
/// reconstruction does, the data shards are too short for the payload: the
/// pattern that sets all parity shards aside always gives a codeword.
proof fn lemma_exhausted(sv: Seq<Seq<u8>>, d: nat, q: nat, pl: nat)
    requires
        well_shaped(sv, d + q),
        d > 0,
        d + q <= 256,
        forall|k: int|
            0 <= k < all_patterns(sv.len(), 0, q).len() ==> restores(
                erase(sv, #[trigger] all_patterns(sv.len(), 0, q)[k]),
                d,
                q,
            ) && attempt(sv, d, q, all_patterns(sv.len(), 0, q)[k], pl) is None,
    ensures
        pl > d * sv[0].len(),
{
    let n = sv.len();
    let l = sv[0].len();
    let pp = parity_positions(d, n);
    assert(increasing_within(pp, 0, n));
    lemma_pattern_listed(n, 0, q, pp);
    let k = choose|k: int|
        0 <= k < all_patterns(n, 0, q).len() && #[trigger] all_patterns(n, 0, q)[k] == pp;
    assert(restores(erase(sv, all_patterns(n, 0, q)[k]), d, q));
    let cand = erase(sv, pp);
    assert forall|i: int| 0 <= i < n implies ((#[trigger] cand[i]) is Some <==> i < d) by {
        if i >= d {
            assert(pp[i - d] == i as usize);
        } else {
            if pp.contains(i as usize) {
                let j = choose|j: int| 0 <= j < pp.len() && pp[j] == i as usize;
                assert(false);
            }
        }
    }
    crate::reed_solomon::lemma_present_prefix(cand, d, n as int);
    assert(count_present(cand) == d);
    assert(present_have_len(cand, l));
    assert(reconstructible(cand, d, q));
    let rec = rs_reconstructed(d, q, cand);
    assert(agrees_with(cand, rec));
    assert(filled(cand, d, q) =~= rec);
    assert forall|j: int| 0 <= j < d implies (#[trigger] rec.take(d as int)[j]).len() == l by {
        assert(cand[j] is Some);
    }
    lemma_flatten_uniform(rec.take(d as int), l);
    if pl <= d * l {
        assert(attempt(sv, d, q, pp, pl) is Some);
    }
}


} // verus!
