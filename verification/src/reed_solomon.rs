//! A Reed-Solomon erasure code over GF(2^8), as the `reed_solomon_erasure`
//! crate computes it.
//!
//! The arithmetic of the code is the outside crate's: this module states
//! what its calls do to the shards that are handed to them, and gives a name
//! to the bytes that the outside crate computes.
use vstd::prelude::*;

use reed_solomon_erasure::galois_8;

verus! {

#[verifier::external_type_specification]
#[verifier::external_body]
pub struct ExRsError(reed_solomon_erasure::Error);

/// The parity shards that the code with `parity_count` parity shards computes
/// for the data shards `data` (all of one length).
pub uninterp spec fn rs_parity(parity_count: nat, data: Seq<Seq<u8>>) -> Seq<Seq<u8>>;

/// The shards that reconstruction yields for `shards`, where `None` marks a
/// missing shard, under the code with `data_count` data shards and
/// `parity_count` parity shards.
pub uninterp spec fn rs_reconstructed(
    data_count: nat,
    parity_count: nat,
    shards: Seq<Option<Seq<u8>>>,
) -> Seq<Seq<u8>>;

/// `shards` has `total` entries, all of one positive length.
pub open spec fn well_shaped(shards: Seq<Seq<u8>>, total: nat) -> bool {
    &&& shards.len() == total
    &&& total > 0
    &&& shards[0].len() > 0
    &&& forall|i: int| 0 <= i < shards.len() ==> (#[trigger] shards[i]).len() == shards[0].len()
}

/// The number of shards among the first `k` of `shards` that are present.
pub open spec fn present_among(shards: Seq<Option<Seq<u8>>>, k: int) -> nat
    decreases k,
{
    if k <= 0 {
        0
    } else {
        present_among(shards, k - 1) + if shards[k - 1] is Some {
            1nat
        } else {
            0nat
        }
    }
}

/// The number of shards in `shards` that are present.
pub open spec fn count_present(shards: Seq<Option<Seq<u8>>>) -> nat {
    present_among(shards, shards.len() as int)
}

/// The number of positions among the first `k` at which `a` and `b` hold
/// different shards.
pub open spec fn differing_before(a: Seq<Seq<u8>>, b: Seq<Seq<u8>>, k: int) -> nat
    decreases k,
{
    if k <= 0 {
        0
    } else {
        differing_before(a, b, k - 1) + if a[k - 1] != b[k - 1] {
            1nat
        } else {
            0nat
        }
    }
}

/// The number of shards at which `a` and `b` differ (for sequences of one
/// length).
pub open spec fn shard_distance(a: Seq<Seq<u8>>, b: Seq<Seq<u8>>) -> nat {
    differing_before(a, b, a.len() as int)
}

/// Every shard of `cand` that is present equals the shard of `c` at its
/// position.
pub open spec fn agrees_with(cand: Seq<Option<Seq<u8>>>, c: Seq<Seq<u8>>) -> bool {
    &&& cand.len() == c.len()
    &&& forall|i: int| 0 <= i < cand.len() && (#[trigger] cand[i]) is Some ==> cand[i]->0 == c[i]
}

/// All shards of `shards` that are present have the length `len`.
pub open spec fn present_have_len(shards: Seq<Option<Seq<u8>>>, len: nat) -> bool {
    forall|i: int|
        0 <= i < shards.len() && (#[trigger] shards[i]) is Some ==> shards[i]->0.len() == len
}

/// `shards` can be reconstructed under a code with `data_count` data shards
/// and `parity_count` parity shards: it has one entry per shard, the shards
/// that are present all have one positive length, and at least `data_count`
/// of them are present.
pub open spec fn reconstructible(
    shards: Seq<Option<Seq<u8>>>,
    data_count: nat,
    parity_count: nat,
) -> bool {
    &&& shards.len() == data_count + parity_count
    &&& count_present(shards) >= data_count
    &&& exists|len: nat| len > 0 && present_have_len(shards, len)
}

/// The shards of `shards` form a codeword: the shards after the first
/// `data_count` are the parity of the first `data_count`.
pub open spec fn is_codeword(shards: Seq<Seq<u8>>, data_count: nat, parity_count: nat) -> bool {
    shards.skip(data_count as int) == rs_parity(parity_count, shards.take(data_count as int))
}

/// `shards` is the only codeword of the code that lies within
/// `parity_count` shards of it: any codeword of the same shape that differs
/// from it in at most `parity_count` shards is `shards` itself.
pub open spec fn only_codeword_within(
    shards: Seq<Seq<u8>>,
    data_count: nat,
    parity_count: nat,
) -> bool {
    forall|c: Seq<Seq<u8>>|
        well_shaped(c, data_count + parity_count) && is_codeword(c, data_count, parity_count)
            && #[trigger] shard_distance(c, shards) <= parity_count ==> c == shards
}

/// What reconstruction of `cand` does, as the code guarantees it, when
/// `cand` can be reconstructed: a codeword that agrees with every present
/// shard is what comes back, and when exactly `data_count` shards are
/// present what comes back is a codeword that agrees with them.
pub open spec fn restores(cand: Seq<Option<Seq<u8>>>, data_count: nat, parity_count: nat) -> bool {
    reconstructible(cand, data_count, parity_count) ==> {
        &&& forall|c: Seq<Seq<u8>>|
            well_shaped(c, data_count + parity_count) && is_codeword(c, data_count, parity_count)
                && #[trigger] agrees_with(cand, c) ==> rs_reconstructed(
                data_count,
                parity_count,
                cand,
            ) == c
        &&& count_present(cand) == data_count ==> {
            &&& is_codeword(rs_reconstructed(data_count, parity_count, cand), data_count, parity_count)
            &&& agrees_with(cand, rs_reconstructed(data_count, parity_count, cand))
        }
    }
}

/// Holds a `reed_solomon_erasure::galois_8::ReedSolomon`. That type is
/// generic over a field trait of the outside crate and cannot be declared
/// here, so the value is kept in a field whose contents are opaque to the
/// proofs.
#[verifier::external_body]
struct RsHandle {
    rs: galois_8::ReedSolomon,
}

/// A Reed-Solomon erasure codec over GF(2^8) with a fixed number of data and
/// parity shards.
///
/// The counts are kept beside the outside codec; `new` is the only way to
/// build a value, and it builds the outside codec from the same counts.
pub struct ErasureCodec {
    data_shards: usize,
    parity_shards: usize,
    handle: RsHandle,
}

/// Why an erasure codec could not be built.
#[derive(Debug, Clone, Copy, PartialEq, Eq)]
pub enum CodecError {
    /// There are no data shards, no parity shards, or more than 256 shards.
    InvalidShardCounts,
}

/// `reed_solomon_erasure::galois_8::ReedSolomon::new`: its source returns
/// an error exactly when there are no data shards, no parity shards, or more
/// shards than GF(2^8) has elements (256), and a codec otherwise.
#[verifier::external_body]
fn rs_new(data_shards: usize, parity_shards: usize) -> (r: Result<
    RsHandle,
    reed_solomon_erasure::Error,
>)
    requires
        data_shards + parity_shards <= usize::MAX,
    ensures
        r is Ok <==> (data_shards > 0 && parity_shards > 0 && data_shards + parity_shards <= 256),
{
    match galois_8::ReedSolomon::new(data_shards, parity_shards) {
        Ok(rs) => Ok(RsHandle { rs }),
        Err(e) => Err(e),
    }
}

/// `ReedSolomon::encode`: its source checks that there is one shard per
/// data and parity shard and that all shards have one positive length; if
/// not it returns an error before it writes anything. Otherwise it leaves
/// the data shards as they are and overwrites each parity shard, in place,
/// with the parity of the data shards.
#[verifier::external_body]
pub(crate) fn rs_encode(codec: &ErasureCodec, shards: &mut Vec<Vec<u8>>) -> (r: Result<
    (),
    reed_solomon_erasure::Error,
>)
    ensures
        r is Ok <==> well_shaped(old(shards).deep_view(), codec.total_count()),
        r is Err ==> final(shards).deep_view() == old(shards).deep_view(),
        r is Ok ==> final(shards).deep_view() == old(shards).deep_view().take(
            codec.data_count() as int,
        ) + rs_parity(
            codec.parity_count(),
            old(shards).deep_view().take(codec.data_count() as int),
        ),
        r is Ok ==> well_shaped(final(shards).deep_view(), codec.total_count()),
        r is Ok ==> final(shards).deep_view()[0].len() == old(shards).deep_view()[0].len(),
{
    codec.handle.rs.encode(shards)
}

/// `ReedSolomon::reconstruct` on shards held as `Option<Vec<u8>>`: its
/// source returns an error, and touches nothing, unless there is one entry
/// per shard, every present shard has one positive length and at least as
/// many shards as there are data shards are present. When every shard is
/// present it returns at once. Otherwise it fills every missing entry with a
/// shard of that length, computed from the present ones, and leaves the
/// present ones as they are.
///
/// The missing shards are computed from the first `data_count` present
/// ones: the rows of the code's systematic matrix (built from a Vandermonde
/// matrix) that belong to them are inverted to recover the data shards, and
/// the missing parity shards are the parity of those. Any `data_count` rows
/// of that matrix are invertible. So when a codeword agrees with every
/// present shard, that codeword is what comes back; and when exactly
/// `data_count` shards are present, what comes back is the codeword that
/// agrees with them.
#[verifier::external_body]
pub(crate) fn rs_reconstruct(codec: &ErasureCodec, shards: &mut Vec<Option<Vec<u8>>>) -> (r: Result<
    (),
    reed_solomon_erasure::Error,
>)
    ensures
        r is Ok <==> reconstructible(
            old(shards).deep_view(),
            codec.data_count(),
            codec.parity_count(),
        ),
        r is Err ==> final(shards).deep_view() == old(shards).deep_view(),
        r is Ok ==> final(shards).deep_view().len() == old(shards).deep_view().len(),
        r is Ok ==> rs_reconstructed(
            codec.data_count(),
            codec.parity_count(),
            old(shards).deep_view(),
        ).len() == old(shards).deep_view().len(),
        r is Ok ==> forall|i: int|
            0 <= i < old(shards).deep_view().len() ==> (#[trigger] final(shards).deep_view()[i])
                == Some(
                rs_reconstructed(
                    codec.data_count(),
                    codec.parity_count(),
                    old(shards).deep_view(),
                )[i],
            ),
        r is Ok ==> forall|i: int|
            0 <= i < old(shards).deep_view().len() && (#[trigger] old(shards).deep_view()[i]) is Some
                ==> final(shards).deep_view()[i] == old(shards).deep_view()[i],
        r is Ok ==> forall|len: nat|
            present_have_len(old(shards).deep_view(), len) ==> present_have_len(
                #[trigger] final(shards).deep_view(),
                len,
            ),
        r is Ok ==> forall|c: Seq<Seq<u8>>|
            well_shaped(c, codec.total_count()) && is_codeword(
                c,
                codec.data_count(),
                codec.parity_count(),
            ) && #[trigger] agrees_with(old(shards).deep_view(), c) ==> rs_reconstructed(
                codec.data_count(),
                codec.parity_count(),
                old(shards).deep_view(),
            ) == c,
        r is Ok && count_present(old(shards).deep_view()) == codec.data_count() ==> is_codeword(
            rs_reconstructed(codec.data_count(), codec.parity_count(), old(shards).deep_view()),
            codec.data_count(),
            codec.parity_count(),
        ),
{
    codec.handle.rs.reconstruct(shards)
}

/// `ReedSolomon::verify`: its source returns an error unless there is one
/// shard per data and parity shard, all of one positive length; otherwise it
/// computes the parity of the data shards and answers whether it equals the
/// parity shards that were given.
///
/// Any `data_count` rows of the code's matrix are invertible (reconstruction
/// relies on it), so two codewords that agree in `data_count` shards are
/// equal: a codeword differs from every other codeword in more than
/// `parity_count` shards.
#[verifier::external_body]
pub(crate) fn rs_verify(codec: &ErasureCodec, shards: &Vec<Vec<u8>>) -> (r: Result<
    bool,
    reed_solomon_erasure::Error,
>)
    ensures
        r is Ok <==> well_shaped(shards.deep_view(), codec.total_count()),
        r matches Ok(b) ==> (b <==> is_codeword(
            shards.deep_view(),
            codec.data_count(),
            codec.parity_count(),
        )),
        r matches Ok(b) ==> (b ==> only_codeword_within(
            shards.deep_view(),
            codec.data_count(),
            codec.parity_count(),
        )),
{
    codec.handle.rs.verify(shards)
}

impl ErasureCodec {
    /// The number of data shards.
    pub closed spec fn data_count(&self) -> nat {
        self.data_shards as nat
    }

    /// The number of parity shards.
    pub closed spec fn parity_count(&self) -> nat {
        self.parity_shards as nat
    }

    /// The number of shards in all.
    pub open spec fn total_count(&self) -> nat {
        self.data_count() + self.parity_count()
    }

    /// A codec with `data_shards` data shards and `parity_shards` parity
    /// shards; an error when either is zero or there are more than 256 shards.
    pub fn new(data_shards: usize, parity_shards: usize) -> (r: Result<Self, CodecError>)
        requires
            data_shards + parity_shards <= usize::MAX,
        ensures
            r is Ok <==> (data_shards > 0 && parity_shards > 0 && data_shards + parity_shards
                <= 256),
            r matches Ok(c) ==> c.data_count() == data_shards && c.parity_count()
                == parity_shards,
    {
        match rs_new(data_shards, parity_shards) {
            Ok(handle) => Ok(ErasureCodec { data_shards, parity_shards, handle }),
            Err(_) => Err(CodecError::InvalidShardCounts),
        }
    }

    /// The number of data shards.
    pub fn data_shard_count(&self) -> (r: usize)
        ensures
            r == self.data_count(),
    {
        self.data_shards
    }

    /// The number of parity shards.
    pub fn parity_shard_count(&self) -> (r: usize)
        ensures
            r == self.parity_count(),
    {
        self.parity_shards
    }
}


/// Where a sequence of shards is present exactly at the positions at which
/// `a` and `b` agree, the present shards and the differing positions among
/// the first `k` add up to `k`.
pub(crate) proof fn lemma_present_where_equal(
    s: Seq<Option<Seq<u8>>>,
    a: Seq<Seq<u8>>,
    b: Seq<Seq<u8>>,
    k: int,
)
    requires
        0 <= k <= s.len(),
        k <= a.len(),
        k <= b.len(),
        forall|i: int| 0 <= i < k ==> ((#[trigger] s[i]) is Some <==> a[i] == b[i]),
    ensures
        present_among(s, k) + differing_before(a, b, k) == k,
    decreases k,
{
    if k > 0 {
        lemma_present_where_equal(s, a, b, k - 1);
    }
}

/// Where a sequence of shards is present exactly at the positions below
/// `d`, the first `k` of them hold `min(k, d)` present shards.
pub(crate) proof fn lemma_present_prefix(s: Seq<Option<Seq<u8>>>, d: nat, k: int)
    requires
        0 <= k <= s.len(),
        forall|i: int| 0 <= i < k ==> ((#[trigger] s[i]) is Some <==> i < d),
    ensures
        present_among(s, k) == if k <= d {
            k as nat
        } else {
            d
        },
    decreases k,
{
    if k > 0 {
        lemma_present_prefix(s, d, k - 1);
    }
}

/// Where the first `k` shards are all present, all `k` are counted.
pub(crate) proof fn lemma_all_present(s: Seq<Option<Seq<u8>>>, k: int)
    requires
        0 <= k <= s.len(),
        forall|i: int| 0 <= i < k ==> (#[trigger] s[i]) is Some,
    ensures
        present_among(s, k) == k,
    decreases k,
{
    if k > 0 {
        lemma_all_present(s, k - 1);
    }
}

/// The distance between shard sequences does not depend on their order.
pub proof fn lemma_distance_symmetric(a: Seq<Seq<u8>>, b: Seq<Seq<u8>>, k: int)
    ensures
        differing_before(a, b, k) == differing_before(b, a, k),
    decreases k,
{
    if k > 0 {
        lemma_distance_symmetric(a, b, k - 1);
    }
}

/// The distance between shard sequences obeys the triangle inequality.
pub proof fn lemma_distance_triangle(a: Seq<Seq<u8>>, b: Seq<Seq<u8>>, c: Seq<Seq<u8>>, k: int)
    ensures
        differing_before(a, c, k) <= differing_before(a, b, k) + differing_before(b, c, k),
    decreases k,
{
    if k > 0 {
        lemma_distance_triangle(a, b, c, k - 1);
    }
}

/// Sequences that differ at each of the first `k` positions are `k` apart
/// there.
pub(crate) proof fn lemma_distance_everywhere(a: Seq<Seq<u8>>, b: Seq<Seq<u8>>, k: int)
    requires
        k >= 0,
        forall|i: int| 0 <= i < k ==> #[trigger] a[i] != b[i],
    ensures
        differing_before(a, b, k) == k,
    decreases k,
{
    if k > 0 {
        lemma_distance_everywhere(a, b, k - 1);
    }
}

/// Sequences that differ only at positions that `m` lists are at most
/// `m.len()` apart.
pub(crate) proof fn lemma_distance_within(
    a: Seq<Seq<u8>>,
    b: Seq<Seq<u8>>,
    m: Seq<usize>,
    k: int,
)
    requires
        0 <= k <= usize::MAX,
        forall|i: int| 0 <= i < k && #[trigger] a[i] != b[i] ==> m.contains(i as usize),
    ensures
        differing_before(a, b, k) <= m.len(),
    decreases k,
{
    if k > 0 {
        let last = (k - 1) as usize;
        if a[k - 1] != b[k - 1] {
            let idx = choose|idx: int| 0 <= idx < m.len() && m[idx] == last;
            let rest = m.remove(idx);
            assert forall|i: int| 0 <= i < k - 1 && #[trigger] a[i] != b[i] implies rest.contains(
                i as usize,
            ) by {
                assert(m.contains(i as usize));
                let j = choose|j: int| 0 <= j < m.len() && m[j] == i as usize;
                assert(j != idx);
                if j < idx {
                    assert(rest[j] == m[j]);
                } else {
                    assert(rest[j - 1] == m[j]);
                }
            }
            lemma_distance_within(a, b, rest, k - 1);
        } else {
            lemma_distance_within(a, b, m, k - 1);
        }
    }
}


/// A shard sequence is at distance zero from itself.
pub proof fn lemma_distance_self(a: Seq<Seq<u8>>, k: int)
    ensures
        differing_before(a, a, k) == 0,
    decreases k,
{
    if k > 0 {
        lemma_distance_self(a, k - 1);
    }
}

} // verus!
