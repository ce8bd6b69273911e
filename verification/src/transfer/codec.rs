//! The outer codecs of a transfer: zstd compression of the content and the
//! Reed-Solomon erasure code over groups of shards.

use vstd::prelude::*;
use crate::bytes::byte_views;
use crate::transfer::geometry::SHARD_SIZE;

verus! {

#[verifier::external_type_specification]
#[verifier::external_body]
pub struct ExErasureError(reed_solomon_erasure::Error);

/// What `zstd::stream::encode_all` at `level` makes of `data`, or `None` when
/// it reports an error.
pub uninterp spec fn zstd_encode_spec(data: Seq<u8>, level: i32) -> Option<Seq<u8>>;

/// What `zstd::stream::decode_all` makes of `data`, or `None` when it
/// reports an error.
pub uninterp spec fn zstd_decode_spec(data: Seq<u8>) -> Option<Seq<u8>>;

/// The parity shards that `reed_solomon_erasure::galois_8::ReedSolomon`
/// computes for these data shards.
pub uninterp spec fn erasure_parity_spec(
    data_shards: usize,
    parity_shards: usize,
    data: Seq<Seq<u8>>,
) -> Seq<Seq<u8>>;

/// All shards as `reed_solomon_erasure::galois_8::ReedSolomon::reconstruct`
/// fills them in from the ones present.
pub uninterp spec fn erasure_reconstruct_spec(
    data_shards: usize,
    parity_shards: usize,
    slots: Seq<Option<Seq<u8>>>,
) -> Seq<Seq<u8>>;

/// The bytes of each shard slot that holds one.
pub open spec fn slot_views(slots: Seq<Option<Vec<u8>>>) -> Seq<Option<Seq<u8>>> {
    slots.map_values(
        |s: Option<Vec<u8>>|
            match s {
                Some(v) => Some(v@),
                None => None,
            },
    )
}

/// Number of slots that hold a shard.
pub open spec fn present_count(slots: Seq<Option<Seq<u8>>>) -> nat
    decreases slots.len(),
{
    if slots.len() == 0 {
        0
    } else {
        present_count(slots.drop_last()) + if slots.last() is Some {
            1nat
        } else {
            0nat
        }
    }
}

/// The shards whose `keep` flag is set; the others missing.
pub open spec fn masked(shards: Seq<Seq<u8>>, keep: Seq<bool>) -> Seq<Option<Seq<u8>>> {
    Seq::new(
        shards.len(),
        |i: int|
            if keep[i] {
                Some(shards[i])
            } else {
                None
            },
    )
}

/// Every slot that holds a shard holds `SHARD_SIZE` bytes.
pub open spec fn slots_sized(slots: Seq<Option<Seq<u8>>>) -> bool {
    forall|i: int|
        0 <= i < slots.len() ==> ((#[trigger] slots[i]) matches Some(s) ==> s.len() == SHARD_SIZE)
}

/// `zstd::stream::encode_all(data, level)`. Claimed: the outcome is
/// `zstd_encode_spec` of the input and level, and the compressed bytes
/// decompress, by `zstd::stream::decode_all`, to the input (zstd is
/// lossless). The compressed bytes themselves are only named.
#[verifier::external_body]
pub(crate) fn zstd_compress(data: &[u8], level: i32) -> (res: Result<Vec<u8>, std::io::Error>)
    ensures
        match res {
            Ok(c) => zstd_encode_spec(data@, level) == Some(c@) && zstd_decode_spec(c@) == Some(
                data@,
            ),
            Err(_) => zstd_encode_spec(data@, level) is None,
        },
{
    zstd::stream::encode_all(std::io::Cursor::new(data), level)
}

/// `zstd::stream::decode_all(data)`. Claimed: the outcome is
/// `zstd_decode_spec` of the input.
#[verifier::external_body]
pub(crate) fn zstd_decompress(data: &[u8]) -> (res: Result<Vec<u8>, std::io::Error>)
    ensures
        match res {
            Ok(d) => zstd_decode_spec(data@) == Some(d@),
            Err(_) => zstd_decode_spec(data@) is None,
        },
{
    zstd::stream::decode_all(std::io::Cursor::new(data))
}

/// `ReedSolomon::new(data_shards, parity_shards)` then `encode(shards)` over
/// GF(2^8). Claimed, from the crate's source and documentation: with equal,
/// non-empty shards of the right number both succeed; the data shards stay,
/// the parity shards become `erasure_parity_spec` of the data shards; and
/// `reconstruct` gives every shard back from any `data_shards` of them.
#[verifier::external_body]
pub(crate) fn erasure_encode(
    data_shards: usize,
    parity_shards: usize,
    shards: &mut Vec<Vec<u8>>,
) -> (res: Result<(), reed_solomon_erasure::Error>)
    requires
        1 <= data_shards,
        1 <= parity_shards,
        data_shards + parity_shards <= 256,
        old(shards)@.len() == data_shards + parity_shards,
        forall|i: int| 0 <= i < old(shards)@.len() ==> (#[trigger] old(shards)@[i])@.len() == SHARD_SIZE,
    ensures
        res is Ok,
        final(shards)@.len() == old(shards)@.len(),
        byte_views(final(shards)@).subrange(0, data_shards as int) == byte_views(
            old(shards)@,
        ).subrange(0, data_shards as int),
        byte_views(final(shards)@).subrange(data_shards as int, final(shards)@.len() as int)
            == erasure_parity_spec(
            data_shards,
            parity_shards,
            byte_views(old(shards)@).subrange(0, data_shards as int),
        ),
        forall|i: int| 0 <= i < final(shards)@.len() ==> (#[trigger] final(shards)@[i])@.len() == SHARD_SIZE,
        forall|keep: Seq<bool>|
            keep.len() == data_shards + parity_shards && present_count(
                #[trigger] masked(byte_views(final(shards)@), keep),
            ) >= data_shards ==> erasure_reconstruct_spec(
                data_shards,
                parity_shards,
                masked(byte_views(final(shards)@), keep),
            ) == byte_views(final(shards)@),
{
    let codec = reed_solomon_erasure::galois_8::ReedSolomon::new(data_shards, parity_shards)?;
    codec.encode(shards)
}

/// `ReedSolomon::new(data_shards, parity_shards)` then `reconstruct(slots)`
/// over GF(2^8). Claimed, from the crate's source: with the right number of
/// slots, at least `data_shards` of them filled and all filled ones of equal
/// non-empty length, both succeed; every slot then holds a shard of that
/// length, the filled ones unchanged, and the shards are
/// `erasure_reconstruct_spec` of the slots.
#[verifier::external_body]
pub(crate) fn erasure_reconstruct(
    data_shards: usize,
    parity_shards: usize,
    slots: &mut Vec<Option<Vec<u8>>>,
) -> (res: Result<(), reed_solomon_erasure::Error>)
    requires
        1 <= data_shards,
        1 <= parity_shards,
        data_shards + parity_shards <= 256,
        old(slots)@.len() == data_shards + parity_shards,
        slots_sized(slot_views(old(slots)@)),
        present_count(slot_views(old(slots)@)) >= data_shards,
    ensures
        res is Ok,
        erasure_reconstruct_spec(data_shards, parity_shards, slot_views(old(slots)@)).len()
            == old(slots)@.len(),
        slot_views(final(slots)@) == erasure_reconstruct_spec(
            data_shards,
            parity_shards,
            slot_views(old(slots)@),
        ).map_values(|s: Seq<u8>| Some(s)),
        forall|i: int|
            0 <= i < old(slots)@.len() && (#[trigger] slot_views(old(slots)@)[i]) is Some
                ==> slot_views(final(slots)@)[i] == slot_views(old(slots)@)[i],
        slots_sized(slot_views(final(slots)@)),
{
    let codec = reed_solomon_erasure::galois_8::ReedSolomon::new(data_shards, parity_shards)?;
    codec.reconstruct(slots)
}

} // verus!
