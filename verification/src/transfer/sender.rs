//! Splitting a file or message into transfer packets.

use vstd::prelude::*;
use crate::bytes::{append_bytes, byte_views, copy_bytes, lemma_byte_views_at};
use crate::protocol::MAX_PAYLOAD;
use crate::text::string_bytes;
use crate::transfer::codec::{erasure_encode, erasure_parity_spec, zstd_compress, zstd_encode_spec};
use crate::transfer::digest::{sha256, sha256_spec};
use crate::transfer::geometry::{ceil_div, geometry_spec, shard_geometry, SHARD_SIZE};
use crate::transfer::metadata::{
    safe_file_name, safe_name_spec, transfer_id_at, transfer_id_spec, truncate_spec, truncate_utf8,
    unix_nanos,
};
use crate::transfer::packet::{
    encode_end, encode_inline, encode_manifest, encode_shard, end_spec, inline_spec, manifest_spec,
    shard_spec, utf8, parse_packet, lemma_inline_roundtrip, lemma_manifest_roundtrip,
    lemma_shard_roundtrip, lemma_end_roundtrip, lemma_packet_lengths, lemma_shard_length, valid_group_count,
    manifest_fits, inline_fits, received_metadata,
    INLINE_FIXED, MANIFEST_FIXED,
};
use crate::transfer::types::{
    Compression, EventModel, FailReason, MetadataModel, TransferError, TransferMetadata, TransferPlan,
};
use crate::transfer::receiver::{decode_content_spec, ingest_spec, ReceiverModel};
use crate::transfer::codec::zstd_decode_spec;
use crate::transfer::delivery::{
    arriving, delivers, delivers_despite_losses, delivery_events, enough_shards, erasure_ready,
    delivers_twice, groups_ready, ingest_all, lemma_lossless, lemma_sharded_delivers,
    lemma_sharded_delivers_twice, lost, sharded_transfer,
};

verus! {

/// Copies of the manifest at the start of a sharded transfer.
pub const MANIFEST_REPEATS: usize = 2;
/// Copies of the end packet.
pub const END_REPEATS: usize = 1;
/// A manifest copy follows every this many groups.
pub const MANIFEST_INTERVAL: usize = 8;
/// zstd compression level.
pub const COMPRESSION_LEVEL: i32 = 3;
/// Smallest content worth compressing.
pub const MIN_COMPRESSIBLE: usize = 128;
/// Bytes that compression must save to be used.
pub const MIN_SAVING: usize = 32;
/// Longest content type kept, in UTF-8 bytes.
pub const MAX_CONTENT_TYPE: usize = 52;

/// Why a transfer could not be built.
pub enum BuildFailure {
    TooLarge,
    MetadataTooLarge,
    Compression,
}

/// The model of what `build_transfer` returns.
pub enum BuildOutcome {
    Plan(MetadataModel, Seq<Seq<u8>>),
    Failed(BuildFailure),
}

/// The bytes sent for `data` and their compression: zstd when allowed, the
/// data has at least 128 bytes and compression saves more than 32 of them;
/// `None` when the compressor fails.
pub open spec fn encoding_spec(data: Seq<u8>, allow_compression: bool) -> Option<(Seq<u8>, Compression)> {
    if allow_compression && data.len() >= MIN_COMPRESSIBLE {
        match zstd_encode_spec(data, COMPRESSION_LEVEL) {
            None => None,
            Some(c) => if c.len() + MIN_SAVING < data.len() {
                Some((c, Compression::Zstd))
            } else {
                Some((data, Compression::Raw))
            },
        }
    } else {
        Some((data, Compression::Raw))
    }
}

/// The shard of the encoded bytes that starts at `start`, zero-padded.
pub open spec fn padded_shard(encoded: Seq<u8>, start: int) -> Seq<u8> {
    Seq::new(
        SHARD_SIZE as nat,
        |j: int|
            if start + j < encoded.len() {
                encoded[start + j]
            } else {
                0u8
            },
    )
}

/// The data shards of group `g`.
pub open spec fn group_data_shards(encoded: Seq<u8>, d: int, g: int) -> Seq<Seq<u8>> {
    Seq::new(d as nat, |i: int| padded_shard(encoded, (g * d + i) * SHARD_SIZE))
}

/// All shards of group `g`: data shards, then their parity shards.
pub open spec fn group_shards(encoded: Seq<u8>, d: usize, p: usize, g: int) -> Seq<Seq<u8>> {
    group_data_shards(encoded, d as int, g) + erasure_parity_spec(
        d,
        p,
        group_data_shards(encoded, d as int, g),
    )
}

/// The packets of group `g`: one shard packet per shard, then a manifest
/// copy after every eighth group.
pub open spec fn group_packets(m: MetadataModel, encoded: Seq<u8>, d: usize, p: usize, g: int) -> Seq<Seq<u8>> {
    Seq::new(
        (d + p) as nat,
        |i: int| shard_spec(m.id, g as u32, i as u8, group_shards(encoded, d, p, g)[i]),
    ) + if (g + 1) % (MANIFEST_INTERVAL as int) == 0 {
        seq![manifest_spec(m)]
    } else {
        Seq::empty()
    }
}

/// The packets of the first `count` groups.
pub open spec fn groups_packets(m: MetadataModel, encoded: Seq<u8>, d: usize, p: usize, count: int) -> Seq<Seq<u8>>
    decreases count,
{
    if count <= 0 {
        Seq::empty()
    } else {
        groups_packets(m, encoded, d, p, count - 1) + group_packets(m, encoded, d, p, count - 1)
    }
}

/// The packets of a sharded transfer: two manifests, the groups, the end.
pub open spec fn sharded_packets(m: MetadataModel, encoded: Seq<u8>) -> Seq<Seq<u8>> {
    let (d, p) = geometry_spec(m.encoded_size);
    seq![manifest_spec(m), manifest_spec(m)] + groups_packets(m, encoded, d, p, m.group_count as int)
        + seq![end_spec(m.id, m.sha256)]
}

/// The plan for the encoded bytes of a transfer described by `m0` (whose
/// group count is still zero): one inline packet when everything fits in
/// one payload, else the sharded packets.
pub open spec fn plan_spec(m0: MetadataModel, encoded: Seq<u8>) -> BuildOutcome {
    if INLINE_FIXED + utf8(m0.name).len() + utf8(m0.content_type).len() + encoded.len()
        <= MAX_PAYLOAD {
        BuildOutcome::Plan(m0, seq![inline_spec(m0, encoded)])
    } else {
        let (d, p) = geometry_spec(encoded.len() as u64);
        let groups = ceil_div(encoded.len() as int, d * SHARD_SIZE);
        if groups > u32::MAX {
            BuildOutcome::Failed(BuildFailure::TooLarge)
        } else {
            let m = MetadataModel { group_count: groups as u32, ..m0 };
            BuildOutcome::Plan(m, sharded_packets(m, encoded))
        }
    }
}

/// What `build_transfer` makes of its inputs when the clock reads `nanos`.
pub open spec fn build_spec(
    name: Seq<char>,
    content_type: Seq<char>,
    data: Seq<u8>,
    allow_compression: bool,
    nanos: u128,
) -> BuildOutcome {
    let name = safe_name_spec(name);
    let content_type = truncate_spec(content_type, MAX_CONTENT_TYPE as int);
    if MANIFEST_FIXED + utf8(name).len() + utf8(content_type).len() > MAX_PAYLOAD {
        BuildOutcome::Failed(BuildFailure::MetadataTooLarge)
    } else {
        match encoding_spec(data, allow_compression) {
            None => BuildOutcome::Failed(BuildFailure::Compression),
            Some((encoded, compression)) => {
                let sha = sha256_spec(data);
                let m0 = MetadataModel {
                    id: transfer_id_spec(sha, nanos),
                    name,
                    content_type,
                    original_size: data.len() as u64,
                    encoded_size: encoded.len() as u64,
                    sha256: sha,
                    compression,
                    group_count: 0,
                };
                plan_spec(m0, encoded)
            },
        }
    }
}

/// The packet fits in one link payload and parses.
#[verifier::opaque]
pub open spec fn sendable(packet: Seq<u8>) -> bool {
    packet.len() <= MAX_PAYLOAD && parse_packet(packet) is Some
}

/// Every packet fits in one link payload and parses.
pub open spec fn packets_sendable(packets: Seq<Seq<u8>>) -> bool {
    forall|i: int| 0 <= i < packets.len() ==> sendable(#[trigger] packets[i])
}

/// `result` is what `build_spec` describes.
pub open spec fn build_matches(result: Result<TransferPlan, TransferError>, outcome: BuildOutcome) -> bool {
    match (result, outcome) {
        (Ok(plan), BuildOutcome::Plan(m, packets)) => plan.metadata@ == m && byte_views(
            plan.packets@,
        ) == packets,
        (Err(TransferError::TooLarge), BuildOutcome::Failed(BuildFailure::TooLarge)) => true,
        (
            Err(TransferError::MetadataTooLarge),
            BuildOutcome::Failed(BuildFailure::MetadataTooLarge),
        ) => true,
        (Err(TransferError::Compression(_)), BuildOutcome::Failed(BuildFailure::Compression)) => true,
        _ => false,
    }
}

fn padded_shard_exec(encoded: &[u8], start: usize) -> (res: Vec<u8>)
    ensures
        res@ == padded_shard(encoded@, start as int),
{
    let len = encoded.len();
    let mut shard: Vec<u8> = Vec::new();
    let mut j: usize = 0;
    while j < SHARD_SIZE
        invariant
            len == encoded@.len(),
            j <= SHARD_SIZE,
            shard@ == padded_shard(encoded@, start as int).subrange(0, j as int),
        decreases SHARD_SIZE - j,
    {
        if start < len && j < len - start {
            shard.push(encoded[start + j]);
        } else {
            shard.push(0);
        }
        j = j + 1;
        proof {
            assert(shard@ =~= padded_shard(encoded@, start as int).subrange(0, j as int));
        }
    }
    proof {
        assert(shard@ =~= padded_shard(encoded@, start as int));
    }
    shard
}

/// The shards of group `group`, parity computed.
fn group_shards_exec(encoded: &[u8], d: usize, p: usize, group: usize) -> (res: Result<Vec<Vec<u8>>, TransferError>)
    requires
        1 <= d <= 8,
        2 <= p <= 4,
        group * d * SHARD_SIZE < encoded@.len(),
    ensures
        match res {
            Ok(shards) => byte_views(shards@) == group_shards(encoded@, d, p, group as int)
                && shards@.len() == d + p && (forall|i: int|
                0 <= i < shards@.len() ==> (#[trigger] shards@[i])@.len() == SHARD_SIZE)
                && erasure_ready(d, p, group_shards(encoded@, d, p, group as int)),
            Err(_) => false,
        },
{
    let len = encoded.len();
    proof {
        assert(group * (d * SHARD_SIZE) == group * d * SHARD_SIZE) by (nonlinear_arith);
    }
    let group_start = group * (d * SHARD_SIZE);
    let mut shards: Vec<Vec<u8>> = Vec::new();
    let mut index: usize = 0;
    while index < d + p
        invariant
            1 <= d <= 8,
            2 <= p <= 4,
            group_start == group * d * SHARD_SIZE,
            group_start < encoded@.len(),
            len == encoded@.len(),
            index <= d + p,
            shards@.len() == index,
            forall|i: int| 0 <= i < index ==> (#[trigger] shards@[i])@.len() == SHARD_SIZE,
            forall|i: int|
                0 <= i < index && i < d ==> (#[trigger] shards@[i])@ == group_data_shards(
                    encoded@,
                    d as int,
                    group as int,
                )[i],
        decreases d + p - index,
    {
        if index < d {
            proof {
                assert((group * d + index) * SHARD_SIZE == group_start + index * SHARD_SIZE)
                    by (nonlinear_arith)
                    requires
                        group_start == group * d * SHARD_SIZE,
                ;
            }
            let offset = index * SHARD_SIZE;
            let shard = if offset < len - group_start {
                padded_shard_exec(encoded, group_start + offset)
            } else {
                let zeros = padded_shard_exec(encoded, len);
                proof {
                    assert(zeros@ =~= padded_shard(
                        encoded@,
                        (group * d + index) * SHARD_SIZE,
                    ));
                }
                zeros
            };
            shards.push(shard);
        } else {
            let shard = padded_shard_exec(encoded, encoded.len());
            shards.push(shard);
        }
        index = index + 1;
    }
    let ghost data_part = byte_views(shards@).subrange(0, d as int);
    proof {
        assert(data_part =~= group_data_shards(encoded@, d as int, group as int));
    }
    match erasure_encode(d, p, &mut shards) {
        Ok(()) => {
            proof {
                assert(byte_views(shards@) =~= byte_views(shards@).subrange(0, d as int)
                    + byte_views(shards@).subrange(d as int, shards@.len() as int));
                let views = byte_views(shards@);
                assert forall|i: int| 0 <= i < views.len() implies (#[trigger] views[i]).len()
                    == SHARD_SIZE by {
                    assert(views[i] == shards@[i]@);
                }
            }
            Ok(shards)
        },
        Err(_) => Err(TransferError::Fec),
    }
}

/// The bytes sent for `data` and their compression.
fn select_encoding(data: &[u8], allow_compression: bool) -> (res: Result<(Vec<u8>, Compression), TransferError>)
    ensures
        match res {
            Ok((encoded, compression)) => encoding_spec(data@, allow_compression) == Some(
                (encoded@, compression),
            ) && (compression == Compression::Zstd ==> zstd_decode_spec(encoded@) == Some(data@)),
            Err(e) => encoding_spec(data@, allow_compression) is None && e is Compression,
        },
{
    let mut compressed: Option<Vec<u8>> = None;
    if allow_compression && data.len() >= MIN_COMPRESSIBLE {
        match zstd_compress(data, COMPRESSION_LEVEL) {
            Ok(value) => {
                compressed = Some(value);
            },
            Err(e) => {
                return Err(TransferError::Compression(e));
            },
        }
    }
    let (encoded, compression) = match compressed {
        Some(value) => {
            if value.len() < data.len() && data.len() - value.len() > MIN_SAVING {
                (value, Compression::Zstd)
            } else {
                (copy_bytes(data), Compression::Raw)
            }
        },
        None => (copy_bytes(data), Compression::Raw),
    };
    Ok((encoded, compression))
}

/// Appends the shard packets of one group.
fn push_group_packets(packets: &mut Vec<Vec<u8>>, id: u64, group: u32, shards: &Vec<Vec<u8>>)
    requires
        shards@.len() <= 12,
        forall|i: int| 0 <= i < shards@.len() ==> (#[trigger] shards@[i])@.len() == SHARD_SIZE,
        packets_sendable(byte_views(old(packets)@)),
    ensures
        byte_views(final(packets)@) == byte_views(old(packets)@) + Seq::new(
            shards@.len(),
            |i: int| shard_spec(id, group, i as u8, byte_views(shards@)[i]),
        ),
        packets_sendable(byte_views(final(packets)@)),
{
    let ghost before = byte_views(packets@);
    let mut index: usize = 0;
    while index < shards.len()
        invariant
            shards@.len() <= 12,
            forall|i: int| 0 <= i < shards@.len() ==> (#[trigger] shards@[i])@.len() == SHARD_SIZE,
            index <= shards@.len(),
            byte_views(packets@) == before + Seq::new(
                index as nat,
                |i: int| shard_spec(id, group, i as u8, byte_views(shards@)[i]),
            ),
            packets_sendable(byte_views(packets@)),
        decreases shards@.len() - index,
    {
        let packet = encode_shard(id, group, index as u8, shards[index].as_slice());
        let ghost old_views = byte_views(packets@);
        proof {
            assert(shards@[index as int]@ == byte_views(shards@)[index as int]);
            lemma_shard_roundtrip(id, group, index as u8, shards@[index as int]@);
            lemma_shard_length(id, group, index as u8, shards@[index as int]@);
            reveal(sendable);
        }
        packets.push(packet);
        index = index + 1;
        proof {
            assert(byte_views(packets@) =~= old_views.push(packet@));
            assert(byte_views(packets@) =~= before + Seq::new(
                index as nat,
                |i: int| shard_spec(id, group, i as u8, byte_views(shards@)[i]),
            ));
        }
    }
}

/// The manifest and end packets of a transfer fit and parse.
proof fn lemma_describing_packets_sendable(m: MetadataModel)
    requires
        m.sha256.len() == 32,
        manifest_fits(m),
        valid_group_count(m.encoded_size, m.group_count),
    ensures
        sendable(manifest_spec(m)),
        sendable(end_spec(m.id, m.sha256)),
{
    lemma_manifest_roundtrip(m);
    lemma_end_roundtrip(m.id, m.sha256);
    lemma_packet_lengths(m, Seq::empty());
    reveal(sendable);
}

/// Every group starts inside the encoded bytes.
proof fn lemma_group_start(n: int, group_bytes: int, data_shards: int, group: int, groups: int)
    by (nonlinear_arith)
    requires
        group_bytes > 0,
        group_bytes == data_shards * SHARD_SIZE,
        0 <= group < groups,
        groups == (n + group_bytes - 1) / group_bytes,
    ensures
        group * data_shards * SHARD_SIZE < n,
{
}

/// Appends the packets of group `group`.
fn push_group(
    packets: &mut Vec<Vec<u8>>,
    metadata: &TransferMetadata,
    encoded: &[u8],
    data_shards: usize,
    parity_shards: usize,
    group: usize,
    manifest: &Vec<u8>,
) -> (res: Result<(), TransferError>)
    requires
        1 <= data_shards <= 8,
        2 <= parity_shards <= 4,
        group * data_shards * SHARD_SIZE < encoded@.len(),
        group < u32::MAX,
        manifest@ == manifest_spec(metadata@),
        sendable(manifest_spec(metadata@)),
        packets_sendable(byte_views(old(packets)@)),
    ensures
        match res {
            Ok(()) => byte_views(final(packets)@) == byte_views(old(packets)@) + group_packets(
                metadata@,
                encoded@,
                data_shards,
                parity_shards,
                group as int,
            ) && packets_sendable(byte_views(final(packets)@)) && erasure_ready(
                data_shards,
                parity_shards,
                group_shards(encoded@, data_shards, parity_shards, group as int),
            ),
            Err(_) => false,
        },
{
    let shards = match group_shards_exec(encoded, data_shards, parity_shards, group) {
        Ok(shards) => shards,
        Err(e) => {
            return Err(e);
        },
    };
    let ghost start = byte_views(packets@);
    push_group_packets(packets, metadata.id, group as u32, &shards);
    let ghost shard_packets = Seq::new(
        (data_shards + parity_shards) as nat,
        |i: int|
            shard_spec(
                metadata@.id,
                group as u32,
                i as u8,
                group_shards(encoded@, data_shards, parity_shards, group as int)[i],
            ),
    );
    proof {
        assert(Seq::new(
            shards@.len(),
            |i: int| shard_spec(metadata@.id, group as u32, i as u8, byte_views(shards@)[i]),
        ) =~= shard_packets);
    }
    if (group + 1) % MANIFEST_INTERVAL == 0 {
        let ghost shard_part = byte_views(packets@);
        packets.push(copy_bytes(manifest.as_slice()));
        proof {
            assert(byte_views(packets@) =~= shard_part.push(manifest_spec(metadata@)));
            assert(byte_views(packets@) =~= start + (shard_packets + seq![manifest_spec(metadata@)]));
        }
    } else {
        proof {
            assert(byte_views(packets@) =~= start + (shard_packets + Seq::<Seq<u8>>::empty()));
        }
    }
    Ok(())
}

/// The packets of a sharded transfer of `encoded` described by `metadata`.
#[verifier::rlimit(30)]
fn sharded_packets_exec(
    metadata: &TransferMetadata,
    encoded: &[u8],
    data_shards: usize,
    parity_shards: usize,
    groups: usize,
) -> (res: Result<Vec<Vec<u8>>, TransferError>)
    requires
        (data_shards, parity_shards) == geometry_spec(metadata@.encoded_size),
        metadata@.encoded_size == encoded@.len(),
        groups == ceil_div(encoded@.len() as int, data_shards * SHARD_SIZE),
        groups <= u32::MAX,
        groups >= 1,
        metadata@.group_count == groups,
        metadata@.sha256.len() == 32,
        MANIFEST_FIXED + utf8(metadata@.name).len() + utf8(metadata@.content_type).len()
            <= MAX_PAYLOAD,
    ensures
        match res {
            Ok(packets) => byte_views(packets@) == sharded_packets(metadata@, encoded@)
                && packets_sendable(byte_views(packets@)) && groups_ready(encoded@, groups as int),
            Err(_) => false,
        },
{
    let group_bytes = data_shards * SHARD_SIZE;
    let manifest = match encode_manifest(metadata) {
        Ok(manifest) => manifest,
        Err(e) => {
            return Err(e);
        },
    };
    let end = encode_end(metadata);
    proof {
        lemma_describing_packets_sendable(metadata@);
    }
    let mut packets: Vec<Vec<u8>> = Vec::new();
    packets.push(copy_bytes(manifest.as_slice()));
    packets.push(copy_bytes(manifest.as_slice()));
    proof {
        assert(byte_views(packets@) =~= seq![manifest_spec(metadata@), manifest_spec(metadata@)]);
        assert(groups_packets(metadata@, encoded@, data_shards, parity_shards, 0) =~= Seq::<
            Seq<u8>,
        >::empty());
    }
    let mut group: usize = 0;
    proof {
        assert(encoded@.len() as u64 == metadata@.encoded_size);
    }
    while group < groups
        invariant
            1 <= data_shards <= 8,
            2 <= parity_shards <= 4,
            (data_shards, parity_shards) == geometry_spec(metadata@.encoded_size),
            metadata@.encoded_size == encoded@.len(),
            group_bytes == data_shards * SHARD_SIZE,
            groups == ceil_div(encoded@.len() as int, group_bytes as int),
            groups <= u32::MAX,
            metadata@.group_count == groups,
            manifest@ == manifest_spec(metadata@),
            group <= groups,
            byte_views(packets@) == seq![manifest_spec(metadata@), manifest_spec(metadata@)]
                + groups_packets(metadata@, encoded@, data_shards, parity_shards, group as int),
            packets_sendable(byte_views(packets@)),
            sendable(manifest_spec(metadata@)),
            sendable(end_spec(metadata@.id, metadata@.sha256)),
            encoded@.len() as u64 == metadata@.encoded_size,
            groups_ready(encoded@, group as int),
        decreases groups - group,
    {
        proof {
            lemma_group_start(encoded@.len() as int, group_bytes as int, data_shards as int, group as int, groups as int);
        }
        match push_group(&mut packets, metadata, encoded, data_shards, parity_shards, group, &manifest) {
            Ok(()) => {},
            Err(e) => {
                return Err(e);
            },
        }
        proof {
            let gp = group_packets(metadata@, encoded@, data_shards, parity_shards, group as int);
            assert(groups_packets(metadata@, encoded@, data_shards, parity_shards, group + 1)
                == groups_packets(metadata@, encoded@, data_shards, parity_shards, group as int) + gp);
            assert(byte_views(packets@) =~= seq![manifest_spec(metadata@), manifest_spec(metadata@)]
                + groups_packets(metadata@, encoded@, data_shards, parity_shards, group + 1));
            assert forall|g: int| 0 <= g < group + 1 implies erasure_ready(
                data_shards,
                parity_shards,
                #[trigger] group_shards(encoded@, data_shards, parity_shards, g),
            ) by {
                if g < group {
                    assert(erasure_ready(
                        data_shards,
                        parity_shards,
                        group_shards(encoded@, data_shards, parity_shards, g),
                    ));
                }
            }
        }
        group = group + 1;
    }
    let ghost body = byte_views(packets@);
    packets.push(end);
    proof {
        assert(byte_views(packets@) =~= body.push(end_spec(metadata@.id, metadata@.sha256)));
        assert(byte_views(packets@) =~= seq![manifest_spec(metadata@), manifest_spec(metadata@)]
            + groups_packets(metadata@, encoded@, data_shards, parity_shards, groups as int)
            + seq![end_spec(metadata@.id, metadata@.sha256)]);
    }
    Ok(packets)
}

/// Any receiver, given `packet`, reports the start of the transfer of `m`
/// (as the manifest reaches it: name sanitised, no groups) and its
/// completion with `data`, and keeps its state.
pub open spec fn inline_delivers(packet: Seq<u8>, m: MetadataModel, data: Seq<u8>) -> bool {
    forall|r: ReceiverModel|
        #[trigger] ingest_spec(r, packet) == (
            r,
            seq![
                EventModel::Started(received_metadata(m, 0)),
                EventModel::Completed { metadata: received_metadata(m, 0), data },
            ],
        )
}

/// A single-packet plan is the inline packet of its metadata, and it
/// delivers the data.
proof fn lemma_inline_delivery(m0: MetadataModel, encoded: Seq<u8>, data: Seq<u8>)
    requires
        m0.group_count == 0,
        m0.encoded_size == encoded.len(),
        m0.sha256 == sha256_spec(data),
        m0.sha256.len() == 32,
        m0.original_size == data.len(),
        m0.compression == Compression::Raw ==> encoded == data,
        m0.compression == Compression::Zstd ==> zstd_decode_spec(encoded) == Some(data),
        MANIFEST_FIXED + utf8(m0.name).len() + utf8(m0.content_type).len() <= MAX_PAYLOAD,
    ensures
        match plan_spec(m0, encoded) {
            BuildOutcome::Plan(m, packets) => packets.len() == 1 ==> inline_delivers(packets[0], m, data),
            _ => true,
        },
{
    if INLINE_FIXED + utf8(m0.name).len() + utf8(m0.content_type).len() + encoded.len()
        <= MAX_PAYLOAD {
        lemma_inline_roundtrip(m0, encoded);
        let rm = received_metadata(m0, 0);
        assert(decode_content_spec(rm, encoded) == Ok::<Seq<u8>, FailReason>(data));
    }
}

/// The packets of a plan, received in order by a receiver that has no
/// state for the transfer, deliver the data, even when each group of
/// shards loses all but `d` of them.
proof fn lemma_plan_delivers(m0: MetadataModel, encoded: Seq<u8>, data: Seq<u8>)
    requires
        m0.group_count == 0,
        m0.encoded_size == encoded.len(),
        m0.sha256 == sha256_spec(data),
        m0.sha256.len() == 32,
        m0.original_size == data.len(),
        m0.compression == Compression::Raw ==> encoded == data,
        m0.compression == Compression::Zstd ==> zstd_decode_spec(encoded) == Some(data),
        MANIFEST_FIXED + utf8(m0.name).len() + utf8(m0.content_type).len() <= MAX_PAYLOAD,
        plan_spec(m0, encoded) matches BuildOutcome::Plan(m, _) ==> groups_ready(
            encoded,
            m.group_count as int,
        ),
    ensures
        plan_spec(m0, encoded) matches BuildOutcome::Plan(m, packets) ==> delivers_despite_losses(
            packets,
            m,
            data,
        ) && delivers(packets, m, data) && (packets.len() != 1 ==> delivers_twice(
            packets,
            m,
            data,
        )),
{
    match plan_spec(m0, encoded) {
        BuildOutcome::Plan(m, packets) => {
            let rm = received_metadata(m, m.group_count);
            assert(decode_content_spec(rm, encoded) == Ok::<Seq<u8>, FailReason>(data));
            if INLINE_FIXED + utf8(m0.name).len() + utf8(m0.content_type).len() + encoded.len()
                <= MAX_PAYLOAD {
                lemma_inline_delivery(m0, encoded, data);
                lemma_inline_roundtrip(m0, encoded);
                assert forall|keep: spec_fn(u32, u8) -> bool, r: ReceiverModel|
                    enough_shards(m, keep) && !r.incoming.contains_key(m.id) && !r.pending.contains_key(
                        m.id,
                    ) implies #[trigger] ingest_all(r, arriving(packets, keep)).1 == delivery_events(
                    m,
                    data,
                ) by {
                    assert(packets.drop_last() =~= Seq::<Seq<u8>>::empty());
                    assert(!lost(packets[0], keep));
                    assert(arriving(packets.drop_last(), keep) =~= Seq::<Seq<u8>>::empty());
                    assert(arriving(packets, keep) =~= packets);
                    assert(ingest_all(r, packets.drop_last()) == (r, Seq::<EventModel>::empty()));
                    assert(inline_delivers(packets[0], m, data));
                    let ev = ingest_spec(r, packets[0]).1;
                    assert(Seq::<EventModel>::empty() + ev =~= ev);
                    assert(delivery_events(m, data) =~= ev);
                }
            } else {
                let (d, p) = geometry_spec(encoded.len() as u64);
                assert(encoded.len() > 0);
                assert(ceil_div(encoded.len() as int, d * SHARD_SIZE) >= 1) by (nonlinear_arith)
                    requires
                        encoded.len() > 0,
                        d >= 1,
                ;
                assert(encoded.len() as u64 == m.encoded_size);
                assert(sharded_transfer(m, encoded, data));
                lemma_sharded_delivers(m, encoded, data);
                lemma_sharded_delivers_twice(m, encoded, data);
            }
            lemma_lossless(packets, m, data);
        },
        _ => {},
    }
}

/// The plan for the encoded bytes of a transfer described by `metadata`.
#[verifier::rlimit(30)]
fn plan_packets(metadata: TransferMetadata, encoded: Vec<u8>) -> (res: Result<TransferPlan, TransferError>)
    requires
        metadata@.group_count == 0,
        metadata@.encoded_size == encoded@.len(),
        metadata@.sha256.len() == 32,
        MANIFEST_FIXED + utf8(metadata@.name).len() + utf8(metadata@.content_type).len()
            <= MAX_PAYLOAD,
    ensures
        build_matches(res, plan_spec(metadata@, encoded@)),
        res matches Ok(plan) ==> packets_sendable(byte_views(plan.packets@)),
        res matches Ok(plan) ==> groups_ready(encoded@, plan.metadata@.group_count as int),
{
    let mut metadata = metadata;
    let name_len = string_bytes(&metadata.name).len();
    let content_type_len = string_bytes(&metadata.content_type).len();
    if encoded.len() <= MAX_PAYLOAD && INLINE_FIXED + name_len + content_type_len + encoded.len()
        <= MAX_PAYLOAD {
        let packet = match encode_inline(&metadata, encoded.as_slice()) {
            Ok(packet) => packet,
            Err(e) => {
                return Err(e);
            },
        };
        let mut packets: Vec<Vec<u8>> = Vec::new();
        packets.push(packet);
        proof {
            assert(byte_views(packets@) =~= seq![inline_spec(metadata@, encoded@)]);
            lemma_inline_roundtrip(metadata@, encoded@);
            lemma_packet_lengths(metadata@, encoded@);
            reveal(sendable);
        }
        return Ok(TransferPlan { metadata, packets });
    }
    let (data_shards, parity_shards) = shard_geometry(encoded.len() as u64);
    let group_bytes = data_shards * SHARD_SIZE;
    proof {
        let n = encoded@.len() as int;
        let gb = group_bytes as int;
        assert(n % gb != 0 ==> n / gb < n) by (nonlinear_arith)
            requires
                gb >= 2,
                n >= 0,
        ;
    }
    let groups = encoded.len() / group_bytes + if encoded.len() % group_bytes != 0 {
        1
    } else {
        0
    };
    proof {
        let n = encoded@.len() as int;
        let gb = group_bytes as int;
        assert(groups == ceil_div(n, gb)) by (nonlinear_arith)
            requires
                gb > 0,
                groups == n / gb + if n % gb != 0 { 1int } else { 0int },
        ;
    }
    if groups > u32::MAX as usize {
        return Err(TransferError::TooLarge);
    }
    proof {
        let n = encoded@.len() as int;
        let gb = group_bytes as int;
        assert(groups >= 1) by (nonlinear_arith)
            requires
                gb > 0,
                n > 0,
                groups == n / gb + if n % gb != 0 { 1int } else { 0int },
        ;
    }
    metadata.group_count = groups as u32;
    let packets = match sharded_packets_exec(&metadata, encoded.as_slice(), data_shards, parity_shards, groups) {
        Ok(packets) => packets,
        Err(e) => {
            return Err(e);
        },
    };
    Ok(TransferPlan { metadata, packets })
}

/// Splits `data` into the packets of one transfer, the clock reading
/// `nanos`: one inline packet when everything fits in one payload, else
/// manifests, erasure-coded shard groups and an end packet.
#[verifier::rlimit(30)]
#[verifier::spinoff_prover]
pub fn build_transfer_at(
    name: &str,
    content_type: &str,
    data: &[u8],
    allow_compression: bool,
    nanos: u128,
) -> (res: Result<TransferPlan, TransferError>)
    requires
        data@.len() <= u64::MAX,
    ensures
        build_matches(res, build_spec(name@, content_type@, data@, allow_compression, nanos)),
        res matches Ok(plan) ==> packets_sendable(byte_views(plan.packets@)),
        res matches Ok(plan) ==> (plan.packets@.len() == 1 ==> inline_delivers(
            plan.packets@[0]@,
            plan.metadata@,
            data@,
        )),
        res matches Ok(plan) ==> delivers(byte_views(plan.packets@), plan.metadata@, data@),
        res matches Ok(plan) ==> delivers_despite_losses(
            byte_views(plan.packets@),
            plan.metadata@,
            data@,
        ),
        res matches Ok(plan) ==> (plan.packets@.len() != 1 ==> delivers_twice(
            byte_views(plan.packets@),
            plan.metadata@,
            data@,
        )),
{
    let name = safe_file_name(name);
    let content_type = truncate_utf8(content_type, MAX_CONTENT_TYPE);
    let name_len = string_bytes(&name).len();
    let content_type_len = string_bytes(&content_type).len();
    if name_len > MAX_PAYLOAD || content_type_len > MAX_PAYLOAD || MANIFEST_FIXED + name_len
        + content_type_len > MAX_PAYLOAD {
        return Err(TransferError::MetadataTooLarge);
    }
    let (encoded, compression) = match select_encoding(data, allow_compression) {
        Ok(chosen) => chosen,
        Err(e) => {
            return Err(e);
        },
    };
    let digest = sha256(data);
    let id = transfer_id_at(&digest, nanos);
    let metadata = TransferMetadata {
        id,
        name,
        content_type,
        original_size: data.len() as u64,
        encoded_size: encoded.len() as u64,
        sha256: digest,
        compression,
        group_count: 0,
    };
    let ghost m0 = metadata@;
    let ghost enc = encoded@;
    let res = plan_packets(metadata, encoded);
    proof {
        lemma_inline_delivery(m0, enc, data@);
        lemma_plan_delivers(m0, enc, data@);
        if res is Ok {
            let plan = res->Ok_0;
            if plan.packets@.len() > 0 {
                lemma_byte_views_at(plan.packets@, 0);
            }
        }
    }
    res
}

/// Splits `data` into the packets of one transfer, with an id drawn from
/// the current clock reading. Whatever the reading, every packet fits in one
/// payload and the plan delivers `data`, whole and despite shard losses.
pub fn build_transfer(name: &str, content_type: &str, data: &[u8], allow_compression: bool) -> (res: Result<TransferPlan, TransferError>)
    requires
        data@.len() <= u64::MAX,
    ensures
        exists|nanos: u128|
            build_matches(res, #[trigger] build_spec(name@, content_type@, data@, allow_compression, nanos)),
        res matches Ok(plan) ==> packets_sendable(byte_views(plan.packets@)),
        res matches Ok(plan) ==> (plan.packets@.len() == 1 ==> inline_delivers(
            plan.packets@[0]@,
            plan.metadata@,
            data@,
        )),
        res matches Ok(plan) ==> delivers(byte_views(plan.packets@), plan.metadata@, data@),
        res matches Ok(plan) ==> delivers_despite_losses(
            byte_views(plan.packets@),
            plan.metadata@,
            data@,
        ),
        res matches Ok(plan) ==> (plan.packets@.len() != 1 ==> delivers_twice(
            byte_views(plan.packets@),
            plan.metadata@,
            data@,
        )),
{
    let nanos = unix_nanos();
    build_transfer_at(name, content_type, data, allow_compression, nanos)
}

} // verus!
