//! Reassembly of transfers from received packets: shards are collected per
//! group, groups are erasure-decoded once enough shards arrived, and the
//! content is decompressed and checked against its SHA-256.

use vstd::prelude::*;
use std::collections::HashMap;
use crate::bytes::{append_bytes, byte_views, copy_bytes};
use crate::text::append_str;
use crate::transfer::codec::{
    erasure_reconstruct, erasure_reconstruct_spec, present_count, slot_views, slots_sized,
    zstd_decode_spec, zstd_decompress,
};
use crate::transfer::digest::{sha256, sha256_spec};
use crate::transfer::geometry::{geometry_spec, shard_geometry, SHARD_SIZE};
use crate::transfer::packet::{decode_packet, parse_packet, Packet, PacketModel};
use crate::transfer::types::{
    clone_metadata, fail_reason, io_error_text, metadata_equal, Compression, EventModel, FailReason,
    MetadataModel, TransferEvent, TransferMetadata, events_view,
};

verus! {

/// Transfers whose shards may wait for their manifest.
pub const MAX_PENDING_TRANSFERS: usize = 16;
/// Shards that may wait per transfer.
pub const MAX_PENDING_SHARDS_PER_TRANSFER: usize = 96;

/// A shard that arrived before its manifest.
pub struct PendingModel {
    pub group: u32,
    pub index: u8,
    pub data: Seq<u8>,
}

/// A transfer being assembled: its metadata, the shards of unfinished
/// groups, and the data of finished groups.
pub struct IncomingModel {
    pub metadata: MetadataModel,
    pub groups: Map<u32, Seq<Option<Seq<u8>>>>,
    pub completed: Map<u32, Seq<u8>>,
}

/// The state of a receiver.
pub struct ReceiverModel {
    pub incoming: Map<u64, IncomingModel>,
    pub pending: Map<u64, Seq<PendingModel>>,
}

/// The receiver that has seen nothing.
pub open spec fn empty_receiver() -> ReceiverModel {
    ReceiverModel { incoming: Map::empty(), pending: Map::empty() }
}

/// A group with no shard yet.
pub open spec fn fresh_slots(n: int) -> Seq<Option<Seq<u8>>> {
    Seq::new(n as nat, |_i: int| None)
}

/// `list` already holds shard `index` of group `group`.
pub open spec fn has_pending(list: Seq<PendingModel>, group: u32, index: u8) -> bool {
    exists|j: int| 0 <= j < list.len() && (#[trigger] list[j]).group == group && list[j].index == index
}

/// The first `count` shards, end to end.
pub open spec fn concat_shards(shards: Seq<Seq<u8>>, count: int) -> Seq<u8>
    decreases count,
{
    if count <= 0 {
        Seq::empty()
    } else {
        concat_shards(shards, count - 1) + shards[count - 1]
    }
}

/// The data of finished groups `0..count`, end to end.
pub open spec fn concat_groups(completed: Map<u32, Seq<u8>>, count: int) -> Seq<u8>
    decreases count,
{
    if count <= 0 {
        Seq::empty()
    } else {
        concat_groups(completed, count - 1) + completed[(count - 1) as u32]
    }
}

/// The content that `encoded` carries for `m`: decompressed when `m` says
/// so, and kept only when its size and SHA-256 are the announced ones;
/// otherwise the reason it was refused.
pub open spec fn decode_content_spec(m: MetadataModel, encoded: Seq<u8>) -> Result<Seq<u8>, FailReason> {
    let data = match m.compression {
        Compression::Raw => Some(encoded),
        Compression::Zstd => zstd_decode_spec(encoded),
    };
    match data {
        None => Err(FailReason::Decompression),
        Some(d) => if d.len() != m.original_size || sha256_spec(d) != m.sha256 {
            Err(FailReason::Verification)
        } else {
            Ok(d)
        },
    }
}

/// Finishing transfer `id` once every group is in: the transfer leaves the
/// receiver, and its content is completed or fails.
pub open spec fn finish_step(r: ReceiverModel, id: u64) -> (ReceiverModel, Seq<EventModel>) {
    if !r.incoming.contains_key(id) {
        (r, Seq::empty())
    } else {
        let t = r.incoming[id];
        let n = t.metadata.group_count as int;
        if !(forall|g: u32| 0 <= g < n ==> #[trigger] t.completed.contains_key(g)) {
            (r, Seq::empty())
        } else {
            let encoded = concat_groups(t.completed, n);
            let r1 = ReceiverModel { incoming: r.incoming.remove(id), ..r };
            if t.metadata.encoded_size > encoded.len() {
                (r1, seq![EventModel::Failed { id, reason: FailReason::InvalidSize }])
            } else {
                match decode_content_spec(t.metadata, encoded.subrange(0, t.metadata.encoded_size as int)) {
                    Ok(data) => (r1, seq![EventModel::Completed { metadata: t.metadata, data }]),
                    Err(reason) => (r1, seq![EventModel::Failed { id, reason }]),
                }
            }
        }
    }
}

/// Receiving shard `index` of group `group` of transfer `id`.
pub open spec fn shard_step(
    r: ReceiverModel,
    id: u64,
    group: u32,
    index: u8,
    data: Seq<u8>,
) -> (ReceiverModel, Seq<EventModel>) {
    if !r.incoming.contains_key(id) {
        if r.pending.contains_key(id) || r.pending.len() < MAX_PENDING_TRANSFERS {
            let list = if r.pending.contains_key(id) {
                r.pending[id]
            } else {
                Seq::empty()
            };
            let kept = if list.len() < MAX_PENDING_SHARDS_PER_TRANSFER && !has_pending(
                list,
                group,
                index,
            ) {
                list.push(PendingModel { group, index, data })
            } else {
                list
            };
            (ReceiverModel { pending: r.pending.insert(id, kept), ..r }, Seq::empty())
        } else {
            (r, Seq::empty())
        }
    } else {
        let t = r.incoming[id];
        let (d, p) = geometry_spec(t.metadata.encoded_size);
        if group >= t.metadata.group_count || index >= d + p || t.completed.contains_key(group) {
            (r, Seq::empty())
        } else {
            let slots = if t.groups.contains_key(group) {
                t.groups[group]
            } else {
                fresh_slots(d + p)
            };
            if slots[index as int] is Some {
                (r, Seq::empty())
            } else {
                let filled = slots.update(index as int, Some(data));
                if present_count(filled) < d {
                    let t1 = IncomingModel { groups: t.groups.insert(group, filled), ..t };
                    (ReceiverModel { incoming: r.incoming.insert(id, t1), ..r }, Seq::empty())
                } else {
                    let shards = erasure_reconstruct_spec(d, p, filled);
                    let t1 = IncomingModel {
                        groups: t.groups.remove(group),
                        completed: t.completed.insert(group, concat_shards(shards, d as int)),
                        ..t
                    };
                    let r1 = ReceiverModel { incoming: r.incoming.insert(id, t1), ..r };
                    let done = t1.completed.len() as u32;
                    let progress = seq![
                        EventModel::Progress {
                            id,
                            completed_groups: done,
                            total_groups: t.metadata.group_count,
                        },
                    ];
                    if done == t.metadata.group_count {
                        let (r2, finished) = finish_step(r1, id);
                        (r2, progress + finished)
                    } else {
                        (r1, progress)
                    }
                }
            }
        }
    }
}

/// Receiving, in order, the shards that waited for the manifest of `id`.
pub open spec fn replay_step(r: ReceiverModel, id: u64, list: Seq<PendingModel>) -> (ReceiverModel, Seq<EventModel>)
    decreases list.len(),
{
    if list.len() == 0 {
        (r, Seq::empty())
    } else {
        let (r1, first) = shard_step(r, id, list[0].group, list[0].index, list[0].data);
        let (r2, rest) = replay_step(r1, id, list.drop_first());
        (r2, first + rest)
    }
}

/// Receiving a manifest: a repeat is ignored; otherwise the transfer starts
/// afresh and the shards that waited for it are received.
pub open spec fn manifest_step(r: ReceiverModel, m: MetadataModel) -> (ReceiverModel, Seq<EventModel>) {
    if r.incoming.contains_key(m.id) && r.incoming[m.id].metadata == m {
        (r, Seq::empty())
    } else {
        let fresh = IncomingModel { metadata: m, groups: Map::empty(), completed: Map::empty() };
        let r1 = ReceiverModel { incoming: r.incoming.insert(m.id, fresh), ..r };
        let started = seq![EventModel::Started(m)];
        if r1.pending.contains_key(m.id) {
            let list = r1.pending[m.id];
            let (r2, replayed) = replay_step(
                ReceiverModel { pending: r1.pending.remove(m.id), ..r1 },
                m.id,
                list,
            );
            (r2, started + replayed)
        } else {
            (r1, started)
        }
    }
}

/// Receiving the end packet of `id`: a digest other than the manifest's
/// fails the transfer; otherwise it finishes when every group is in.
pub open spec fn end_step(r: ReceiverModel, id: u64, sha256: Seq<u8>) -> (ReceiverModel, Seq<EventModel>) {
    if !r.incoming.contains_key(id) {
        (r, Seq::empty())
    } else {
        let t = r.incoming[id];
        if t.metadata.sha256 != sha256 {
            (r, seq![EventModel::Failed { id, reason: FailReason::DigestMismatch }])
        } else if t.completed.len() as u32 == t.metadata.group_count {
            finish_step(r, id)
        } else {
            (r, Seq::empty())
        }
    }
}

/// What a receiver in state `r` does with one link payload.
pub open spec fn ingest_spec(r: ReceiverModel, payload: Seq<u8>) -> (ReceiverModel, Seq<EventModel>) {
    match parse_packet(payload) {
        None => (r, Seq::empty()),
        Some(packet) => match packet {
            PacketModel::Manifest(m) => manifest_step(r, m),
            PacketModel::Shard { id, group, index, data } => shard_step(r, id, group, index, data),
            PacketModel::End { id, sha256 } => end_step(r, id, sha256),
            PacketModel::Inline { metadata, encoded } => match decode_content_spec(metadata, encoded) {
                Ok(data) => (
                    r,
                    seq![
                        EventModel::Started(metadata),
                        EventModel::Completed { metadata, data },
                    ],
                ),
                Err(reason) => (r, seq![EventModel::Failed { id: metadata.id, reason }]),
            },
            _ => (r, Seq::empty()),
        },
    }
}

/// A shard packet received twice in a row changes nothing the second time,
/// unless the first time completed its transfer.
pub proof fn lemma_repeated_shard(
    r: ReceiverModel,
    payload: Seq<u8>,
    id: u64,
    group: u32,
    index: u8,
    data: Seq<u8>,
)
    requires
        receiver_wf(r),
        parse_packet(payload) == Some(PacketModel::Shard { id, group, index, data }),
        ingest_spec(r, payload).0.incoming.contains_key(id) || !r.incoming.contains_key(id),
    ensures
        ingest_spec(ingest_spec(r, payload).0, payload) == (
            ingest_spec(r, payload).0,
            Seq::<EventModel>::empty(),
        ),
{
    let r1 = ingest_spec(r, payload).0;
    if !r.incoming.contains_key(id) {
        if r.pending.contains_key(id) || r.pending.len() < MAX_PENDING_TRANSFERS {
            let list = if r.pending.contains_key(id) {
                r.pending[id]
            } else {
                Seq::empty()
            };
            let item = PendingModel { group, index, data };
            if list.len() < MAX_PENDING_SHARDS_PER_TRANSFER && !has_pending(list, group, index) {
                let kept = list.push(item);
                assert(kept[list.len() as int] == item);
                assert(has_pending(kept, group, index));
                assert(r1.pending.insert(id, kept) =~= r1.pending);
            } else {
                assert(r1.pending.insert(id, list) =~= r1.pending);
            }
        }
    } else {
        let t = r.incoming[id];
        let (d, p) = geometry_spec(t.metadata.encoded_size);
        if !(group >= t.metadata.group_count || index >= d + p || t.completed.contains_key(group)) {
            let slots = if t.groups.contains_key(group) {
                t.groups[group]
            } else {
                fresh_slots(d + p)
            };
            if t.groups.contains_key(group) {
                assert(r.incoming[id].groups[group].len() == d + p);
            }
            assert(slots.len() == d + p);
            if !(slots[index as int] is Some) {
                let filled = slots.update(index as int, Some(data));
                if present_count(filled) < d {
                    assert(r1.incoming[id].groups[group] == filled);
                    assert(filled[index as int] is Some);
                } else {
                    assert(r1.incoming.contains_key(id));
                }
            }
        }
    }
}

/// A manifest for a transfer already being assembled under the same
/// metadata changes nothing.
pub proof fn lemma_repeated_manifest(r: ReceiverModel, payload: Seq<u8>, m: MetadataModel)
    requires
        parse_packet(payload) == Some(PacketModel::Manifest(m)),
        r.incoming.contains_key(m.id),
        r.incoming[m.id].metadata == m,
    ensures
        ingest_spec(r, payload) == (r, Seq::<EventModel>::empty()),
{
}

/// A payload that is no packet changes nothing.
pub proof fn lemma_ignores_noise(r: ReceiverModel, payload: Seq<u8>)
    requires
        parse_packet(payload) is None,
    ensures
        ingest_spec(r, payload) == (r, Seq::<EventModel>::empty()),
{
}

fn digests_equal(a: &[u8; 32], b: &[u8; 32]) -> (res: bool)
    ensures
        res == (a@ == b@),
{
    let mut i: usize = 0;
    while i < 32
        invariant
            0 <= i <= 32,
            forall|j: int| 0 <= j < i ==> a@[j] == b@[j],
        decreases 32 - i,
    {
        if a[i] != b[i] {
            return false;
        }
        i = i + 1;
    }
    assert(a@ =~= b@);
    true
}

/// The texts that the receiver gives its failures name the reasons they stand for.
proof fn lemma_reason_texts(text: Seq<char>)
    ensures
        fail_reason("end digest does not match manifest"@) == FailReason::DigestMismatch,
        fail_reason("encoded size is invalid"@) == FailReason::InvalidSize,
        fail_reason("SHA-256 verification failed"@) == FailReason::Verification,
        text.len() >= 27 && text.subrange(0, 27) == "zstd decompression failed: "@
            ==> fail_reason(text) == FailReason::Decompression,
{
    reveal_strlit("end digest does not match manifest");
    reveal_strlit("encoded size is invalid");
    reveal_strlit("SHA-256 verification failed");
    reveal_strlit("zstd decompression failed: ");
    assert("end digest does not match manifest"@.len() == 34);
    assert("encoded size is invalid"@.len() == 23);
    assert("SHA-256 verification failed"@.len() == 27);
    if text.len() >= 27 && text.subrange(0, 27) == "zstd decompression failed: "@ {
        assert(text[0] == text.subrange(0, 27)[0]);
    }
}

/// The content that `encoded` carries for `metadata`, or why it was refused.
fn decode_content(metadata: &TransferMetadata, encoded: Vec<u8>) -> (res: Result<Vec<u8>, String>)
    ensures
        match res {
            Ok(data) => decode_content_spec(metadata@, encoded@) == Ok::<Seq<u8>, FailReason>(data@),
            Err(reason) => decode_content_spec(metadata@, encoded@) == Err::<Seq<u8>, FailReason>(
                fail_reason(reason@),
            ),
        },
{
    let data = match metadata.compression {
        Compression::Raw => encoded,
        Compression::Zstd => match zstd_decompress(encoded.as_slice()) {
            Ok(data) => data,
            Err(error) => {
                let mut reason = "zstd decompression failed: ".to_owned();
                let detail = io_error_text(&error);
                append_str(&mut reason, detail.as_str());
                proof {
                    reveal_strlit("zstd decompression failed: ");
                    assert(reason@.subrange(0, 27) =~= "zstd decompression failed: "@);
                    lemma_reason_texts(reason@);
                }
                return Err(reason);
            },
        },
    };
    let digest = sha256(data.as_slice());
    if data.len() as u64 != metadata.original_size || !digests_equal(&digest, &metadata.sha256) {
        proof {
            lemma_reason_texts(Seq::empty());
        }
        return Err("SHA-256 verification failed".to_owned());
    }
    Ok(data)
}

/// A shard that arrived before its manifest.
struct PendingShard {
    group: u32,
    index: u8,
    data: Vec<u8>,
}

impl View for PendingShard {
    type V = PendingModel;

    closed spec fn view(&self) -> PendingModel {
        PendingModel { group: self.group, index: self.index, data: self.data@ }
    }
}

/// A transfer being assembled.
struct IncomingTransfer {
    metadata: TransferMetadata,
    groups: HashMap<u32, Vec<Option<Vec<u8>>>>,
    completed: HashMap<u32, Vec<u8>>,
}

impl View for IncomingTransfer {
    type V = IncomingModel;

    closed spec fn view(&self) -> IncomingModel {
        IncomingModel {
            metadata: self.metadata@,
            groups: self.groups@.map_values(|v: Vec<Option<Vec<u8>>>| slot_views(v@)),
            completed: self.completed@.map_values(|v: Vec<u8>| v@),
        }
    }
}

/// The models of a list of waiting shards.
spec fn pending_views(list: Seq<PendingShard>) -> Seq<PendingModel> {
    list.map_values(|s: PendingShard| s@)
}

/// Reassembles transfers from link payloads.
pub struct TransferReceiver {
    incoming: HashMap<u64, IncomingTransfer>,
    pending: HashMap<u64, Vec<PendingShard>>,
}

impl View for TransferReceiver {
    type V = ReceiverModel;

    closed spec fn view(&self) -> ReceiverModel {
        ReceiverModel {
            incoming: self.incoming@.map_values(|t: IncomingTransfer| t@),
            pending: self.pending@.map_values(|v: Vec<PendingShard>| pending_views(v@)),
        }
    }
}

/// The groups of every transfer have one slot per shard of its geometry,
/// every stored shard has `SHARD_SIZE` bytes, and at most 16 transfers with
/// at most 96 shards each wait for their manifest.
pub open spec fn receiver_wf(r: ReceiverModel) -> bool {
    &&& r.pending.dom().finite()
    &&& r.pending.len() <= MAX_PENDING_TRANSFERS
    &&& forall|id: u64| #[trigger] r.pending.contains_key(id) ==> r.pending[id].len()
        <= MAX_PENDING_SHARDS_PER_TRANSFER
    &&& forall|id: u64, g: u32|
        #![trigger r.incoming[id].groups[g]]
        r.incoming.contains_key(id) && r.incoming[id].groups.contains_key(g) ==> {
            let t = r.incoming[id];
            let (d, p) = geometry_spec(t.metadata.encoded_size);
            &&& t.groups[g].len() == d + p
            &&& slots_sized(t.groups[g])
        }
    &&& forall|id: u64, j: int|
        #![trigger r.pending[id][j]]
        r.pending.contains_key(id) && 0 <= j < r.pending[id].len() ==> r.pending[id][j].data.len()
            == SHARD_SIZE
}

impl TransferReceiver {
    /// The receiver is consistent.
    pub open spec fn wf(&self) -> bool {
        receiver_wf(self@)
    }

    /// A receiver that has seen nothing.
    pub fn new() -> (res: Self)
        ensures
            res@ == empty_receiver(),
            res.wf(),
    {
        let r = TransferReceiver { incoming: HashMap::new(), pending: HashMap::new() };
        proof {
            assert(r@.incoming =~= Map::empty());
            assert(r@.pending =~= Map::empty());
        }
        r
    }

    /// Receives shard `index` of group `group` of transfer `id`.
    fn ingest_shard(&mut self, id: u64, group: u32, index: u8, data: Vec<u8>) -> (events: Vec<TransferEvent>)
        requires
            old(self).wf(),
            data@.len() == SHARD_SIZE,
        ensures
            final(self).wf(),
            (final(self)@, events_view(events@)) == shard_step(old(self)@, id, group, index, data@),
    {
        let ghost r = self@;
        if !self.incoming.contains_key(&id) {
            let known = self.pending.contains_key(&id);
            if known || self.pending.len() < MAX_PENDING_TRANSFERS {
                let mut list = match self.pending.remove(&id) {
                    Some(list) => list,
                    None => Vec::new(),
                };
                let ghost before = pending_views(list@);
                proof {
                    assert(known ==> before == r.pending[id]);
                    assert(!known ==> before =~= Seq::<PendingModel>::empty());
                }
                if list.len() < MAX_PENDING_SHARDS_PER_TRANSFER && !pending_has(&list, group, index) {
                    list.push(PendingShard { group, index, data });
                    proof {
                        assert(pending_views(list@) =~= before.push(PendingModel { group, index, data: data@ }));
                    }
                }
                let ghost kept = pending_views(list@);
                proof {
                    assert(r.pending.dom() =~= old(self).pending@.dom());
                    assert(kept.len() <= MAX_PENDING_SHARDS_PER_TRANSFER);
                    assert(forall|j: int| 0 <= j < kept.len() ==> (#[trigger] kept[j]).data.len() == SHARD_SIZE);
                }
                self.pending.insert(id, list);
                proof {
                    assert(self@.pending =~= r.pending.insert(id, kept));
                    assert(self@.incoming =~= r.incoming);
                    if known {
                        assert(r.pending.insert(id, kept).dom() =~= r.pending.dom());
                    } else {
                        assert(r.pending.insert(id, kept).dom() =~= r.pending.dom().insert(id));
                    }
                    assert(receiver_wf(self@));
                }
            } else {
                proof {
                    assert(r.pending.dom() =~= self.pending@.dom());
                }
            }
            return Vec::new();
        }
        let mut transfer = match self.incoming.remove(&id) {
            Some(transfer) => transfer,
            None => {
                return Vec::new();
            },
        };
        let ghost t = transfer@;
        proof {
            assert(t == r.incoming[id]);
        }
        let (d, p) = shard_geometry(transfer.metadata.encoded_size);
        if group >= transfer.metadata.group_count || index as usize >= d + p
            || transfer.completed.contains_key(&group) {
            self.incoming.insert(id, transfer);
            proof {
                assert(self@.incoming =~= r.incoming);
                assert(self@.pending =~= r.pending);
            }
            return Vec::new();
        }
        let mut slots = match transfer.groups.remove(&group) {
            Some(slots) => slots,
            None => empty_slots(d + p),
        };
        let ghost slots0 = slot_views(slots@);
        proof {
            assert(slots0 == if t.groups.contains_key(group) {
                t.groups[group]
            } else {
                fresh_slots(d + p)
            });
            if t.groups.contains_key(group) {
                assert(r.incoming.contains_key(id) && r.incoming[id].groups.contains_key(group));
                assert(r.incoming[id].groups[group].len() == d + p);
            }
        }
        if slots[index as usize].is_some() {
            transfer.groups.insert(group, slots);
            self.incoming.insert(id, transfer);
            proof {
                assert(slots0[index as int] is Some);
                assert(self@.incoming[id].groups =~= t.groups);
                assert(self@.incoming =~= r.incoming);
                assert(self@.pending =~= r.pending);
            }
            return Vec::new();
        }
        slots.set(index as usize, Some(data));
        let ghost filled = slot_views(slots@);
        proof {
            assert(filled =~= slots0.update(index as int, Some(data@)));
        }
        if count_present(&slots) < d {
            transfer.groups.insert(group, slots);
            self.incoming.insert(id, transfer);
            proof {
                assert(self@.incoming[id].groups =~= t.groups.insert(group, filled));
                let t1 = IncomingModel { groups: t.groups.insert(group, filled), ..t };
                assert(self@.incoming =~= r.incoming.insert(id, t1));
                assert(self@.pending =~= r.pending);
            }
            return Vec::new();
        }
        match erasure_reconstruct(d, p, &mut slots) {
            Ok(()) => {},
            Err(_) => {
                return Vec::new();
            },
        }
        let ghost shards = erasure_reconstruct_spec(d, p, filled);
        proof {
            assert(slot_views(slots@).len() == slots@.len());
            assert(shards.map_values(|s: Seq<u8>| Some(s)).len() == shards.len());
        }
        let group_data = join_data_shards(&slots, d, Ghost(shards));
        transfer.completed.insert(group, group_data);
        let ghost completed_map = transfer.completed@;
        let done = transfer.completed.len() as u32;
        let total = transfer.metadata.group_count;
        self.incoming.insert(id, transfer);
        let ghost t1 = IncomingModel {
            groups: t.groups.remove(group),
            completed: t.completed.insert(group, concat_shards(shards, d as int)),
            ..t
        };
        let ghost r1 = ReceiverModel { incoming: r.incoming.insert(id, t1), ..r };
        proof {
            assert(self@.incoming[id].groups =~= t1.groups);
            assert(self@.incoming[id].completed =~= t1.completed);
            assert(self@.incoming =~= r1.incoming);
            assert(self@.pending =~= r1.pending);
            assert(t1.completed.dom() =~= completed_map.dom());
        }
        let mut events: Vec<TransferEvent> = Vec::new();
        events.push(TransferEvent::Progress { id, completed_groups: done, total_groups: total });
        if done == total {
            let mut finished = self.finish(id);
            events.append(&mut finished);
        }
        proof {
            assert(events_view(events@) =~= shard_step(r, id, group, index, data@).1);
        }
        events
    }

    /// Receives the end packet of transfer `id`.
    fn ingest_end(&mut self, id: u64, sha256: [u8; 32]) -> (events: Vec<TransferEvent>)
        requires
            old(self).wf(),
        ensures
            final(self).wf(),
            (final(self)@, events_view(events@)) == end_step(old(self)@, id, sha256@),
    {
        let ghost r = self@;
        let (matches, complete) = match self.incoming.get(&id) {
            None => {
                let none: Vec<TransferEvent> = Vec::new();
                proof {
                    assert(events_view(none@) =~= Seq::<EventModel>::empty());
                }
                return none;
            },
            Some(transfer) => {
                proof {
                    assert(transfer@ == r.incoming[id]);
                    assert(transfer.completed@.dom() =~= r.incoming[id].completed.dom());
                }
                (
                    digests_equal(&transfer.metadata.sha256, &sha256),
                    transfer.completed.len() as u32 == transfer.metadata.group_count,
                )
            },
        };
        let mut events: Vec<TransferEvent> = Vec::new();
        if !matches {
            events.push(
                TransferEvent::Failed { id, reason: "end digest does not match manifest".to_owned() },
            );
            proof {
                lemma_reason_texts(Seq::empty());
                assert(events_view(events@) =~= seq![
                    EventModel::Failed { id, reason: FailReason::DigestMismatch },
                ]);
            }
            return events;
        }
        if complete {
            self.finish(id)
        } else {
            proof {
                assert(events_view(events@) =~= Seq::<EventModel>::empty());
            }
            events
        }
    }

    /// Receives the manifest of a transfer.
    fn ingest_manifest(&mut self, metadata: TransferMetadata) -> (events: Vec<TransferEvent>)
        requires
            old(self).wf(),
        ensures
            final(self).wf(),
            (final(self)@, events_view(events@)) == manifest_step(old(self)@, metadata@),
    {
        let ghost r = self@;
        let ghost m = metadata@;
        let id = metadata.id;
        let same = match self.incoming.get(&id) {
            Some(existing) => {
                proof {
                    assert(existing@ == r.incoming[id]);
                }
                metadata_equal(&existing.metadata, &metadata)
            },
            None => false,
        };
        if same {
            let none: Vec<TransferEvent> = Vec::new();
            proof {
                assert(events_view(none@) =~= Seq::<EventModel>::empty());
            }
            return none;
        }
        let fresh = IncomingTransfer {
            metadata: clone_metadata(&metadata),
            groups: HashMap::new(),
            completed: HashMap::new(),
        };
        let ghost fresh_model = IncomingModel {
            metadata: m,
            groups: Map::empty(),
            completed: Map::empty(),
        };
        proof {
            assert(fresh@.groups =~= Map::<u32, Seq<Option<Seq<u8>>>>::empty());
            assert(fresh@.completed =~= Map::<u32, Seq<u8>>::empty());
        }
        self.incoming.insert(id, fresh);
        let ghost r1 = ReceiverModel { incoming: r.incoming.insert(id, fresh_model), ..r };
        proof {
            assert(self@.incoming =~= r1.incoming);
            assert(self@.pending =~= r1.pending);
        }
        let mut events: Vec<TransferEvent> = Vec::new();
        events.push(TransferEvent::Started(metadata));
        let ghost started = seq![EventModel::Started(m)];
        proof {
            assert(events_view(events@) =~= started);
        }
        let list = match self.pending.remove(&id) {
            Some(list) => list,
            None => {
                proof {
                    assert(self@.pending =~= r1.pending);
                }
                return events;
            },
        };
        proof {
            assert(r1.pending.remove(id).dom() =~= r1.pending.dom().remove(id));
        }
        let ghost lv = pending_views(list@);
        let ghost start = ReceiverModel { pending: r1.pending.remove(id), ..r1 };
        let ghost target = replay_step(start, id, lv);
        proof {
            assert(lv == r1.pending[id]);
            assert(self@.pending =~= start.pending);
            assert(self@.incoming =~= start.incoming);
            assert(lv.skip(0) =~= lv);
        }
        let mut i: usize = 0;
        while i < list.len()
            invariant
                receiver_wf(self@),
                i <= list@.len(),
                lv == pending_views(list@),
                forall|j: int| 0 <= j < lv.len() ==> (#[trigger] lv[j]).data.len() == SHARD_SIZE,
                replay_step(self@, id, lv.skip(i as int)).0 == target.0,
                events_view(events@) + replay_step(self@, id, lv.skip(i as int)).1 == started
                    + target.1,
            decreases list@.len() - i,
        {
            let ghost before_state = self@;
            let ghost before_events = events_view(events@);
            let data = copy_bytes(list[i].data.as_slice());
            proof {
                assert(lv[i as int] == list@[i as int]@);
                assert(lv.skip(i as int)[0] == lv[i as int]);
                assert(lv.skip(i as int).drop_first() =~= lv.skip(i + 1));
            }
            let mut more = self.ingest_shard(id, list[i].group, list[i].index, data);
            let ghost more_view = events_view(more@);
            events.append(&mut more);
            proof {
                assert(events_view(events@) =~= before_events + more_view);
                let rest = replay_step(self@, id, lv.skip(i + 1));
                assert(replay_step(before_state, id, lv.skip(i as int)) == (rest.0, more_view + rest.1));
                assert(before_events + (more_view + rest.1) =~= (before_events + more_view) + rest.1);
            }
            i = i + 1;
        }
        proof {
            assert(lv.skip(i as int) =~= Seq::<PendingModel>::empty());
            assert(events_view(events@) + Seq::<EventModel>::empty() =~= events_view(events@));
        }
        events
    }

    /// Receives one link payload and reports what it completed.
    pub fn ingest(&mut self, payload: &[u8]) -> (events: Vec<TransferEvent>)
        requires
            old(self).wf(),
        ensures
            final(self).wf(),
            (final(self)@, events_view(events@)) == ingest_spec(old(self)@, payload@),
    {
        let packet = match decode_packet(payload) {
            Ok(packet) => packet,
            Err(_) => {
                let none: Vec<TransferEvent> = Vec::new();
                proof {
                    assert(events_view(none@) =~= Seq::<EventModel>::empty());
                }
                return none;
            },
        };
        match packet {
            Packet::Manifest(metadata) => self.ingest_manifest(metadata),
            Packet::Shard { id, group, index, data } => self.ingest_shard(id, group, index, data),
            Packet::End { id, sha256 } => self.ingest_end(id, sha256),
            Packet::Inline { metadata, encoded } => {
                let id = metadata.id;
                let mut events: Vec<TransferEvent> = Vec::new();
                match decode_content(&metadata, encoded) {
                    Ok(data) => {
                        let copy = clone_metadata(&metadata);
                        events.push(TransferEvent::Started(copy));
                        events.push(TransferEvent::Completed { metadata, data });
                    },
                    Err(reason) => {
                        events.push(TransferEvent::Failed { id, reason });
                    },
                }
                proof {
                    assert(events_view(events@) =~= ingest_spec(old(self)@, payload@).1);
                }
                events
            },
            _ => {
                let none: Vec<TransferEvent> = Vec::new();
                proof {
                    assert(events_view(none@) =~= Seq::<EventModel>::empty());
                }
                none
            },
        }
    }

    /// Completes transfer `id` once every group is in.
    fn finish(&mut self, id: u64) -> (events: Vec<TransferEvent>)
        requires
            old(self).wf(),
        ensures
            final(self).wf(),
            (final(self)@, events_view(events@)) == finish_step(old(self)@, id),
    {
        let ghost r = self@;
        let transfer = match self.incoming.remove(&id) {
            Some(transfer) => transfer,
            None => {
                proof {
                    assert(self@.incoming =~= r.incoming);
                    assert(self@.pending =~= r.pending);
                }
                return Vec::new();
            },
        };
        let ghost t = transfer@;
        let ghost r1 = ReceiverModel { incoming: r.incoming.remove(id), ..r };
        proof {
            assert(t == r.incoming[id]);
            assert(self@.incoming =~= r1.incoming);
            assert(self@.pending =~= r1.pending);
        }
        let n = transfer.metadata.group_count;
        let mut g: u32 = 0;
        while g < n
            invariant
                r == old(self)@,
                t == transfer@,
                t == r.incoming[id],
                r.incoming.contains_key(id),
                receiver_wf(r),
                self@ == r1,
                r1 == (ReceiverModel { incoming: r.incoming.remove(id), ..r }),
                n == t.metadata.group_count,
                g <= n,
                forall|h: u32| 0 <= h < g ==> #[trigger] t.completed.contains_key(h),
            decreases n - g,
        {
            if !transfer.completed.contains_key(&g) {
                let ghost before_map = self.incoming@;
                proof {
                    assert(before_map.map_values(|x: IncomingTransfer| x@) == r1.incoming);
                }
                self.incoming.insert(id, transfer);
                proof {
                    assert(!t.completed.contains_key(g));
                    assert(self.incoming@ == before_map.insert(id, transfer));
                    assert(self@.incoming =~= r1.incoming.insert(id, t));
                    assert(r1.incoming.insert(id, t) =~= r.incoming);
                    assert(self@.pending =~= r.pending);
                    assert(!(forall|h: u32| 0 <= h < n ==> #[trigger] t.completed.contains_key(h)));
                    assert(finish_step(r, id) == (r, Seq::<EventModel>::empty()));
                    assert(self@ == r);
                }
                let none: Vec<TransferEvent> = Vec::new();
                proof {
                    assert(events_view(none@) =~= Seq::<EventModel>::empty());
                }
                return none;
            }
            g = g + 1;
        }
        let mut encoded: Vec<u8> = Vec::new();
        let mut g: u32 = 0;
        while g < n
            invariant
                r == old(self)@,
                t == r.incoming[id],
                r.incoming.contains_key(id),
                receiver_wf(r),
                r1 == (ReceiverModel { incoming: r.incoming.remove(id), ..r }),
                t == transfer@,
                self@ == r1,
                n == t.metadata.group_count,
                g <= n,
                forall|h: u32| 0 <= h < n ==> #[trigger] t.completed.contains_key(h),
                encoded@ == concat_groups(t.completed, g as int),
            decreases n - g,
        {
            proof {
                assert(t.completed.contains_key(g));
                assert(transfer.completed@.contains_key(g));
                assert(t.completed[g] == transfer.completed@[g]@);
            }
            match transfer.completed.get(&g) {
                Some(part) => {
                    append_bytes(&mut encoded, part.as_slice());
                },
                None => {},
            }
            g = g + 1;
        }
        let mut events: Vec<TransferEvent> = Vec::new();
        if transfer.metadata.encoded_size > encoded.len() as u64 {
            events.push(TransferEvent::Failed { id, reason: "encoded size is invalid".to_owned() });
            proof {
                lemma_reason_texts(Seq::empty());
            }
            return events;
        }
        encoded.truncate(transfer.metadata.encoded_size as usize);
        let metadata = transfer.metadata;
        match decode_content(&metadata, encoded) {
            Ok(data) => {
                events.push(TransferEvent::Completed { metadata, data });
            },
            Err(reason) => {
                events.push(TransferEvent::Failed { id, reason });
            },
        }
        events
    }
}

/// Slots for `n` shards, all empty.
fn empty_slots(n: usize) -> (res: Vec<Option<Vec<u8>>>)
    ensures
        slot_views(res@) == fresh_slots(n as int),
        res@.len() == n,
{
    let mut slots: Vec<Option<Vec<u8>>> = Vec::new();
    let mut i: usize = 0;
    while i < n
        invariant
            i <= n,
            slot_views(slots@) == fresh_slots(i as int),
            slots@.len() == i,
            forall|j: int| 0 <= j < i ==> (#[trigger] slots@[j]) is None,
        decreases n - i,
    {
        slots.push(None);
        i = i + 1;
        proof {
            assert forall|j: int| 0 <= j < i implies #[trigger] slot_views(slots@)[j] == fresh_slots(
                i as int,
            )[j] by {
                assert(slots@[j] is None);
            }
            assert(slot_views(slots@) =~= fresh_slots(i as int));
        }
    }
    slots
}

/// Number of filled slots.
fn count_present(slots: &Vec<Option<Vec<u8>>>) -> (res: usize)
    ensures
        res == present_count(slot_views(slots@)),
{
    let mut count: usize = 0;
    let mut i: usize = 0;
    while i < slots.len()
        invariant
            i <= slots@.len(),
            count <= i,
            count == present_count(slot_views(slots@).subrange(0, i as int)),
        decreases slots@.len() - i,
    {
        proof {
            assert(slot_views(slots@).subrange(0, i + 1).drop_last() =~= slot_views(slots@).subrange(0, i as int));
        }
        if slots[i].is_some() {
            count = count + 1;
        }
        i = i + 1;
    }
    proof {
        assert(slot_views(slots@).subrange(0, slots@.len() as int) =~= slot_views(slots@));
    }
    count
}

/// The first `d` shards, all filled, end to end.
fn join_data_shards(slots: &Vec<Option<Vec<u8>>>, d: usize, Ghost(shards): Ghost<Seq<Seq<u8>>>) -> (res: Vec<u8>)
    requires
        d <= slots@.len(),
        slot_views(slots@) == shards.map_values(|s: Seq<u8>| Some(s)),
    ensures
        res@ == concat_shards(shards, d as int),
{
    let mut out: Vec<u8> = Vec::new();
    let mut i: usize = 0;
    while i < d
        invariant
            d <= slots@.len(),
            slot_views(slots@) == shards.map_values(|s: Seq<u8>| Some(s)),
            i <= d,
            out@ == concat_shards(shards, i as int),
        decreases d - i,
    {
        proof {
            assert(slot_views(slots@).len() == shards.len());
            assert(shards.map_values(|s: Seq<u8>| Some(s))[i as int] == Some(shards[i as int]));
            assert(slot_views(slots@)[i as int] == Some(shards[i as int]));
        }
        match &slots[i] {
            Some(shard) => {
                append_bytes(&mut out, shard.as_slice());
            },
            None => {},
        }
        i = i + 1;
    }
    out
}

/// `list` already holds shard `index` of group `group`.
fn pending_has(list: &Vec<PendingShard>, group: u32, index: u8) -> (res: bool)
    ensures
        res == has_pending(pending_views(list@), group, index),
{
    let mut i: usize = 0;
    while i < list.len()
        invariant
            0 <= i <= list@.len(),
            forall|j: int| 0 <= j < i ==> !((#[trigger] list@[j]).group == group && list@[j].index == index),
        decreases list@.len() - i,
    {
        if list[i].group == group && list[i].index == index {
            proof {
                assert(pending_views(list@)[i as int] == list@[i as int]@);
            }
            return true;
        }
        i = i + 1;
    }
    proof {
        if has_pending(pending_views(list@), group, index) {
            let j = choose|j: int|
                0 <= j < pending_views(list@).len() && (#[trigger] pending_views(list@)[j]).group == group
                    && pending_views(list@)[j].index == index;
            assert(list@[j]@ == pending_views(list@)[j]);
        }
    }
    false
}

} // verus!
