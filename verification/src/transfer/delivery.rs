//! What a receiver makes of the packets a sender built: the proof that a
//! transfer received in order, even with all but `d` shards of each group
//! lost, is reported started, group by group, and completed with the
//! original content.

use vstd::prelude::*;
use crate::transfer::codec::{erasure_reconstruct_spec, masked, present_count};
use crate::transfer::geometry::{ceil_div, geometry_spec, SHARD_SIZE};
use crate::transfer::packet::{
    end_spec, lemma_end_roundtrip, lemma_manifest_roundtrip, lemma_shard_roundtrip, manifest_fits,
    manifest_spec, parse_packet, received_metadata, shard_spec, valid_group_count, PacketModel,
};
use crate::transfer::receiver::{
    concat_groups, concat_shards, decode_content_spec, fresh_slots, ingest_spec, replay_step,
    has_pending, shard_step, IncomingModel, PendingModel, ReceiverModel, MAX_PENDING_SHARDS_PER_TRANSFER,
    MAX_PENDING_TRANSFERS,
};
use crate::transfer::sender::{
    group_data_shards, group_packets, group_shards, groups_packets, padded_shard, sharded_packets,
    MANIFEST_INTERVAL,
};
use crate::transfer::types::{EventModel, FailReason, MetadataModel};

verus! {

/// What a receiver in state `r` does with `packets`, one after another: the
/// state it ends in and the events it reports, in order.
pub open spec fn ingest_all(r: ReceiverModel, packets: Seq<Seq<u8>>) -> (ReceiverModel, Seq<EventModel>)
    decreases packets.len(),
{
    if packets.len() == 0 {
        (r, Seq::empty())
    } else {
        let (r1, first) = ingest_all(r, packets.drop_last());
        let (r2, last) = ingest_spec(r1, packets.last());
        (r2, first + last)
    }
}

/// `d + p` shards of `SHARD_SIZE` bytes that the erasure code gives back
/// whole from any `d` of them.
pub open spec fn erasure_ready(d: usize, p: usize, shards: Seq<Seq<u8>>) -> bool {
    &&& shards.len() == d + p
    &&& forall|i: int| 0 <= i < shards.len() ==> (#[trigger] shards[i]).len() == SHARD_SIZE
    &&& forall|keep: Seq<bool>|
        keep.len() == d + p && present_count(#[trigger] masked(shards, keep)) >= d
            ==> erasure_reconstruct_spec(d, p, masked(shards, keep)) == shards
}

/// Ingesting two runs of packets is ingesting the first, then the second.
proof fn lemma_ingest_all_concat(r: ReceiverModel, a: Seq<Seq<u8>>, b: Seq<Seq<u8>>)
    ensures
        ingest_all(r, a + b) == (
            ingest_all(ingest_all(r, a).0, b).0,
            ingest_all(r, a).1 + ingest_all(ingest_all(r, a).0, b).1,
        ),
    decreases b.len(),
{
    if b.len() == 0 {
        assert(a + b =~= a);
        assert(ingest_all(r, a).1 + Seq::<EventModel>::empty() =~= ingest_all(r, a).1);
    } else {
        assert((a + b).drop_last() =~= a + b.drop_last());
        assert((a + b).last() == b.last());
        lemma_ingest_all_concat(r, a, b.drop_last());
        let (ra, ea) = ingest_all(r, a);
        let (rb, eb) = ingest_all(ra, b.drop_last());
        let (rc, ec) = ingest_spec(rb, b.last());
        assert(ea + eb + ec =~= ea + (eb + ec));
    }
}

/// The bytes of `e` from `start` on, `len` of them, zeros past its end.
pub open spec fn padded_range(e: Seq<u8>, start: int, len: int) -> Seq<u8> {
    Seq::new(
        len as nat,
        |j: int|
            if start + j < e.len() {
                e[start + j]
            } else {
                0u8
            },
    )
}

/// The first `k` data shards of group `g`, end to end, are the `k` shard
/// lengths of the encoded bytes where the group starts.
proof fn lemma_group_data(e: Seq<u8>, d: int, g: int, k: int)
    requires
        d >= 1,
        g >= 0,
        0 <= k <= d,
    ensures
        concat_shards(group_data_shards(e, d, g), k) == padded_range(
            e,
            g * d * SHARD_SIZE,
            k * SHARD_SIZE,
        ),
    decreases k,
{
    let shards = group_data_shards(e, d, g);
    let base = g * d * SHARD_SIZE;
    if k == 0 {
        assert(padded_range(e, base, 0) =~= Seq::<u8>::empty());
    } else {
        lemma_group_data(e, d, g, k - 1);
        assert((g * d + (k - 1)) * SHARD_SIZE == base + (k - 1) * SHARD_SIZE) by (nonlinear_arith)
            requires
                base == g * d * SHARD_SIZE,
        ;
        let start = base + (k - 1) * SHARD_SIZE;
        assert(shards[k - 1] == padded_shard(e, start));
        assert(padded_range(e, base, k * SHARD_SIZE) =~= padded_range(
            e,
            base,
            (k - 1) * SHARD_SIZE,
        ) + padded_shard(e, start));
    }
}

/// Joining the first `k` shards looks only at those shards.
proof fn lemma_concat_prefix(a: Seq<Seq<u8>>, b: Seq<Seq<u8>>, k: int)
    requires
        0 <= k <= a.len(),
    ensures
        concat_shards(a + b, k) == concat_shards(a, k),
    decreases k,
{
    if k > 0 {
        lemma_concat_prefix(a, b, k - 1);
        assert((a + b)[k - 1] == a[k - 1]);
    }
}

/// The data a receiver keeps for group `g`: its data shards, end to end.
pub open spec fn group_data(e: Seq<u8>, d: usize, p: usize, g: int) -> Seq<u8> {
    concat_shards(group_shards(e, d, p, g), d as int)
}

/// The data of a group is the group's share of the encoded bytes.
proof fn lemma_group_data_range(e: Seq<u8>, d: usize, p: usize, g: int)
    requires
        d >= 1,
        g >= 0,
    ensures
        group_data(e, d, p, g) == padded_range(e, g * d * SHARD_SIZE, d * SHARD_SIZE),
{
    let ds = group_data_shards(e, d as int, g);
    assert(ds.len() == d);
    lemma_concat_prefix(ds, crate::transfer::codec::erasure_parity_spec(d, p, ds), d as int);
    lemma_group_data(e, d as int, g, d as int);
}

/// The groups `0..k` as a receiver keeps them once they are complete.
pub open spec fn completed_upto(e: Seq<u8>, d: usize, p: usize, k: int) -> Map<u32, Seq<u8>>
    decreases k,
{
    if k <= 0 {
        Map::empty()
    } else {
        completed_upto(e, d, p, k - 1).insert((k - 1) as u32, group_data(e, d, p, k - 1))
    }
}

proof fn lemma_completed_upto(e: Seq<u8>, d: usize, p: usize, k: int)
    requires
        0 <= k <= u32::MAX,
    ensures
        completed_upto(e, d, p, k).dom().finite(),
        completed_upto(e, d, p, k).len() == k,
        forall|g: u32| #[trigger] completed_upto(e, d, p, k).contains_key(g) <==> g < k,
        forall|g: u32| g < k ==> #[trigger] completed_upto(e, d, p, k)[g] == group_data(e, d, p, g as int),
    decreases k,
{
    if k > 0 {
        lemma_completed_upto(e, d, p, k - 1);
        assert(!completed_upto(e, d, p, k - 1).contains_key((k - 1) as u32));
    }
}

/// The first `j` complete groups, end to end, are the first `j` group
/// lengths of the encoded bytes.
proof fn lemma_concat_groups(e: Seq<u8>, d: usize, p: usize, k: int, j: int)
    requires
        d >= 1,
        0 <= j <= k <= u32::MAX,
    ensures
        concat_groups(completed_upto(e, d, p, k), j) == padded_range(e, 0, j * d * SHARD_SIZE),
    decreases j,
{
    if j == 0 {
        assert(padded_range(e, 0, 0) =~= Seq::<u8>::empty());
    } else {
        lemma_concat_groups(e, d, p, k, j - 1);
        lemma_completed_upto(e, d, p, k);
        lemma_group_data_range(e, d, p, j - 1);
        let c = completed_upto(e, d, p, k);
        assert(c[(j - 1) as u32] == group_data(e, d, p, j - 1));
        assert((j - 1) * d * SHARD_SIZE + d * SHARD_SIZE == j * d * SHARD_SIZE) by (nonlinear_arith);
        assert(padded_range(e, 0, j * d * SHARD_SIZE) =~= padded_range(
            e,
            0,
            (j - 1) * d * SHARD_SIZE,
        ) + padded_range(e, (j - 1) * d * SHARD_SIZE, d * SHARD_SIZE));
    }
}

/// What the delivery of the packets of `m`, carrying `e` for `data`,
/// rests on: the metadata is what a manifest can carry, the encoded bytes
/// decode to the data, and every group's shards can be erasure-decoded.
pub open spec fn sharded_transfer(m: MetadataModel, e: Seq<u8>, data: Seq<u8>) -> bool {
    let (d, p) = geometry_spec(m.encoded_size);
    &&& m.encoded_size == e.len()
    &&& valid_group_count(m.encoded_size, m.group_count)
    &&& m.sha256.len() == 32
    &&& manifest_fits(m)
    &&& decode_content_spec(received_metadata(m, m.group_count), e) == Ok::<Seq<u8>, FailReason>(data)
    &&& groups_ready(e, m.group_count as int)
}

/// The first `count` groups of shards of `e` can be erasure-decoded.
pub open spec fn groups_ready(e: Seq<u8>, count: int) -> bool {
    let (d, p) = geometry_spec(e.len() as u64);
    forall|g: int| 0 <= g < count ==> erasure_ready(d, p, #[trigger] group_shards(e, d, p, g))
}

/// Each group of a sharded transfer can be erasure-decoded.
proof fn lemma_group_ready(m: MetadataModel, e: Seq<u8>, data: Seq<u8>, g: int)
    requires
        sharded_transfer(m, e, data),
        0 <= g < m.group_count,
    ensures
        erasure_ready(
            geometry_spec(m.encoded_size).0,
            geometry_spec(m.encoded_size).1,
            group_shards(e, geometry_spec(m.encoded_size).0, geometry_spec(m.encoded_size).1, g),
        ),
{
    assert(e.len() as u64 == m.encoded_size);
}

/// The receiver `r0` with transfer `rm` under way.
pub open spec fn transfer_state(
    r0: ReceiverModel,
    rm: MetadataModel,
    groups: Map<u32, Seq<Option<Seq<u8>>>>,
    completed: Map<u32, Seq<u8>>,
) -> ReceiverModel {
    ReceiverModel {
        incoming: r0.incoming.insert(rm.id, IncomingModel { metadata: rm, groups, completed }),
        pending: r0.pending,
    }
}

/// The progress reports for the first `k` groups of `m`.
pub open spec fn progress_events(m: MetadataModel, k: int) -> Seq<EventModel> {
    Seq::new(
        k as nat,
        |i: int|
            EventModel::Progress {
                id: m.id,
                completed_groups: (i + 1) as u32,
                total_groups: m.group_count,
            },
    )
}

/// The receiver and events once the shard that completes group `g` arrived.
pub open spec fn after_group(r0: ReceiverModel, m: MetadataModel, e: Seq<u8>, data: Seq<u8>, g: int) -> (ReceiverModel, Seq<EventModel>) {
    let progress = seq![
        EventModel::Progress {
            id: m.id,
            completed_groups: (g + 1) as u32,
            total_groups: m.group_count,
        },
    ];
    if g + 1 < m.group_count {
        (group_start(r0, m, e, g + 1), progress)
    } else {
        (
            r0,
            progress + seq![
                EventModel::Completed { metadata: received_metadata(m, m.group_count), data },
            ],
        )
    }
}

/// The encoded bytes fit in the groups that carry them.
proof fn lemma_groups_cover(len: int, group_bytes: int, n: int)
    by (nonlinear_arith)
    requires
        group_bytes > 0,
        len >= 0,
        n == (len + group_bytes - 1) / group_bytes,
    ensures
        len <= n * group_bytes,
{
}

/// The shard packets of group `g` of `m`.
pub open spec fn shard_packets(m: MetadataModel, e: Seq<u8>, g: int) -> Seq<Seq<u8>> {
    let (d, p) = geometry_spec(m.encoded_size);
    Seq::new(
        (d + p) as nat,
        |i: int| shard_spec(m.id, g as u32, i as u8, group_shards(e, d, p, g)[i]),
    )
}

/// Once group `g` is complete, its shards and the manifest change nothing.
proof fn lemma_quiet_after(r0: ReceiverModel, m: MetadataModel, e: Seq<u8>, data: Seq<u8>, g: int, k: int, i: int)
    requires
        sharded_transfer(m, e, data),
        0 <= g < k < m.group_count,
        0 <= i < geometry_spec(m.encoded_size).0 + geometry_spec(m.encoded_size).1,
    ensures
        ingest_spec(group_start(r0, m, e, k), shard_packets(m, e, g)[i]) == (
            group_start(r0, m, e, k),
            Seq::<EventModel>::empty(),
        ),
        ingest_spec(group_start(r0, m, e, k), manifest_spec(m)) == (
            group_start(r0, m, e, k),
            Seq::<EventModel>::empty(),
        ),
{
    let (d, p) = geometry_spec(m.encoded_size);
    let shards = group_shards(e, d, p, g);
    lemma_group_ready(m, e, data, g as int);
    assert(shards[i].len() == SHARD_SIZE);
    lemma_shard_roundtrip(m.id, g as u32, i as u8, shards[i]);
    lemma_completed_upto(e, d, p, k);
    assert(completed_upto(e, d, p, k).contains_key(g as u32));
    lemma_manifest_roundtrip(m);
}

/// The two manifests that open a transfer start it, once.
proof fn lemma_opening(r0: ReceiverModel, m: MetadataModel, e: Seq<u8>, data: Seq<u8>)
    requires
        sharded_transfer(m, e, data),
        !r0.incoming.contains_key(m.id),
        !r0.pending.contains_key(m.id),
    ensures
        ingest_all(r0, seq![manifest_spec(m), manifest_spec(m)]) == (
            group_start(r0, m, e, 0),
            seq![EventModel::Started(received_metadata(m, m.group_count))],
        ),
{
    let (d, p) = geometry_spec(m.encoded_size);
    let two = seq![manifest_spec(m), manifest_spec(m)];
    let s0 = group_start(r0, m, e, 0);
    lemma_manifest_roundtrip(m);
    assert(completed_upto(e, d, p, 0) == Map::<u32, Seq<u8>>::empty());
    assert(two.drop_last().drop_last() =~= Seq::<Seq<u8>>::empty());
    assert(ingest_all(r0, two.drop_last().drop_last()) == (r0, Seq::<EventModel>::empty()));
    assert(two.drop_last().last() == manifest_spec(m));
    assert(ingest_spec(r0, manifest_spec(m)) == (
        s0,
        seq![EventModel::Started(received_metadata(m, m.group_count))],
    ));
    assert(ingest_all(r0, two.drop_last()).1 =~= seq![
        EventModel::Started(received_metadata(m, m.group_count)),
    ]);
    assert(ingest_spec(s0, manifest_spec(m)) == (s0, Seq::<EventModel>::empty()));
    assert(ingest_all(r0, two).1 =~= seq![EventModel::Started(received_metadata(m, m.group_count))]);
}

/// An empty group holds no shard.
proof fn lemma_fresh_count(n: int)
    requires
        n >= 0,
    ensures
        present_count(fresh_slots(n)) == 0,
    decreases n,
{
    if n > 0 {
        assert(fresh_slots(n).drop_last() =~= fresh_slots(n - 1));
        lemma_fresh_count(n - 1);
    } else {
        assert(fresh_slots(n).len() == 0);
    }
}

/// A transfer of more than one group uses eight data and four parity
/// shards per group.
proof fn lemma_many_groups(m: MetadataModel)
    requires
        valid_group_count(m.encoded_size, m.group_count),
        m.group_count >= 2,
    ensures
        geometry_spec(m.encoded_size) == (8usize, 4usize),
{
    let len = m.encoded_size as int;
    let shards = ceil_div(len, SHARD_SIZE as int);
    let (d, p) = geometry_spec(m.encoded_size);
    if shards <= 4 {
        assert(len <= d * SHARD_SIZE) by (nonlinear_arith)
            requires
                shards == (len + SHARD_SIZE - 1) / (SHARD_SIZE as int),
                shards <= d,
                len >= 0,
        ;
        assert(ceil_div(len, d * SHARD_SIZE) <= 1) by (nonlinear_arith)
            requires
                len <= d * SHARD_SIZE,
                d >= 1,
                len >= 0,
        ;
    }
}

/// Once the transfer of `m` left receiver `r0`, `r` differs from `r0` at
/// most by up to `k` shards of the last group waiting for a manifest.
pub open spec fn waiting(r0: ReceiverModel, m: MetadataModel, r: ReceiverModel, k: int) -> bool {
    &&& r.incoming == r0.incoming
    &&& r.pending.contains_key(m.id) ==> r.pending[m.id].len() <= k && forall|j: int|
        0 <= j < r.pending[m.id].len() ==> (#[trigger] r.pending[m.id][j]).group == (
        m.group_count - 1) as u32
}

/// The slots of group `g` of `t`, as a shard for it would find them.
pub open spec fn group_slots(t: IncomingModel, g: u32, size: int) -> Seq<Option<Seq<u8>>> {
    if t.groups.contains_key(g) {
        t.groups[g]
    } else {
        fresh_slots(size)
    }
}

/// Shards of one group, too few to complete it, replayed into a fresh
/// transfer report nothing.
proof fn lemma_replay_quiet(r: ReceiverModel, m: MetadataModel, list: Seq<PendingModel>)
    requires
        geometry_spec(m.encoded_size) == (8usize, 4usize),
        m.group_count >= 2,
        r.incoming.contains_key(m.id),
        r.incoming[m.id].metadata == received_metadata(m, m.group_count),
        r.incoming[m.id].completed == Map::<u32, Seq<u8>>::empty(),
        group_slots(r.incoming[m.id], (m.group_count - 1) as u32, 12).len() == 12,
        present_count(group_slots(r.incoming[m.id], (m.group_count - 1) as u32, 12)) + list.len()
            < 8,
        forall|j: int| 0 <= j < list.len() ==> (#[trigger] list[j]).group == (m.group_count - 1) as u32,
    ensures
        replay_step(r, m.id, list).1 == Seq::<EventModel>::empty(),
        replay_step(r, m.id, list).0.incoming.contains_key(m.id),
        replay_step(r, m.id, list).0.incoming[m.id].metadata == received_metadata(m, m.group_count),
        replay_step(r, m.id, list).0.incoming[m.id].completed == Map::<u32, Seq<u8>>::empty(),
    decreases list.len(),
{
    if list.len() > 0 {
        let id = m.id;
        let g = (m.group_count - 1) as u32;
        let t = r.incoming[id];
        let item = list[0];
        assert(item.group == g);
        let (r1, first) = shard_step(r, id, item.group, item.index, item.data);
        let slots = group_slots(t, g, 12);
        if item.index < 12 && slots[item.index as int] is None {
            lemma_fill_empty(slots, item.index as int, item.data);
            let filled = slots.update(item.index as int, Some(item.data));
            let t1 = IncomingModel { groups: t.groups.insert(g, filled), ..t };
            assert(r1.incoming[id] == t1);
            assert(group_slots(t1, g, 12) == filled);
        }
        assert(first == Seq::<EventModel>::empty());
        let rest = list.drop_first();
        assert forall|j: int| 0 <= j < rest.len() implies (#[trigger] rest[j]).group == g by {
            assert(rest[j] == list[j + 1]);
        }
        lemma_replay_quiet(r1, m, rest);
        assert(first + replay_step(r1, id, rest).1 =~= Seq::<EventModel>::empty());
    }
}

/// What follows the last group's shards: a manifest copy when the group
/// count is a multiple of eight, which starts the transfer afresh, and
/// the end packet, which then finds nothing to finish.
pub open spec fn closing_packets(m: MetadataModel) -> Seq<Seq<u8>> {
    (if m.group_count as int % (MANIFEST_INTERVAL as int) == 0 {
        seq![manifest_spec(m)]
    } else {
        Seq::empty()
    }) + seq![end_spec(m.id, m.sha256)]
}

/// The events of the closing packets.
pub open spec fn closing_events(m: MetadataModel) -> Seq<EventModel> {
    if m.group_count > 0 && m.group_count as int % (MANIFEST_INTERVAL as int) == 0 {
        seq![EventModel::Started(received_metadata(m, m.group_count))]
    } else {
        Seq::empty()
    }
}

proof fn lemma_closing(r0: ReceiverModel, m: MetadataModel, e: Seq<u8>, data: Seq<u8>, r: ReceiverModel)
    requires
        sharded_transfer(m, e, data),
        !r0.incoming.contains_key(m.id),
        m.group_count >= 1,
        waiting(r0, m, r, geometry_spec(m.encoded_size).1 as int),
    ensures
        ingest_all(r, closing_packets(m)).1 == closing_events(m),
{
    let id = m.id;
    let rm = received_metadata(m, m.group_count);
    let cp = closing_packets(m);
    lemma_end_roundtrip(id, m.sha256);
    assert(cp.last() == end_spec(id, m.sha256));
    if m.group_count as int % (MANIFEST_INTERVAL as int) == 0 {
        lemma_many_groups(m);
        lemma_manifest_roundtrip(m);
        assert(cp.drop_last().drop_last() =~= Seq::<Seq<u8>>::empty());
        assert(ingest_all(r, cp.drop_last().drop_last()) == (r, Seq::<EventModel>::empty()));
        assert(cp.drop_last().last() == manifest_spec(m));
        let fresh = IncomingModel { metadata: rm, groups: Map::empty(), completed: Map::empty() };
        let r1 = ReceiverModel { incoming: r.incoming.insert(id, fresh), ..r };
        lemma_fresh_count(12);
        assert(group_slots(fresh, (m.group_count - 1) as u32, 12) == fresh_slots(12));
        let (r3, opened) = ingest_spec(r, manifest_spec(m));
        if r1.pending.contains_key(id) {
            let list = r1.pending[id];
            let r2 = ReceiverModel { pending: r1.pending.remove(id), ..r1 };
            assert(r2.incoming[id] == fresh);
            lemma_replay_quiet(r2, m, list);
            assert(opened =~= seq![EventModel::Started(rm)]);
        } else {
            assert(opened =~= seq![EventModel::Started(rm)]);
        }
        assert(ingest_all(r, cp.drop_last()) == (r3, Seq::<EventModel>::empty() + opened));
        assert(Seq::<EventModel>::empty() + opened =~= opened);
        assert(r3.incoming[id].completed.len() == 0);
        assert(ingest_spec(r3, end_spec(id, m.sha256)).1 == Seq::<EventModel>::empty());
        assert(opened + Seq::<EventModel>::empty() =~= opened);
    } else {
        assert(cp.drop_last() =~= Seq::<Seq<u8>>::empty());
        assert(ingest_all(r, cp.drop_last()) == (r, Seq::<EventModel>::empty()));
        assert(ingest_spec(r, end_spec(id, m.sha256)).1 == Seq::<EventModel>::empty());
        assert(Seq::<EventModel>::empty() + Seq::<EventModel>::empty() =~= Seq::<EventModel>::empty());
    }
}

/// The events a receiver that has no state for transfer `m` reports for
/// its packets, received in order: the start, the completion of each
/// group, the content checked against its size and SHA-256, and, when the
/// group count is a multiple of eight, a fresh start for the manifest copy
/// that follows the last group.
pub open spec fn delivery_events(m: MetadataModel, data: Seq<u8>) -> Seq<EventModel> {
    let rm = received_metadata(m, m.group_count);
    seq![EventModel::Started(rm)] + progress_events(m, m.group_count as int) + seq![
        EventModel::Completed { metadata: rm, data },
    ] + closing_events(m)
}

/// Every receiver that has no state for transfer `m` reports
/// `delivery_events(m, data)` for `packets`.
pub open spec fn delivers(packets: Seq<Seq<u8>>, m: MetadataModel, data: Seq<u8>) -> bool {
    forall|r: ReceiverModel|
        !r.incoming.contains_key(m.id) && !r.pending.contains_key(m.id) ==> #[trigger] ingest_all(
            r,
            packets,
        ).1 == delivery_events(m, data)
}

/// How many of the first `k` shards of group `g` arrive.
pub open spec fn kept_count(keep: spec_fn(u32, u8) -> bool, g: int, k: int) -> int
    decreases k,
{
    if k <= 0 {
        0
    } else {
        kept_count(keep, g, k - 1) + if keep(g as u32, (k - 1) as u8) {
            1int
        } else {
            0int
        }
    }
}

proof fn lemma_kept_count_bounds(keep: spec_fn(u32, u8) -> bool, g: int, k: int)
    requires
        0 <= k,
    ensures
        0 <= kept_count(keep, g, k) <= k,
        kept_count(keep, g, k) == 0 ==> forall|j: int| 0 <= j < k ==> !#[trigger] keep(g as u32, j as u8),
    decreases k,
{
    if k > 0 {
        lemma_kept_count_bounds(keep, g, k - 1);
    }
}

/// The slots of group `g` once its first `k` shards passed, those that
/// arrived filled.
pub open spec fn masked_prefix(
    shards: Seq<Seq<u8>>,
    keep: spec_fn(u32, u8) -> bool,
    g: int,
    k: int,
) -> Seq<Option<Seq<u8>>> {
    Seq::new(
        shards.len(),
        |j: int|
            if j < k && keep(g as u32, j as u8) {
                Some(shards[j])
            } else {
                None
            },
    )
}

/// Filling an empty slot adds one shard.
proof fn lemma_fill_empty(slots: Seq<Option<Seq<u8>>>, i: int, shard: Seq<u8>)
    requires
        0 <= i < slots.len(),
        slots[i] is None,
    ensures
        present_count(slots.update(i, Some(shard))) == present_count(slots) + 1,
    decreases slots.len(),
{
    let filled = slots.update(i, Some(shard));
    if i == slots.len() - 1 {
        assert(filled.drop_last() =~= slots.drop_last());
    } else {
        assert(filled.drop_last() =~= slots.drop_last().update(i, Some(shard)));
        lemma_fill_empty(slots.drop_last(), i, shard);
    }
}

/// The slots hold as many shards as arrived.
proof fn lemma_masked_count(shards: Seq<Seq<u8>>, keep: spec_fn(u32, u8) -> bool, g: int, k: int)
    requires
        0 <= k <= shards.len(),
    ensures
        present_count(masked_prefix(shards, keep, g, k)) == kept_count(keep, g, k),
    decreases k,
{
    if k == 0 {
        assert(masked_prefix(shards, keep, g, 0) =~= fresh_slots(shards.len() as int));
        lemma_fresh_count(shards.len() as int);
    } else {
        lemma_masked_count(shards, keep, g, k - 1);
        let before = masked_prefix(shards, keep, g, k - 1);
        if keep(g as u32, (k - 1) as u8) {
            assert(masked_prefix(shards, keep, g, k) =~= before.update(k - 1, Some(shards[k - 1])));
            lemma_fill_empty(before, k - 1, shards[k - 1]);
        } else {
            assert(masked_prefix(shards, keep, g, k) =~= before);
        }
    }
}

/// The receiver `r0` with transfer `m` at the start of group `g`.
pub open spec fn group_start(r0: ReceiverModel, m: MetadataModel, e: Seq<u8>, g: int) -> ReceiverModel {
    let (d, p) = geometry_spec(m.encoded_size);
    transfer_state(r0, received_metadata(m, m.group_count), Map::empty(), completed_upto(e, d, p, g))
}

/// The receiver `r0` once the first `k` shards of group `g` passed, while
/// too few arrived to complete it.
pub open spec fn filling(
    r0: ReceiverModel,
    m: MetadataModel,
    e: Seq<u8>,
    keep: spec_fn(u32, u8) -> bool,
    g: int,
    k: int,
) -> ReceiverModel {
    let (d, p) = geometry_spec(m.encoded_size);
    transfer_state(
        r0,
        received_metadata(m, m.group_count),
        if kept_count(keep, g, k) == 0 {
            Map::empty()
        } else {
            Map::empty().insert(g as u32, masked_prefix(group_shards(e, d, p, g), keep, g, k))
        },
        completed_upto(e, d, p, g),
    )
}

/// The shard packets of group `g` among its first `k` that arrive.
pub open spec fn kept_shards(m: MetadataModel, e: Seq<u8>, keep: spec_fn(u32, u8) -> bool, g: int, k: int) -> Seq<Seq<u8>>
    decreases k,
{
    if k <= 0 {
        Seq::empty()
    } else {
        kept_shards(m, e, keep, g, k - 1) + if keep(g as u32, (k - 1) as u8) {
            seq![shard_packets(m, e, g)[k - 1]]
        } else {
            Seq::empty()
        }
    }
}

/// A shard that arrives while its group is incomplete fills its slot; the
/// one that brings the group to `d` shards completes it, and that of the
/// last group the transfer.
#[verifier::rlimit(80)]
proof fn lemma_kept_shard(
    r0: ReceiverModel,
    m: MetadataModel,
    e: Seq<u8>,
    data: Seq<u8>,
    keep: spec_fn(u32, u8) -> bool,
    g: int,
    k: int,
)
    requires
        sharded_transfer(m, e, data),
        !r0.incoming.contains_key(m.id),
        0 <= g < m.group_count,
        0 <= k < geometry_spec(m.encoded_size).0 + geometry_spec(m.encoded_size).1,
        keep(g as u32, k as u8),
        kept_count(keep, g, k) < geometry_spec(m.encoded_size).0,
    ensures
        ingest_spec(filling(r0, m, e, keep, g, k), shard_packets(m, e, g)[k]) == if kept_count(
            keep,
            g,
            k,
        ) + 1 < geometry_spec(m.encoded_size).0 {
            (filling(r0, m, e, keep, g, k + 1), Seq::<EventModel>::empty())
        } else {
            after_group(r0, m, e, data, g)
        },
{
    let (d, p) = geometry_spec(m.encoded_size);
    let rm = received_metadata(m, m.group_count);
    let id = m.id;
    let n = m.group_count;
    let shards = group_shards(e, d, p, g);
    lemma_group_ready(m, e, data, g);
    assert(shards[k].len() == SHARD_SIZE);
    lemma_shard_roundtrip(id, g as u32, k as u8, shards[k]);
    assert(shard_packets(m, e, g)[k] == shard_spec(id, g as u32, k as u8, shards[k]));
    lemma_completed_upto(e, d, p, g);
    lemma_completed_upto(e, d, p, g + 1);
    lemma_kept_count_bounds(keep, g, k);
    let c = kept_count(keep, g, k);
    let r = filling(r0, m, e, keep, g, k);
    let t = r.incoming[id];
    assert(t.metadata == rm);
    assert(!t.completed.contains_key(g as u32));
    let slots = if t.groups.contains_key(g as u32) {
        t.groups[g as u32]
    } else {
        fresh_slots(d + p)
    };
    assert(slots =~= masked_prefix(shards, keep, g, k));
    let filled = slots.update(k, Some(shards[k]));
    assert(filled =~= masked_prefix(shards, keep, g, k + 1));
    lemma_masked_count(shards, keep, g, k + 1);
    assert(present_count(filled) == c + 1);
    if c + 1 < d {
        let t1 = IncomingModel { groups: t.groups.insert(g as u32, filled), ..t };
        assert(t.groups.insert(g as u32, filled) =~= Map::empty().insert(
            g as u32,
            masked_prefix(shards, keep, g, k + 1),
        ));
        assert(r.incoming.insert(id, t1) =~= filling(r0, m, e, keep, g, k + 1).incoming);
    } else {
        let mask = Seq::new((d + p) as nat, |j: int| j < k + 1 && keep(g as u32, j as u8));
        assert(filled =~= masked(shards, mask));
        assert(erasure_reconstruct_spec(d, p, filled) == shards);
        let t1 = IncomingModel {
            groups: t.groups.remove(g as u32),
            completed: t.completed.insert(g as u32, concat_shards(shards, d as int)),
            ..t
        };
        assert(t.groups.remove(g as u32) =~= Map::empty());
        assert(t1.completed == completed_upto(e, d, p, g + 1));
        assert(t1.completed.len() == g + 1);
        let r1 = ReceiverModel { incoming: r.incoming.insert(id, t1), ..r };
        if g + 1 < n {
            assert(r1.incoming =~= group_start(r0, m, e, g + 1).incoming);
        } else {
            assert(valid_group_count(m.encoded_size, n));
            lemma_concat_groups(e, d, p, n as int, n as int);
            let joined = concat_groups(t1.completed, n as int);
            lemma_groups_cover(e.len() as int, d * SHARD_SIZE, n as int);
            assert(n * (d * SHARD_SIZE) == n * d * SHARD_SIZE) by (nonlinear_arith);
            assert(joined.subrange(0, e.len() as int) =~= e);
            assert(r1.incoming.remove(id) =~= r0.incoming);
        }
    }
}

/// Ingesting one more packet.
proof fn lemma_ingest_push(r: ReceiverModel, packets: Seq<Seq<u8>>, packet: Seq<u8>)
    ensures
        ingest_all(r, packets.push(packet)) == (
            ingest_spec(ingest_all(r, packets).0, packet).0,
            ingest_all(r, packets).1 + ingest_spec(ingest_all(r, packets).0, packet).1,
        ),
{
    assert(packets.push(packet).drop_last() =~= packets);
}

/// The shards of a group other than the last, those of them that arrive,
/// complete it once `d` arrived, and change nothing after.
proof fn lemma_group_run(
    r0: ReceiverModel,
    m: MetadataModel,
    e: Seq<u8>,
    data: Seq<u8>,
    keep: spec_fn(u32, u8) -> bool,
    g: int,
    k: int,
)
    requires
        sharded_transfer(m, e, data),
        !r0.incoming.contains_key(m.id),
        0 <= g,
        g + 1 < m.group_count,
        0 <= k <= geometry_spec(m.encoded_size).0 + geometry_spec(m.encoded_size).1,
    ensures
        ingest_all(group_start(r0, m, e, g), kept_shards(m, e, keep, g, k)) == if kept_count(
            keep,
            g,
            k,
        ) < geometry_spec(m.encoded_size).0 {
            (filling(r0, m, e, keep, g, k), Seq::<EventModel>::empty())
        } else {
            after_group(r0, m, e, data, g)
        },
    decreases k,
{
    let (d, p) = geometry_spec(m.encoded_size);
    let start = group_start(r0, m, e, g);
    if k == 0 {
        assert(filling(r0, m, e, keep, g, 0) == start);
    } else {
        lemma_group_run(r0, m, e, data, keep, g, k - 1);
        let before = kept_shards(m, e, keep, g, k - 1);
        let c = kept_count(keep, g, k - 1);
        if keep(g as u32, (k - 1) as u8) {
            let packet = shard_packets(m, e, g)[k - 1];
            assert(kept_shards(m, e, keep, g, k) =~= before.push(packet));
            lemma_ingest_push(start, before, packet);
            if c < d {
                lemma_kept_shard(r0, m, e, data, keep, g, k - 1);
                let ev = ingest_spec(filling(r0, m, e, keep, g, k - 1), packet).1;
                assert(Seq::<EventModel>::empty() + ev =~= ev);
            } else {
                lemma_quiet_after(r0, m, e, data, g, g + 1, k - 1);
                let ev = after_group(r0, m, e, data, g).1;
                assert(ev + Seq::<EventModel>::empty() =~= ev);
            }
        } else {
            assert(kept_shards(m, e, keep, g, k) =~= before);
            let shards = group_shards(e, d, p, g);
            assert(masked_prefix(shards, keep, g, k) =~= masked_prefix(shards, keep, g, k - 1));
            assert(filling(r0, m, e, keep, g, k) == filling(r0, m, e, keep, g, k - 1));
        }
    }
}

/// A shard of the last group that arrives after its transfer finished
/// reports nothing and at most waits for a manifest.
proof fn lemma_waiting_step(
    r0: ReceiverModel,
    m: MetadataModel,
    e: Seq<u8>,
    data: Seq<u8>,
    r: ReceiverModel,
    j: int,
    i: int,
)
    requires
        sharded_transfer(m, e, data),
        !r0.incoming.contains_key(m.id),
        m.group_count >= 1,
        waiting(r0, m, r, j),
        0 <= j,
        0 <= i < geometry_spec(m.encoded_size).0 + geometry_spec(m.encoded_size).1,
    ensures
        ingest_spec(r, shard_packets(m, e, m.group_count - 1)[i]).1 == Seq::<EventModel>::empty(),
        waiting(r0, m, ingest_spec(r, shard_packets(m, e, m.group_count - 1)[i]).0, j + 1),
{
    let (d, p) = geometry_spec(m.encoded_size);
    let g = m.group_count - 1;
    let shards = group_shards(e, d, p, g);
    lemma_group_ready(m, e, data, g);
    assert(shards[i].len() == SHARD_SIZE);
    lemma_shard_roundtrip(m.id, g as u32, i as u8, shards[i]);
    assert(shard_packets(m, e, g)[i] == shard_spec(m.id, g as u32, i as u8, shards[i]));
    if r.pending.contains_key(m.id) || r.pending.len() < 16 {
        let list = if r.pending.contains_key(m.id) {
            r.pending[m.id]
        } else {
            Seq::empty()
        };
        let item = PendingModel { group: g as u32, index: i as u8, data: shards[i] };
        let pushed = list.push(item);
        assert forall|x: int| 0 <= x < pushed.len() implies (#[trigger] pushed[x]).group == g as u32 by {
            if x < list.len() {
                assert(pushed[x] == list[x]);
            }
        }
    }
}

/// The shards of the last group, those of them that arrive: once `d`
/// arrived the transfer completes, and the ones after wait quietly.
proof fn lemma_last_group_run(
    r0: ReceiverModel,
    m: MetadataModel,
    e: Seq<u8>,
    data: Seq<u8>,
    keep: spec_fn(u32, u8) -> bool,
    k: int,
)
    requires
        sharded_transfer(m, e, data),
        !r0.incoming.contains_key(m.id),
        !r0.pending.contains_key(m.id),
        m.group_count >= 1,
        0 <= k <= geometry_spec(m.encoded_size).0 + geometry_spec(m.encoded_size).1,
    ensures
        ({
            let g = m.group_count - 1;
            let run = ingest_all(group_start(r0, m, e, g), kept_shards(m, e, keep, g, k));
            if kept_count(keep, g, k) < geometry_spec(m.encoded_size).0 {
                run == (filling(r0, m, e, keep, g, k), Seq::<EventModel>::empty())
            } else {
                run.1 == after_group(r0, m, e, data, g).1 && waiting(
                    r0,
                    m,
                    run.0,
                    kept_count(keep, g, k) - geometry_spec(m.encoded_size).0,
                )
            }
        }),
    decreases k,
{
    let (d, p) = geometry_spec(m.encoded_size);
    let g = m.group_count - 1;
    let start = group_start(r0, m, e, g);
    if k == 0 {
        assert(filling(r0, m, e, keep, g, 0) == start);
    } else {
        lemma_last_group_run(r0, m, e, data, keep, k - 1);
        let before = kept_shards(m, e, keep, g, k - 1);
        let c = kept_count(keep, g, k - 1);
        if keep(g as u32, (k - 1) as u8) {
            let packet = shard_packets(m, e, g)[k - 1];
            assert(kept_shards(m, e, keep, g, k) =~= before.push(packet));
            lemma_ingest_push(start, before, packet);
            if c < d {
                lemma_kept_shard(r0, m, e, data, keep, g, k - 1);
                let ev = ingest_spec(filling(r0, m, e, keep, g, k - 1), packet).1;
                assert(Seq::<EventModel>::empty() + ev =~= ev);
            } else {
                let r = ingest_all(start, before).0;
                lemma_waiting_step(r0, m, e, data, r, c - d, k - 1);
                let ev = after_group(r0, m, e, data, g).1;
                assert(ev + Seq::<EventModel>::empty() =~= ev);
            }
        } else {
            assert(kept_shards(m, e, keep, g, k) =~= before);
            let shards = group_shards(e, d, p, g);
            assert(masked_prefix(shards, keep, g, k) =~= masked_prefix(shards, keep, g, k - 1));
            assert(filling(r0, m, e, keep, g, k) == filling(r0, m, e, keep, g, k - 1));
        }
    }
}

/// The manifest copy that follows group `g` when `g + 1` is a multiple of
/// eight.
pub open spec fn manifest_tail(m: MetadataModel, g: int) -> Seq<Seq<u8>> {
    if (g + 1) % (MANIFEST_INTERVAL as int) == 0 {
        seq![manifest_spec(m)]
    } else {
        Seq::empty()
    }
}

/// The packets of group `g` that arrive: its shards that arrive, then the
/// manifest copy, if any.
pub open spec fn kept_group_packets(m: MetadataModel, e: Seq<u8>, keep: spec_fn(u32, u8) -> bool, g: int) -> Seq<Seq<u8>> {
    let (d, p) = geometry_spec(m.encoded_size);
    kept_shards(m, e, keep, g, (d + p) as int) + manifest_tail(m, g)
}

/// The packets of the first `count` groups that arrive.
pub open spec fn kept_groups_packets(m: MetadataModel, e: Seq<u8>, keep: spec_fn(u32, u8) -> bool, count: int) -> Seq<Seq<u8>>
    decreases count,
{
    if count <= 0 {
        Seq::empty()
    } else {
        kept_groups_packets(m, e, keep, count - 1) + kept_group_packets(m, e, keep, count - 1)
    }
}

/// Every group keeps at least `d` of its shards.
pub open spec fn enough_shards(m: MetadataModel, keep: spec_fn(u32, u8) -> bool) -> bool {
    let (d, p) = geometry_spec(m.encoded_size);
    forall|g: u32| g < m.group_count ==> #[trigger] kept_count(keep, g as int, (d + p) as int) >= d
}

/// A group other than the last, with enough of its shards, is completed
/// and reported.
proof fn lemma_middle_group_kept(
    r0: ReceiverModel,
    m: MetadataModel,
    e: Seq<u8>,
    data: Seq<u8>,
    keep: spec_fn(u32, u8) -> bool,
    g: int,
)
    requires
        sharded_transfer(m, e, data),
        !r0.incoming.contains_key(m.id),
        enough_shards(m, keep),
        0 <= g,
        g + 1 < m.group_count,
    ensures
        ingest_all(group_start(r0, m, e, g), kept_group_packets(m, e, keep, g)) == (
            group_start(r0, m, e, g + 1),
            progress_events(m, g + 1).subrange(g, g + 1),
        ),
{
    let (d, p) = geometry_spec(m.encoded_size);
    let start = group_start(r0, m, e, g);
    let next = group_start(r0, m, e, g + 1);
    let shards_part = kept_shards(m, e, keep, g, (d + p) as int);
    let tail = manifest_tail(m, g);
    let progress = progress_events(m, g + 1).subrange(g, g + 1);
    assert(kept_count(keep, (g as u32) as int, (d + p) as int) >= d);
    lemma_group_run(r0, m, e, data, keep, g, (d + p) as int);
    assert(after_group(r0, m, e, data, g) == (next, progress)) by {
        assert(progress =~= seq![
            EventModel::Progress {
                id: m.id,
                completed_groups: (g + 1) as u32,
                total_groups: m.group_count,
            },
        ]);
    }
    lemma_ingest_all_concat(start, shards_part, tail);
    if (g + 1) % (MANIFEST_INTERVAL as int) == 0 {
        lemma_quiet_after(r0, m, e, data, g, g + 1, 0);
        assert(tail.drop_last() =~= Seq::<Seq<u8>>::empty());
        assert(ingest_all(next, tail.drop_last()) == (next, Seq::<EventModel>::empty()));
        assert(tail.last() == manifest_spec(m));
        assert(Seq::<EventModel>::empty() + Seq::<EventModel>::empty() =~= Seq::<EventModel>::empty());
    }
    assert(ingest_all(next, tail) == (next, Seq::<EventModel>::empty()));
    assert(progress + ingest_all(next, tail).1 =~= progress);
}

/// The groups before the last, with enough of their shards, are completed
/// and reported in order.
proof fn lemma_groups_kept(
    r0: ReceiverModel,
    m: MetadataModel,
    e: Seq<u8>,
    data: Seq<u8>,
    keep: spec_fn(u32, u8) -> bool,
    k: int,
)
    requires
        sharded_transfer(m, e, data),
        !r0.incoming.contains_key(m.id),
        enough_shards(m, keep),
        0 <= k < m.group_count,
    ensures
        ingest_all(group_start(r0, m, e, 0), kept_groups_packets(m, e, keep, k)) == (
            group_start(r0, m, e, k),
            progress_events(m, k),
        ),
    decreases k,
{
    if k == 0 {
        assert(progress_events(m, 0) =~= Seq::<EventModel>::empty());
    } else {
        lemma_groups_kept(r0, m, e, data, keep, k - 1);
        lemma_ingest_all_concat(
            group_start(r0, m, e, 0),
            kept_groups_packets(m, e, keep, k - 1),
            kept_group_packets(m, e, keep, k - 1),
        );
        lemma_middle_group_kept(r0, m, e, data, keep, k - 1);
        assert(progress_events(m, k - 1) + progress_events(m, k).subrange(k - 1, k)
            =~= progress_events(m, k));
    }
}

/// A waiting receiver waits for at most as many shards under a larger bound.
proof fn lemma_waiting_grows(r0: ReceiverModel, m: MetadataModel, r: ReceiverModel, j: int, k: int)
    requires
        waiting(r0, m, r, j),
        j <= k,
    ensures
        waiting(r0, m, r, k),
{
}

/// The packets of a sharded transfer that arrive, when every group keeps
/// at least `d` of its shards and every other packet arrives, deliver its
/// content to a receiver that has no state for it.
pub proof fn lemma_lossy_delivery(
    r0: ReceiverModel,
    m: MetadataModel,
    e: Seq<u8>,
    data: Seq<u8>,
    keep: spec_fn(u32, u8) -> bool,
)
    requires
        sharded_transfer(m, e, data),
        enough_shards(m, keep),
        !r0.incoming.contains_key(m.id),
        !r0.pending.contains_key(m.id),
    ensures
        ingest_all(
            r0,
            seq![manifest_spec(m), manifest_spec(m)] + kept_groups_packets(
                m,
                e,
                keep,
                m.group_count as int,
            ) + seq![end_spec(m.id, m.sha256)],
        ).1 == delivery_events(m, data),
{
    let (d, p) = geometry_spec(m.encoded_size);
    let n = m.group_count as int;
    let rm = received_metadata(m, m.group_count);
    let opening = seq![manifest_spec(m), manifest_spec(m)];
    let before = kept_groups_packets(m, e, keep, n - 1);
    let last_shards = kept_shards(m, e, keep, n - 1, (d + p) as int);
    let closing = closing_packets(m);
    let tail = manifest_tail(m, n - 1);
    assert(closing =~= tail + seq![end_spec(m.id, m.sha256)]);
    assert(opening + kept_groups_packets(m, e, keep, n) + seq![end_spec(m.id, m.sha256)]
        =~= opening + before + last_shards + closing);
    lemma_ingest_all_concat(r0, opening + before + last_shards, closing);
    lemma_ingest_all_concat(r0, opening + before, last_shards);
    lemma_ingest_all_concat(r0, opening, before);
    lemma_opening(r0, m, e, data);
    lemma_groups_kept(r0, m, e, data, keep, n - 1);
    assert(kept_count(keep, ((n - 1) as u32) as int, (d + p) as int) >= d);
    lemma_last_group_run(r0, m, e, data, keep, (d + p) as int);
    let waited = ingest_all(group_start(r0, m, e, n - 1), last_shards).0;
    lemma_kept_count_bounds(keep, n - 1, (d + p) as int);
    lemma_waiting_grows(r0, m, waited, kept_count(keep, n - 1, (d + p) as int) - d, p as int);
    lemma_closing(r0, m, e, data, waited);
    let last = seq![
        EventModel::Progress { id: m.id, completed_groups: n as u32, total_groups: m.group_count },
    ];
    assert(after_group(r0, m, e, data, n - 1).1 == last + seq![
        EventModel::Completed { metadata: rm, data },
    ]);
    assert(progress_events(m, n - 1) + last =~= progress_events(m, n));
    assert(seq![EventModel::Started(rm)] + progress_events(m, n - 1) + (last + seq![
        EventModel::Completed { metadata: rm, data },
    ]) + closing_events(m) =~= delivery_events(m, data));
}

/// `packet` is lost: a shard that `keep` does not keep.
pub open spec fn lost(packet: Seq<u8>, keep: spec_fn(u32, u8) -> bool) -> bool {
    match parse_packet(packet) {
        Some(PacketModel::Shard { group, index, .. }) => !keep(group, index),
        _ => false,
    }
}

/// The packets that arrive, in order, when the shards that `keep` does not
/// keep are lost.
pub open spec fn arriving(packets: Seq<Seq<u8>>, keep: spec_fn(u32, u8) -> bool) -> Seq<Seq<u8>>
    decreases packets.len(),
{
    if packets.len() == 0 {
        Seq::empty()
    } else {
        arriving(packets.drop_last(), keep) + if lost(packets.last(), keep) {
            Seq::empty()
        } else {
            seq![packets.last()]
        }
    }
}

proof fn lemma_arriving_concat(a: Seq<Seq<u8>>, b: Seq<Seq<u8>>, keep: spec_fn(u32, u8) -> bool)
    ensures
        arriving(a + b, keep) == arriving(a, keep) + arriving(b, keep),
    decreases b.len(),
{
    if b.len() == 0 {
        assert(a + b =~= a);
        assert(arriving(a, keep) + arriving(b, keep) =~= arriving(a, keep));
    } else {
        assert((a + b).drop_last() =~= a + b.drop_last());
        assert((a + b).last() == b.last());
        lemma_arriving_concat(a, b.drop_last(), keep);
        let rest = if lost(b.last(), keep) {
            Seq::<Seq<u8>>::empty()
        } else {
            seq![b.last()]
        };
        assert(arriving(a, keep) + arriving(b.drop_last(), keep) + rest =~= arriving(a, keep) + (
        arriving(b.drop_last(), keep) + rest));
    }
}

/// Packets none of which is lost all arrive.
proof fn lemma_arriving_whole(packets: Seq<Seq<u8>>, keep: spec_fn(u32, u8) -> bool)
    requires
        forall|i: int| 0 <= i < packets.len() ==> !lost(#[trigger] packets[i], keep),
    ensures
        arriving(packets, keep) == packets,
    decreases packets.len(),
{
    if packets.len() == 0 {
        assert(arriving(packets, keep) =~= packets);
    } else {
        assert forall|i: int| 0 <= i < packets.drop_last().len() implies !lost(
            #[trigger] packets.drop_last()[i],
            keep,
        ) by {
            assert(packets.drop_last()[i] == packets[i]);
        }
        lemma_arriving_whole(packets.drop_last(), keep);
        assert(!lost(packets[packets.len() - 1], keep));
        assert(packets.drop_last().push(packets.last()) =~= packets);
    }
}

/// The shard packets of group `g` that arrive are the kept ones.
proof fn lemma_arriving_shards(
    m: MetadataModel,
    e: Seq<u8>,
    data: Seq<u8>,
    keep: spec_fn(u32, u8) -> bool,
    g: int,
    k: int,
)
    requires
        sharded_transfer(m, e, data),
        0 <= g < m.group_count,
        0 <= k <= geometry_spec(m.encoded_size).0 + geometry_spec(m.encoded_size).1,
    ensures
        arriving(shard_packets(m, e, g).take(k), keep) == kept_shards(m, e, keep, g, k),
    decreases k,
{
    let (d, p) = geometry_spec(m.encoded_size);
    let sp = shard_packets(m, e, g);
    if k == 0 {
        assert(sp.take(0) =~= Seq::<Seq<u8>>::empty());
    } else {
        lemma_arriving_shards(m, e, data, keep, g, k - 1);
        assert(sp.take(k).drop_last() =~= sp.take(k - 1));
        let shards = group_shards(e, d, p, g);
        lemma_group_ready(m, e, data, g);
        assert(shards[k - 1].len() == SHARD_SIZE);
        lemma_shard_roundtrip(m.id, g as u32, (k - 1) as u8, shards[k - 1]);
        assert(sp.take(k).last() == sp[k - 1]);
        assert(lost(sp[k - 1], keep) == !keep(g as u32, (k - 1) as u8));
    }
}

/// The packets of a sharded transfer that arrive.
#[verifier::rlimit(40)]
proof fn lemma_arriving_sharded(m: MetadataModel, e: Seq<u8>, data: Seq<u8>, keep: spec_fn(u32, u8) -> bool)
    requires
        sharded_transfer(m, e, data),
    ensures
        arriving(sharded_packets(m, e), keep) == seq![manifest_spec(m), manifest_spec(m)]
            + kept_groups_packets(m, e, keep, m.group_count as int) + seq![end_spec(m.id, m.sha256)],
{
    let (d, p) = geometry_spec(m.encoded_size);
    let n = m.group_count as int;
    let opening = seq![manifest_spec(m), manifest_spec(m)];
    let end = seq![end_spec(m.id, m.sha256)];
    let gp = groups_packets(m, e, d, p, n);
    assert(sharded_packets(m, e) == opening + gp + end);
    assert(arriving(opening, keep) == opening) by {
        lemma_manifest_roundtrip(m);
        assert(!lost(manifest_spec(m), keep));
        assert forall|i: int| 0 <= i < opening.len() implies !lost(#[trigger] opening[i], keep) by {}
        lemma_arriving_whole(opening, keep);
    }
    assert(arriving(end, keep) == end) by {
        lemma_end_roundtrip(m.id, m.sha256);
        assert(!lost(end_spec(m.id, m.sha256), keep));
        assert forall|i: int| 0 <= i < end.len() implies !lost(#[trigger] end[i], keep) by {}
        lemma_arriving_whole(end, keep);
    }
    lemma_arriving_groups(m, e, data, keep, n);
    lemma_arriving_concat(opening + gp, end, keep);
    lemma_arriving_concat(opening, gp, keep);
}

/// The packets of the first `count` groups that arrive.
proof fn lemma_arriving_groups(
    m: MetadataModel,
    e: Seq<u8>,
    data: Seq<u8>,
    keep: spec_fn(u32, u8) -> bool,
    count: int,
)
    requires
        sharded_transfer(m, e, data),
        0 <= count <= m.group_count,
    ensures
        arriving(
            groups_packets(
                m,
                e,
                geometry_spec(m.encoded_size).0,
                geometry_spec(m.encoded_size).1,
                count,
            ),
            keep,
        ) == kept_groups_packets(m, e, keep, count),
    decreases count,
{
    let (d, p) = geometry_spec(m.encoded_size);
    if count == 0 {
        assert(arriving(groups_packets(m, e, d, p, 0), keep) =~= Seq::<Seq<u8>>::empty());
    } else {
        let g = count - 1;
        lemma_arriving_groups(m, e, data, keep, g);
        let sp = shard_packets(m, e, g);
        let tail = manifest_tail(m, g);
        assert(group_packets(m, e, d, p, g) =~= sp + tail);
        lemma_arriving_concat(groups_packets(m, e, d, p, g), group_packets(m, e, d, p, g), keep);
        lemma_arriving_concat(sp, tail, keep);
        assert(sp.take((d + p) as int) =~= sp);
        lemma_arriving_shards(m, e, data, keep, g, (d + p) as int);
        lemma_manifest_roundtrip(m);
        assert forall|i: int| 0 <= i < tail.len() implies !lost(#[trigger] tail[i], keep) by {}
        lemma_arriving_whole(tail, keep);
    }
}

/// For every way of losing shards that leaves each group at least `d` of
/// its own, every receiver that has no state for transfer `m` reports
/// `delivery_events(m, data)` for the packets that arrive.
pub open spec fn delivers_despite_losses(packets: Seq<Seq<u8>>, m: MetadataModel, data: Seq<u8>) -> bool {
    forall|keep: spec_fn(u32, u8) -> bool, r: ReceiverModel|
        enough_shards(m, keep) && !r.incoming.contains_key(m.id) && !r.pending.contains_key(m.id)
            ==> #[trigger] ingest_all(r, arriving(packets, keep)).1 == delivery_events(m, data)
}

/// The packets of a sharded transfer deliver its content despite the loss
/// of all but `d` shards of each group.
pub proof fn lemma_sharded_delivers(m: MetadataModel, e: Seq<u8>, data: Seq<u8>)
    requires
        sharded_transfer(m, e, data),
    ensures
        delivers_despite_losses(sharded_packets(m, e), m, data),
{
    assert forall|keep: spec_fn(u32, u8) -> bool, r: ReceiverModel|
        enough_shards(m, keep) && !r.incoming.contains_key(m.id) && !r.pending.contains_key(
            m.id,
        ) implies #[trigger] ingest_all(r, arriving(sharded_packets(m, e), keep)).1
        == delivery_events(m, data) by {
        lemma_arriving_sharded(m, e, data, keep);
        lemma_lossy_delivery(r, m, e, data, keep);
    }
}

/// Every shard kept.
pub open spec fn keep_all() -> spec_fn(u32, u8) -> bool {
    |g: u32, i: u8| true
}

proof fn lemma_keep_all_count(g: int, k: int)
    requires
        0 <= k,
    ensures
        kept_count(keep_all(), g, k) == k,
    decreases k,
{
    if k > 0 {
        lemma_keep_all_count(g, k - 1);
    }
}

/// Delivery despite losses includes delivery without them.
pub proof fn lemma_lossless(packets: Seq<Seq<u8>>, m: MetadataModel, data: Seq<u8>)
    requires
        delivers_despite_losses(packets, m, data),
    ensures
        delivers(packets, m, data),
{
    let keep = keep_all();
    let (d, p) = geometry_spec(m.encoded_size);
    assert forall|g: u32| g < m.group_count implies #[trigger] kept_count(
        keep,
        g as int,
        (d + p) as int,
    ) >= d by {
        lemma_keep_all_count(g as int, (d + p) as int);
    }
    assert forall|i: int| 0 <= i < packets.len() implies !lost(#[trigger] packets[i], keep) by {}
    lemma_arriving_whole(packets, keep);
    assert forall|r: ReceiverModel|
        !r.incoming.contains_key(m.id) && !r.pending.contains_key(m.id) implies #[trigger] ingest_all(
        r,
        packets,
    ).1 == delivery_events(m, data) by {
        assert(ingest_all(r, arriving(packets, keep)).1 == delivery_events(m, data));
    }
}

/// The shards of the first `count` groups of `m` as they wait for its
/// manifest: group by group, index by index.
pub open spec fn waiting_shards(m: MetadataModel, e: Seq<u8>, count: int) -> Seq<PendingModel>
    decreases count,
{
    if count <= 0 {
        Seq::empty()
    } else {
        let (d, p) = geometry_spec(m.encoded_size);
        waiting_shards(m, e, count - 1) + Seq::new(
            (d + p) as nat,
            |i: int|
                PendingModel {
                    group: (count - 1) as u32,
                    index: i as u8,
                    data: group_shards(e, d, p, count - 1)[i],
                },
        )
    }
}

/// The shard packets of transfer `id` that carry `list`.
pub open spec fn shard_packets_of(id: u64, list: Seq<PendingModel>) -> Seq<Seq<u8>> {
    list.map_values(|s: PendingModel| shard_spec(id, s.group, s.index, s.data))
}

/// Every shard packet of `m`, group by group, without a manifest.
pub open spec fn all_shards(m: MetadataModel, e: Seq<u8>) -> Seq<Seq<u8>> {
    shard_packets_of(m.id, waiting_shards(m, e, m.group_count as int))
}

/// No two shards of `list` share a group and an index, and each is
/// `SHARD_SIZE` bytes.
pub open spec fn distinct_shards(list: Seq<PendingModel>) -> bool {
    &&& forall|j: int| 0 <= j < list.len() ==> (#[trigger] list[j]).data.len() == SHARD_SIZE
    &&& forall|j: int, k: int|
        0 <= j < k < list.len() ==> !(#[trigger] list[j].group == #[trigger] list[k].group
            && list[j].index == list[k].index)
}

proof fn lemma_waiting_shards_shape(m: MetadataModel, e: Seq<u8>, data: Seq<u8>, count: int)
    requires
        sharded_transfer(m, e, data),
        0 <= count <= m.group_count,
    ensures
        waiting_shards(m, e, count).len() == count * (geometry_spec(m.encoded_size).0
            + geometry_spec(m.encoded_size).1),
        distinct_shards(waiting_shards(m, e, count)),
        forall|j: int|
            0 <= j < waiting_shards(m, e, count).len() ==> (#[trigger] waiting_shards(
                m,
                e,
                count,
            )[j]).group < count,
    decreases count,
{
    if count > 0 {
        let (d, p) = geometry_spec(m.encoded_size);
        lemma_waiting_shards_shape(m, e, data, count - 1);
        lemma_group_ready(m, e, data, count - 1);
        let a = waiting_shards(m, e, count - 1);
        let shards = group_shards(e, d, p, count - 1);
        let b = Seq::new(
            (d + p) as nat,
            |i: int|
                PendingModel { group: (count - 1) as u32, index: i as u8, data: shards[i] },
        );
        let w = a + b;
        assert(waiting_shards(m, e, count) == w);
        assert(count * (d + p) == (count - 1) * (d + p) + (d + p)) by (nonlinear_arith);
        assert forall|j: int| 0 <= j < w.len() implies (#[trigger] w[j]).data.len() == SHARD_SIZE
            && w[j].group < count by {
            if j >= a.len() {
                assert(w[j] == b[j - a.len()]);
            } else {
                assert(w[j] == a[j]);
            }
        }
        assert forall|j: int, k: int| 0 <= j < k < w.len() implies !(#[trigger] w[j].group
            == #[trigger] w[k].group && w[j].index == w[k].index) by {
            if k < a.len() {
                assert(w[j] == a[j] && w[k] == a[k]);
            } else if j < a.len() {
                assert(w[j] == a[j] && w[k] == b[k - a.len()]);
            } else {
                assert(w[j] == b[j - a.len()] && w[k] == b[k - a.len()]);
            }
        }
    }
}

/// Shards of a transfer that the receiver has no manifest for wait, in
/// order, and report nothing.
proof fn lemma_shards_wait(r0: ReceiverModel, id: u64, list: Seq<PendingModel>)
    requires
        !r0.incoming.contains_key(id),
        !r0.pending.contains_key(id),
        r0.pending.dom().finite(),
        r0.pending.len() < MAX_PENDING_TRANSFERS,
        1 <= list.len() <= MAX_PENDING_SHARDS_PER_TRANSFER,
        distinct_shards(list),
    ensures
        ingest_all(r0, shard_packets_of(id, list)) == (
            ReceiverModel { pending: r0.pending.insert(id, list), ..r0 },
            Seq::<EventModel>::empty(),
        ),
    decreases list.len(),
{
    let packets = shard_packets_of(id, list);
    let front = list.drop_last();
    let x = list.last();
    assert(packets.drop_last() =~= shard_packets_of(id, front));
    assert(x == list[list.len() - 1]);
    lemma_shard_roundtrip(id, x.group, x.index, x.data);
    let state = if front.len() == 0 {
        r0
    } else {
        ReceiverModel { pending: r0.pending.insert(id, front), ..r0 }
    };
    if front.len() == 0 {
        assert(shard_packets_of(id, front) =~= Seq::<Seq<u8>>::empty());
        assert(ingest_all(r0, shard_packets_of(id, front)) == (r0, Seq::<EventModel>::empty()));
        assert(Seq::<PendingModel>::empty().push(x) =~= list);
    } else {
        assert forall|j: int, k: int| 0 <= j < k < front.len() implies !(#[trigger] front[j].group
            == #[trigger] front[k].group && front[j].index == front[k].index) by {
            assert(front[j] == list[j] && front[k] == list[k]);
        }
        assert forall|j: int| 0 <= j < front.len() implies (#[trigger] front[j]).data.len()
            == SHARD_SIZE by {
            assert(front[j] == list[j]);
        }
        lemma_shards_wait(r0, id, front);
        assert(!has_pending(front, x.group, x.index)) by {
            if has_pending(front, x.group, x.index) {
                let j = choose|j: int|
                    0 <= j < front.len() && (#[trigger] front[j]).group == x.group && front[j].index
                        == x.index;
                assert(front[j] == list[j]);
                assert(list[j].group == list[list.len() - 1].group);
            }
        }
        assert(front.push(x) =~= list);
        assert(r0.pending.insert(id, front).insert(id, list) =~= r0.pending.insert(id, list));
    }
    assert(packets.last() == shard_spec(id, x.group, x.index, x.data));
    assert(ingest_spec(state, packets.last()) == (
        ReceiverModel { pending: r0.pending.insert(id, list), ..r0 },
        Seq::<EventModel>::empty(),
    ));
    assert(Seq::<EventModel>::empty() + Seq::<EventModel>::empty() =~= Seq::<EventModel>::empty());
}

/// Receiving waiting shards is receiving their packets, in order.
proof fn lemma_replay_as_ingest(r: ReceiverModel, id: u64, list: Seq<PendingModel>)
    requires
        forall|j: int| 0 <= j < list.len() ==> (#[trigger] list[j]).data.len() == SHARD_SIZE,
    ensures
        replay_step(r, id, list) == ingest_all(r, shard_packets_of(id, list)),
    decreases list.len(),
{
    let packets = shard_packets_of(id, list);
    if list.len() == 0 {
        assert(packets =~= Seq::<Seq<u8>>::empty());
    } else {
        let x = list[0];
        let rest = list.drop_first();
        let first = seq![shard_spec(id, x.group, x.index, x.data)];
        assert(packets =~= first + shard_packets_of(id, rest));
        lemma_shard_roundtrip(id, x.group, x.index, x.data);
        lemma_ingest_all_concat(r, first, shard_packets_of(id, rest));
        assert(first.drop_last() =~= Seq::<Seq<u8>>::empty());
        assert(ingest_all(r, first.drop_last()) == (r, Seq::<EventModel>::empty()));
        let (r1, ev) = shard_step(r, id, x.group, x.index, x.data);
        assert(ingest_all(r, first) == (r1, Seq::<EventModel>::empty() + ev));
        assert(Seq::<EventModel>::empty() + ev =~= ev);
        assert forall|j: int| 0 <= j < rest.len() implies (#[trigger] rest[j]).data.len()
            == SHARD_SIZE by {
            assert(rest[j] == list[j + 1]);
        }
        lemma_replay_as_ingest(r1, id, rest);
    }
}

/// With every shard kept, the first `k` kept shards of group `g` are its
/// first `k` shard packets.
proof fn lemma_kept_all_shards(m: MetadataModel, e: Seq<u8>, g: int, k: int)
    requires
        0 <= k <= geometry_spec(m.encoded_size).0 + geometry_spec(m.encoded_size).1,
    ensures
        kept_shards(m, e, keep_all(), g, k) == shard_packets(m, e, g).subrange(0, k),
    decreases k,
{
    if k > 0 {
        lemma_kept_all_shards(m, e, g, k - 1);
        assert(shard_packets(m, e, g).subrange(0, k - 1).push(shard_packets(m, e, g)[k - 1])
            =~= shard_packets(m, e, g).subrange(0, k));
    } else {
        assert(shard_packets(m, e, g).subrange(0, 0) =~= Seq::<Seq<u8>>::empty());
    }
}

/// The packets of the waiting shards of group `count - 1` are the group's
/// shard packets, and those of the first `count` groups follow them.
proof fn lemma_waiting_packets(m: MetadataModel, e: Seq<u8>, count: int)
    requires
        1 <= count,
    ensures
        shard_packets_of(m.id, waiting_shards(m, e, count)) == shard_packets_of(
            m.id,
            waiting_shards(m, e, count - 1),
        ) + shard_packets(m, e, count - 1),
        shard_packets(m, e, count - 1) == kept_shards(
            m,
            e,
            keep_all(),
            count - 1,
            (geometry_spec(m.encoded_size).0 + geometry_spec(m.encoded_size).1) as int,
        ),
{
    let (d, p) = geometry_spec(m.encoded_size);
    let a = waiting_shards(m, e, count - 1);
    let b = Seq::new(
        (d + p) as nat,
        |i: int|
            PendingModel {
                group: (count - 1) as u32,
                index: i as u8,
                data: group_shards(e, d, p, count - 1)[i],
            },
    );
    assert(waiting_shards(m, e, count) == a + b);
    assert(shard_packets_of(m.id, b) =~= shard_packets(m, e, count - 1));
    assert(shard_packets_of(m.id, a + b) =~= shard_packets_of(m.id, a) + shard_packets_of(m.id, b));
    lemma_kept_all_shards(m, e, count - 1, (d + p) as int);
    assert(shard_packets(m, e, count - 1).subrange(0, (d + p) as int) =~= shard_packets(
        m,
        e,
        count - 1,
    ));
}

/// Before the eighth group no manifest copy falls between the shards, so
/// the shards of the first `count` groups are all their packets.
proof fn lemma_early_groups_packets(m: MetadataModel, e: Seq<u8>, count: int)
    requires
        0 <= count < MANIFEST_INTERVAL,
    ensures
        shard_packets_of(m.id, waiting_shards(m, e, count)) == kept_groups_packets(
            m,
            e,
            keep_all(),
            count,
        ),
    decreases count,
{
    if count == 0 {
        assert(shard_packets_of(m.id, waiting_shards(m, e, 0)) =~= Seq::<Seq<u8>>::empty());
    } else {
        lemma_early_groups_packets(m, e, count - 1);
        lemma_waiting_packets(m, e, count);
        assert(manifest_tail(m, count - 1) =~= Seq::<Seq<u8>>::empty());
        let (d, p) = geometry_spec(m.encoded_size);
        let shards = kept_shards(m, e, keep_all(), count - 1, (d + p) as int);
        assert(shards + manifest_tail(m, count - 1) =~= shards);
    }
}

/// Every shard of a transfer of at most eight groups, in order, received
/// from the start of the transfer, completes each group and then the
/// transfer.
proof fn lemma_all_shards_in_order(r0: ReceiverModel, m: MetadataModel, e: Seq<u8>, data: Seq<u8>)
    requires
        sharded_transfer(m, e, data),
        !r0.incoming.contains_key(m.id),
        !r0.pending.contains_key(m.id),
        1 <= m.group_count <= MANIFEST_INTERVAL,
    ensures
        ingest_all(group_start(r0, m, e, 0), all_shards(m, e)).1 == progress_events(
            m,
            m.group_count as int,
        ) + seq![
            EventModel::Completed { metadata: received_metadata(m, m.group_count), data },
        ],
{
    let (d, p) = geometry_spec(m.encoded_size);
    let n = m.group_count as int;
    let keep = keep_all();
    let start = group_start(r0, m, e, 0);
    lemma_waiting_packets(m, e, n);
    lemma_early_groups_packets(m, e, n - 1);
    let before = kept_groups_packets(m, e, keep, n - 1);
    let last = kept_shards(m, e, keep, n - 1, (d + p) as int);
    assert(all_shards(m, e) == before + last);
    lemma_ingest_all_concat(start, before, last);
    assert forall|g: u32| g < m.group_count implies #[trigger] kept_count(
        keep,
        g as int,
        (d + p) as int,
    ) >= d by {
        lemma_keep_all_count(g as int, (d + p) as int);
    }
    lemma_groups_kept(r0, m, e, data, keep, n - 1);
    lemma_keep_all_count(n - 1, (d + p) as int);
    lemma_last_group_run(r0, m, e, data, keep, (d + p) as int);
    let rm = received_metadata(m, m.group_count);
    let progress = seq![
        EventModel::Progress { id: m.id, completed_groups: n as u32, total_groups: m.group_count },
    ];
    assert(after_group(r0, m, e, data, n - 1).1 == progress + seq![
        EventModel::Completed { metadata: rm, data },
    ]);
    assert(progress_events(m, n - 1) + progress =~= progress_events(m, n));
    assert(progress_events(m, n - 1) + (progress + seq![EventModel::Completed { metadata: rm, data }])
        =~= progress_events(m, n) + seq![EventModel::Completed { metadata: rm, data }]);
}

/// Shards that arrive before their manifest wait for it and are then
/// delivered: a receiver with no state for transfer `m`, and room for one
/// more waiting transfer, reports nothing for all of the transfer's shards
/// received first, in order; the manifest that follows starts the
/// transfer, completes every group and delivers the content. This holds
/// while all the shards fit in the receiver's wait list.
#[verifier::rlimit(40)]
#[verifier::spinoff_prover]
pub proof fn lemma_early_shards(r0: ReceiverModel, m: MetadataModel, e: Seq<u8>, data: Seq<u8>)
    requires
        sharded_transfer(m, e, data),
        !r0.incoming.contains_key(m.id),
        !r0.pending.contains_key(m.id),
        r0.pending.dom().finite(),
        r0.pending.len() < MAX_PENDING_TRANSFERS,
        m.group_count * (geometry_spec(m.encoded_size).0 + geometry_spec(m.encoded_size).1)
            <= MAX_PENDING_SHARDS_PER_TRANSFER,
    ensures
        ingest_all(r0, all_shards(m, e)).1 == Seq::<EventModel>::empty(),
        ingest_all(r0, all_shards(m, e).push(manifest_spec(m))).1 == seq![
            EventModel::Started(received_metadata(m, m.group_count)),
        ] + progress_events(m, m.group_count as int) + seq![
            EventModel::Completed { metadata: received_metadata(m, m.group_count), data },
        ],
{
    let (d, p) = geometry_spec(m.encoded_size);
    let n = m.group_count as int;
    let id = m.id;
    let rm = received_metadata(m, m.group_count);
    assert(n >= 1);
    if n >= 2 {
        lemma_many_groups(m);
        assert(n <= 8) by (nonlinear_arith)
            requires
                n * 12 <= 96,
        ;
    }
    assert(n <= MANIFEST_INTERVAL);
    let list = waiting_shards(m, e, n);
    lemma_waiting_shards_shape(m, e, data, n);
    assert(list.len() >= 1) by (nonlinear_arith)
        requires
            list.len() == n * (d + p),
            n >= 1,
            d + p >= 1,
    ;
    lemma_shards_wait(r0, id, list);
    let all = all_shards(m, e);
    let rp = ReceiverModel { pending: r0.pending.insert(id, list), ..r0 };
    lemma_ingest_push(r0, all, manifest_spec(m));
    lemma_manifest_roundtrip(m);
    let fresh = IncomingModel { metadata: rm, groups: Map::empty(), completed: Map::empty() };
    let r1 = ReceiverModel { incoming: rp.incoming.insert(id, fresh), ..rp };
    let r2 = ReceiverModel { pending: r1.pending.remove(id), ..r1 };
    assert(completed_upto(e, d, p, 0) == Map::<u32, Seq<u8>>::empty());
    assert(r0.pending.insert(id, list).remove(id) =~= r0.pending);
    assert(r2 == group_start(r0, m, e, 0));
    lemma_replay_as_ingest(r2, id, list);
    lemma_all_shards_in_order(r0, m, e, data);
    let replayed = replay_step(r2, id, list).1;
    assert(ingest_spec(rp, manifest_spec(m)).1 == seq![EventModel::Started(rm)] + replayed);
    assert(Seq::<EventModel>::empty() + (seq![EventModel::Started(rm)] + replayed) =~= seq![
        EventModel::Started(rm),
    ] + progress_events(m, n) + seq![EventModel::Completed { metadata: rm, data }]);
}

/// Every packet of `packets`, each received twice in a row.
pub open spec fn twice(packets: Seq<Seq<u8>>) -> Seq<Seq<u8>>
    decreases packets.len(),
{
    if packets.len() == 0 {
        Seq::empty()
    } else {
        twice(packets.drop_last()) + seq![packets.last(), packets.last()]
    }
}

proof fn lemma_twice_concat(a: Seq<Seq<u8>>, b: Seq<Seq<u8>>)
    ensures
        twice(a + b) == twice(a) + twice(b),
    decreases b.len(),
{
    if b.len() == 0 {
        assert(a + b =~= a);
        assert(twice(a) + twice(b) =~= twice(a));
    } else {
        assert((a + b).drop_last() =~= a + b.drop_last());
        assert((a + b).last() == b.last());
        lemma_twice_concat(a, b.drop_last());
        let pair = seq![b.last(), b.last()];
        assert(twice(a) + twice(b.drop_last()) + pair =~= twice(a) + (twice(b.drop_last()) + pair));
    }
}

/// Receiving `x` twice more after `ps`, each twice.
proof fn lemma_twice_push(r: ReceiverModel, ps: Seq<Seq<u8>>, x: Seq<u8>)
    ensures
        ({
            let (s, ev) = ingest_all(r, twice(ps));
            let (s1, e1) = ingest_spec(s, x);
            let (s2, e2) = ingest_spec(s1, x);
            ingest_all(r, twice(ps.push(x))) == (s2, ev + e1 + e2)
        }),
{
    assert(ps.push(x).drop_last() =~= ps);
    assert(twice(ps.push(x)) =~= twice(ps).push(x).push(x));
    lemma_ingest_push(r, twice(ps).push(x), x);
    lemma_ingest_push(r, twice(ps), x);
}

/// Twice nothing is nothing.
proof fn lemma_twice_empty(r: ReceiverModel)
    ensures
        ingest_all(r, twice(Seq::<Seq<u8>>::empty())) == (r, Seq::<EventModel>::empty()),
{
    assert(twice(Seq::<Seq<u8>>::empty()) =~= Seq::<Seq<u8>>::empty());
}

/// A shard received again while its group is still filling changes nothing.
proof fn lemma_repeat_filling(r0: ReceiverModel, m: MetadataModel, e: Seq<u8>, data: Seq<u8>, g: int, k: int)
    requires
        sharded_transfer(m, e, data),
        !r0.incoming.contains_key(m.id),
        0 <= g < m.group_count,
        1 <= k < geometry_spec(m.encoded_size).0,
    ensures
        ingest_spec(filling(r0, m, e, keep_all(), g, k), shard_packets(m, e, g)[k - 1]) == (
            filling(r0, m, e, keep_all(), g, k),
            Seq::<EventModel>::empty(),
        ),
{
    let (d, p) = geometry_spec(m.encoded_size);
    let shards = group_shards(e, d, p, g);
    lemma_group_ready(m, e, data, g);
    assert(shards[k - 1].len() == SHARD_SIZE);
    lemma_shard_roundtrip(m.id, g as u32, (k - 1) as u8, shards[k - 1]);
    assert(shard_packets(m, e, g)[k - 1] == shard_spec(m.id, g as u32, (k - 1) as u8, shards[k - 1]));
    lemma_completed_upto(e, d, p, g);
    lemma_keep_all_count(g, k);
    let r = filling(r0, m, e, keep_all(), g, k);
    let t = r.incoming[m.id];
    assert(t.groups.contains_key(g as u32));
    assert(t.groups[g as u32] == masked_prefix(shards, keep_all(), g, k));
    assert(t.groups[g as u32][k - 1] is Some);
    assert(!t.completed.contains_key(g as u32));
}

/// A shard received again once its group is complete changes nothing; so
/// does a manifest copy.
proof fn lemma_repeat_started(r0: ReceiverModel, m: MetadataModel, e: Seq<u8>, data: Seq<u8>, g: int, k: int, i: int)
    requires
        sharded_transfer(m, e, data),
        !r0.incoming.contains_key(m.id),
        0 <= g < k < m.group_count,
        0 <= i < geometry_spec(m.encoded_size).0 + geometry_spec(m.encoded_size).1,
    ensures
        ingest_all(group_start(r0, m, e, k), twice(seq![shard_packets(m, e, g)[i]])) == (
            group_start(r0, m, e, k),
            Seq::<EventModel>::empty(),
        ),
{
    lemma_quiet_after(r0, m, e, data, g, k, i);
    lemma_twice_empty(group_start(r0, m, e, k));
    lemma_twice_push(group_start(r0, m, e, k), Seq::empty(), shard_packets(m, e, g)[i]);
    assert(Seq::<Seq<u8>>::empty().push(shard_packets(m, e, g)[i]) =~= seq![shard_packets(m, e, g)[i]]);
    assert(Seq::<EventModel>::empty() + Seq::<EventModel>::empty() + Seq::<EventModel>::empty()
        =~= Seq::<EventModel>::empty());
}

/// The shards of a group other than the last, each received twice: the
/// repeats change nothing.
proof fn lemma_group_run_twice(r0: ReceiverModel, m: MetadataModel, e: Seq<u8>, data: Seq<u8>, g: int, k: int)
    requires
        sharded_transfer(m, e, data),
        !r0.incoming.contains_key(m.id),
        0 <= g,
        g + 1 < m.group_count,
        0 <= k <= geometry_spec(m.encoded_size).0 + geometry_spec(m.encoded_size).1,
    ensures
        ingest_all(group_start(r0, m, e, g), twice(kept_shards(m, e, keep_all(), g, k))) == if k
            < geometry_spec(m.encoded_size).0 {
            (filling(r0, m, e, keep_all(), g, k), Seq::<EventModel>::empty())
        } else {
            after_group(r0, m, e, data, g)
        },
    decreases k,
{
    let (d, p) = geometry_spec(m.encoded_size);
    let start = group_start(r0, m, e, g);
    let keep = keep_all();
    if k == 0 {
        assert(filling(r0, m, e, keep, g, 0) == start);
        assert(kept_shards(m, e, keep, g, 0) =~= Seq::<Seq<u8>>::empty());
        lemma_twice_empty(start);
    } else {
        lemma_group_run_twice(r0, m, e, data, g, k - 1);
        lemma_keep_all_count(g, k - 1);
        let before = kept_shards(m, e, keep, g, k - 1);
        let x = shard_packets(m, e, g)[k - 1];
        assert(kept_shards(m, e, keep, g, k) =~= before.push(x));
        lemma_twice_push(start, before, x);
        if k - 1 < d {
            lemma_kept_shard(r0, m, e, data, keep, g, k - 1);
            if k < d {
                lemma_repeat_filling(r0, m, e, data, g, k);
                assert(Seq::<EventModel>::empty() + Seq::<EventModel>::empty()
                    + Seq::<EventModel>::empty() =~= Seq::<EventModel>::empty());
            } else {
                lemma_quiet_after(r0, m, e, data, g, g + 1, k - 1);
                let ev = after_group(r0, m, e, data, g).1;
                assert(Seq::<EventModel>::empty() + ev + Seq::<EventModel>::empty() =~= ev);
            }
        } else {
            lemma_quiet_after(r0, m, e, data, g, g + 1, k - 1);
            let ev = after_group(r0, m, e, data, g).1;
            assert(ev + Seq::<EventModel>::empty() + Seq::<EventModel>::empty() =~= ev);
        }
    }
}

/// A group other than the last, its packets each received twice, is
/// completed and reported once.
proof fn lemma_middle_group_twice(r0: ReceiverModel, m: MetadataModel, e: Seq<u8>, data: Seq<u8>, g: int)
    requires
        sharded_transfer(m, e, data),
        !r0.incoming.contains_key(m.id),
        0 <= g,
        g + 1 < m.group_count,
    ensures
        ingest_all(group_start(r0, m, e, g), twice(kept_group_packets(m, e, keep_all(), g))) == (
            group_start(r0, m, e, g + 1),
            progress_events(m, g + 1).subrange(g, g + 1),
        ),
{
    let (d, p) = geometry_spec(m.encoded_size);
    let keep = keep_all();
    let start = group_start(r0, m, e, g);
    let next = group_start(r0, m, e, g + 1);
    let shards_part = kept_shards(m, e, keep, g, (d + p) as int);
    let tail = manifest_tail(m, g);
    let progress = progress_events(m, g + 1).subrange(g, g + 1);
    lemma_group_run_twice(r0, m, e, data, g, (d + p) as int);
    assert(after_group(r0, m, e, data, g) == (next, progress)) by {
        assert(progress =~= seq![
            EventModel::Progress {
                id: m.id,
                completed_groups: (g + 1) as u32,
                total_groups: m.group_count,
            },
        ]);
    }
    lemma_twice_concat(shards_part, tail);
    lemma_ingest_all_concat(start, twice(shards_part), twice(tail));
    if (g + 1) % (MANIFEST_INTERVAL as int) == 0 {
        lemma_quiet_after(r0, m, e, data, g, g + 1, 0);
        assert(tail =~= Seq::<Seq<u8>>::empty().push(manifest_spec(m)));
        lemma_twice_push(next, Seq::empty(), manifest_spec(m));
        lemma_twice_empty(next);
        assert(Seq::<EventModel>::empty() + Seq::<EventModel>::empty() + Seq::<EventModel>::empty()
            =~= Seq::<EventModel>::empty());
    } else {
        assert(tail =~= Seq::<Seq<u8>>::empty());
        lemma_twice_empty(next);
    }
    assert(ingest_all(next, twice(tail)) == (next, Seq::<EventModel>::empty()));
    assert(progress + Seq::<EventModel>::empty() =~= progress);
}

/// The groups before the last, their packets each received twice, are
/// completed and reported once each, in order.
proof fn lemma_groups_kept_twice(r0: ReceiverModel, m: MetadataModel, e: Seq<u8>, data: Seq<u8>, k: int)
    requires
        sharded_transfer(m, e, data),
        !r0.incoming.contains_key(m.id),
        0 <= k < m.group_count,
    ensures
        ingest_all(group_start(r0, m, e, 0), twice(kept_groups_packets(m, e, keep_all(), k))) == (
            group_start(r0, m, e, k),
            progress_events(m, k),
        ),
    decreases k,
{
    let keep = keep_all();
    if k == 0 {
        assert(kept_groups_packets(m, e, keep, 0) =~= Seq::<Seq<u8>>::empty());
        lemma_twice_empty(group_start(r0, m, e, 0));
        assert(progress_events(m, 0) =~= Seq::<EventModel>::empty());
    } else {
        lemma_groups_kept_twice(r0, m, e, data, k - 1);
        let a = kept_groups_packets(m, e, keep, k - 1);
        let b = kept_group_packets(m, e, keep, k - 1);
        lemma_twice_concat(a, b);
        lemma_ingest_all_concat(group_start(r0, m, e, 0), twice(a), twice(b));
        lemma_middle_group_twice(r0, m, e, data, k - 1);
        assert(progress_events(m, k - 1) + progress_events(m, k).subrange(k - 1, k)
            =~= progress_events(m, k));
    }
}

/// A shard of the last group received again right after it waited changes
/// nothing: it is already waiting, or there is no room for it.
proof fn lemma_waiting_repeat(
    r0: ReceiverModel,
    m: MetadataModel,
    e: Seq<u8>,
    data: Seq<u8>,
    r: ReceiverModel,
    j: int,
    i: int,
)
    requires
        sharded_transfer(m, e, data),
        !r0.incoming.contains_key(m.id),
        m.group_count >= 1,
        waiting(r0, m, r, j),
        0 <= i < geometry_spec(m.encoded_size).0 + geometry_spec(m.encoded_size).1,
    ensures
        ({
            let x = shard_packets(m, e, m.group_count - 1)[i];
            let r1 = ingest_spec(r, x).0;
            ingest_spec(r1, x) == (r1, Seq::<EventModel>::empty())
        }),
{
    let (d, p) = geometry_spec(m.encoded_size);
    let g = m.group_count - 1;
    let id = m.id;
    let shards = group_shards(e, d, p, g);
    lemma_group_ready(m, e, data, g);
    assert(shards[i].len() == SHARD_SIZE);
    lemma_shard_roundtrip(id, g as u32, i as u8, shards[i]);
    let x = shard_packets(m, e, g)[i];
    assert(x == shard_spec(id, g as u32, i as u8, shards[i]));
    let item = PendingModel { group: g as u32, index: i as u8, data: shards[i] };
    let r1 = ingest_spec(r, x).0;
    if r.pending.contains_key(id) || r.pending.len() < MAX_PENDING_TRANSFERS {
        let list = if r.pending.contains_key(id) {
            r.pending[id]
        } else {
            Seq::empty()
        };
        let kept = if list.len() < MAX_PENDING_SHARDS_PER_TRANSFER && !has_pending(
            list,
            g as u32,
            i as u8,
        ) {
            list.push(item)
        } else {
            list
        };
        assert(r1.pending == r.pending.insert(id, kept));
        if list.len() < MAX_PENDING_SHARDS_PER_TRANSFER && !has_pending(list, g as u32, i as u8) {
            assert(kept[list.len() as int] == item);
            assert(has_pending(kept, g as u32, i as u8));
        }
        assert(r1.pending.insert(id, kept) =~= r1.pending);
    }
}

/// The shards of the last group, each received twice: once `d` arrived the
/// transfer completes, and the ones after wait quietly, the repeat of the
/// completing shard among them.
#[verifier::rlimit(40)]
#[verifier::spinoff_prover]
proof fn lemma_last_group_twice(r0: ReceiverModel, m: MetadataModel, e: Seq<u8>, data: Seq<u8>, k: int)
    requires
        sharded_transfer(m, e, data),
        !r0.incoming.contains_key(m.id),
        !r0.pending.contains_key(m.id),
        m.group_count >= 1,
        0 <= k <= geometry_spec(m.encoded_size).0 + geometry_spec(m.encoded_size).1,
    ensures
        ({
            let g = m.group_count - 1;
            let run = ingest_all(group_start(r0, m, e, g), twice(kept_shards(m, e, keep_all(), g, k)));
            if k < geometry_spec(m.encoded_size).0 {
                run == (filling(r0, m, e, keep_all(), g, k), Seq::<EventModel>::empty())
            } else {
                run.1 == after_group(r0, m, e, data, g).1 && waiting(
                    r0,
                    m,
                    run.0,
                    k - geometry_spec(m.encoded_size).0 + 1,
                )
            }
        }),
    decreases k,
{
    let (d, p) = geometry_spec(m.encoded_size);
    let g = m.group_count - 1;
    let keep = keep_all();
    let start = group_start(r0, m, e, g);
    if k == 0 {
        assert(filling(r0, m, e, keep, g, 0) == start);
        assert(kept_shards(m, e, keep, g, 0) =~= Seq::<Seq<u8>>::empty());
        lemma_twice_empty(start);
    } else {
        lemma_last_group_twice(r0, m, e, data, k - 1);
        lemma_keep_all_count(g, k - 1);
        let before = kept_shards(m, e, keep, g, k - 1);
        let x = shard_packets(m, e, g)[k - 1];
        assert(kept_shards(m, e, keep, g, k) =~= before.push(x));
        lemma_twice_push(start, before, x);
        let prev = ingest_all(start, twice(before));
        if k - 1 < d {
            lemma_kept_shard(r0, m, e, data, keep, g, k - 1);
            if k < d {
                lemma_repeat_filling(r0, m, e, data, g, k);
                assert(Seq::<EventModel>::empty() + Seq::<EventModel>::empty()
                    + Seq::<EventModel>::empty() =~= Seq::<EventModel>::empty());
            } else {
                let ev = after_group(r0, m, e, data, g).1;
                assert(after_group(r0, m, e, data, g).0 == r0);
                assert(waiting(r0, m, r0, 0));
                lemma_waiting_step(r0, m, e, data, r0, 0, k - 1);
                assert(Seq::<EventModel>::empty() + ev + Seq::<EventModel>::empty() =~= ev);
            }
        } else {
            let r = prev.0;
            let ev = after_group(r0, m, e, data, g).1;
            lemma_waiting_step(r0, m, e, data, r, k - 1 - d + 1, k - 1);
            lemma_waiting_repeat(r0, m, e, data, r, k - 1 - d + 1, k - 1);
            assert(ev + Seq::<EventModel>::empty() + Seq::<EventModel>::empty() =~= ev);
        }
    }
}

/// The closing packets, each received twice, once the last group is in and
/// at most `p + 1` of its shards wait: the manifest copy starts the transfer
/// afresh once; the end packets find nothing to finish.
#[verifier::rlimit(40)]
#[verifier::spinoff_prover]
proof fn lemma_closing_twice(r0: ReceiverModel, m: MetadataModel, e: Seq<u8>, data: Seq<u8>, r: ReceiverModel)
    requires
        sharded_transfer(m, e, data),
        !r0.incoming.contains_key(m.id),
        m.group_count >= 1,
        waiting(r0, m, r, geometry_spec(m.encoded_size).1 + 1),
    ensures
        ingest_all(r, twice(closing_packets(m))).1 == closing_events(m),
{
    let id = m.id;
    let rm = received_metadata(m, m.group_count);
    let end = end_spec(id, m.sha256);
    lemma_end_roundtrip(id, m.sha256);
    if m.group_count as int % (MANIFEST_INTERVAL as int) == 0 {
        let man = manifest_spec(m);
        lemma_many_groups(m);
        lemma_manifest_roundtrip(m);
        assert(closing_packets(m) =~= Seq::<Seq<u8>>::empty().push(man).push(end));
        lemma_twice_push(r, Seq::<Seq<u8>>::empty().push(man), end);
        lemma_twice_push(r, Seq::<Seq<u8>>::empty(), man);
        lemma_twice_empty(r);
        let fresh = IncomingModel { metadata: rm, groups: Map::empty(), completed: Map::empty() };
        let r1 = ReceiverModel { incoming: r.incoming.insert(id, fresh), ..r };
        lemma_fresh_count(12);
        assert(group_slots(fresh, (m.group_count - 1) as u32, 12) == fresh_slots(12));
        let (r3, opened) = ingest_spec(r, man);
        if r1.pending.contains_key(id) {
            let list = r1.pending[id];
            let r2 = ReceiverModel { pending: r1.pending.remove(id), ..r1 };
            assert(r2.incoming[id] == fresh);
            lemma_replay_quiet(r2, m, list);
            assert(opened =~= seq![EventModel::Started(rm)]);
        } else {
            assert(opened =~= seq![EventModel::Started(rm)]);
        }
        assert(r3.incoming[id].metadata == rm);
        assert(ingest_spec(r3, man) == (r3, Seq::<EventModel>::empty()));
        assert(r3.incoming[id].completed.len() == 0);
        assert(ingest_spec(r3, end) == (r3, Seq::<EventModel>::empty()));
        assert(Seq::<EventModel>::empty() + opened + Seq::<EventModel>::empty()
            + Seq::<EventModel>::empty() + Seq::<EventModel>::empty() =~= closing_events(m));
    } else {
        assert(closing_packets(m) =~= Seq::<Seq<u8>>::empty().push(end));
        lemma_twice_push(r, Seq::<Seq<u8>>::empty(), end);
        lemma_twice_empty(r);
        assert(ingest_spec(r, end) == (r, Seq::<EventModel>::empty()));
        assert(Seq::<EventModel>::empty() + Seq::<EventModel>::empty() + Seq::<EventModel>::empty()
            =~= closing_events(m));
    }
}

/// The packets of a sharded transfer, with every shard kept and each
/// packet received twice in a row, deliver its content once.
#[verifier::rlimit(40)]
#[verifier::spinoff_prover]
proof fn lemma_delivery_twice(r0: ReceiverModel, m: MetadataModel, e: Seq<u8>, data: Seq<u8>)
    requires
        sharded_transfer(m, e, data),
        !r0.incoming.contains_key(m.id),
        !r0.pending.contains_key(m.id),
    ensures
        ingest_all(
            r0,
            twice(
                seq![manifest_spec(m), manifest_spec(m)] + kept_groups_packets(
                    m,
                    e,
                    keep_all(),
                    m.group_count as int,
                ) + seq![end_spec(m.id, m.sha256)],
            ),
        ).1 == delivery_events(m, data),
{
    let (d, p) = geometry_spec(m.encoded_size);
    let keep = keep_all();
    let n = m.group_count as int;
    let rm = received_metadata(m, m.group_count);
    let man = manifest_spec(m);
    let opening = seq![man, man];
    let before = kept_groups_packets(m, e, keep, n - 1);
    let last_shards = kept_shards(m, e, keep, n - 1, (d + p) as int);
    let closing = closing_packets(m);
    let tail = manifest_tail(m, n - 1);
    assert(n >= 1);
    assert(closing =~= tail + seq![end_spec(m.id, m.sha256)]);
    assert(opening + kept_groups_packets(m, e, keep, n) + seq![end_spec(m.id, m.sha256)]
        =~= opening + before + last_shards + closing);
    lemma_twice_concat(opening + before + last_shards, closing);
    lemma_twice_concat(opening + before, last_shards);
    lemma_twice_concat(opening, before);
    lemma_ingest_all_concat(r0, twice(opening) + twice(before) + twice(last_shards), twice(closing));
    lemma_ingest_all_concat(r0, twice(opening) + twice(before), twice(last_shards));
    lemma_ingest_all_concat(r0, twice(opening), twice(before));
    // The opening manifests: the first starts the transfer, the rest repeat it.
    let s0 = group_start(r0, m, e, 0);
    lemma_opening(r0, m, e, data);
    lemma_manifest_roundtrip(m);
    assert(ingest_spec(s0, man) == (s0, Seq::<EventModel>::empty()));
    assert(opening =~= Seq::<Seq<u8>>::empty().push(man).push(man));
    lemma_twice_push(r0, Seq::<Seq<u8>>::empty().push(man), man);
    lemma_twice_push(r0, Seq::<Seq<u8>>::empty(), man);
    lemma_twice_empty(r0);
    let two = seq![man, man];
    assert(ingest_all(r0, two).1 == seq![EventModel::Started(rm)]);
    assert(two =~= Seq::<Seq<u8>>::empty().push(man).push(man));
    lemma_ingest_push(r0, Seq::<Seq<u8>>::empty().push(man), man);
    lemma_ingest_push(r0, Seq::<Seq<u8>>::empty(), man);
    assert(ingest_all(r0, Seq::<Seq<u8>>::empty()) == (r0, Seq::<EventModel>::empty()));
    let (sa, ea) = ingest_spec(r0, man);
    assert(sa == s0);
    assert(Seq::<EventModel>::empty() + ea + Seq::<EventModel>::empty() + Seq::<EventModel>::empty()
        + Seq::<EventModel>::empty() =~= seq![EventModel::Started(rm)]);
    assert(ingest_all(r0, twice(opening)) == (s0, seq![EventModel::Started(rm)]));
    // The groups.
    lemma_groups_kept_twice(r0, m, e, data, n - 1);
    lemma_keep_all_count(n - 1, (d + p) as int);
    lemma_last_group_twice(r0, m, e, data, (d + p) as int);
    let waited = ingest_all(group_start(r0, m, e, n - 1), twice(last_shards)).0;
    lemma_closing_twice(r0, m, e, data, waited);
    let last = seq![
        EventModel::Progress { id: m.id, completed_groups: n as u32, total_groups: m.group_count },
    ];
    assert(after_group(r0, m, e, data, n - 1).1 == last + seq![
        EventModel::Completed { metadata: rm, data },
    ]);
    assert(progress_events(m, n - 1) + last =~= progress_events(m, n));
    assert(seq![EventModel::Started(rm)] + progress_events(m, n - 1) + (last + seq![
        EventModel::Completed { metadata: rm, data },
    ]) + closing_events(m) =~= delivery_events(m, data));
}

/// Every receiver with no state for transfer `m` reports
/// `delivery_events(m, data)` for `packets` when it receives each of them
/// twice in a row.
pub open spec fn delivers_twice(packets: Seq<Seq<u8>>, m: MetadataModel, data: Seq<u8>) -> bool {
    forall|r: ReceiverModel|
        !r.incoming.contains_key(m.id) && !r.pending.contains_key(m.id) ==> #[trigger] ingest_all(
            r,
            twice(packets),
        ).1 == delivery_events(m, data)
}

/// Repeats are harmless: the packets of a sharded transfer, each received
/// twice in a row, still deliver its content once, with the same reports
/// as when each is received once.
pub proof fn lemma_sharded_delivers_twice(m: MetadataModel, e: Seq<u8>, data: Seq<u8>)
    requires
        sharded_transfer(m, e, data),
    ensures
        delivers_twice(sharded_packets(m, e), m, data),
{
    let keep = keep_all();
    let packets = sharded_packets(m, e);
    lemma_arriving_sharded(m, e, data, keep);
    assert forall|i: int| 0 <= i < packets.len() implies !lost(#[trigger] packets[i], keep) by {}
    lemma_arriving_whole(packets, keep);
    assert forall|r: ReceiverModel|
        !r.incoming.contains_key(m.id) && !r.pending.contains_key(m.id) implies #[trigger] ingest_all(
        r,
        twice(packets),
    ).1 == delivery_events(m, data) by {
        lemma_delivery_twice(r, m, e, data);
    }
}

/// What a delivery reports: exactly one completion, which carries the
/// content with the transfer's metadata as received, and no failure.
pub proof fn lemma_delivery_events_shape(m: MetadataModel, data: Seq<u8>)
    ensures
        ({
            let ev = delivery_events(m, data);
            let done = m.group_count as int + 1;
            &&& 0 <= done < ev.len()
            &&& ev[done] == EventModel::Completed {
                metadata: received_metadata(m, m.group_count),
                data,
            }
            &&& forall|i: int| 0 <= i < ev.len() && i != done ==> !(#[trigger] ev[i] is Completed)
            &&& forall|i: int| 0 <= i < ev.len() ==> !(#[trigger] ev[i] is Failed)
        }),
{
    let rm = received_metadata(m, m.group_count);
    let n = m.group_count as int;
    let head = seq![EventModel::Started(rm)] + progress_events(m, n);
    let done = seq![EventModel::Completed { metadata: rm, data }];
    let ev = delivery_events(m, data);
    assert(ev == head + done + closing_events(m));
    assert forall|i: int| 0 <= i < ev.len() implies (i != n + 1 ==> !(#[trigger] ev[i] is Completed))
        && !(ev[i] is Failed) by {
        if i < head.len() {
            assert(ev[i] == head[i]);
            if i >= 1 {
                assert(head[i] == progress_events(m, n)[i - 1]);
            }
        } else if i == n + 1 {
            assert(ev[i] == done[0]);
        } else {
            assert(ev[i] == closing_events(m)[i - n - 2]);
        }
    }
    assert(ev[n + 1] == done[0]);
}

} // verus!
