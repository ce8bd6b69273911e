//! What every receiver reports, whatever it has received before: completed
//! content is always the announced content, and progress never runs past the
//! group count.

use vstd::prelude::*;
use vstd::relations::injective_on;
use vstd::set_lib::{lemma_int_range, lemma_len_subset, lemma_map_size, set_int_range};
use crate::transfer::digest::sha256_spec;
use crate::transfer::packet::{parse_packet, PacketModel};
use crate::transfer::receiver::{
    empty_receiver, finish_step, ingest_spec, manifest_step, replay_step, shard_step,
    PendingModel, ReceiverModel,
};
use crate::transfer::types::EventModel;

verus! {

/// Every Completed event among `events` carries content of the announced
/// size and SHA-256.
pub open spec fn completed_verified(events: Seq<EventModel>) -> bool {
    forall|i: int|
        0 <= i < events.len() ==> match #[trigger] events[i] {
            EventModel::Completed { metadata, data } => data.len() == metadata.original_size
                && sha256_spec(data) == metadata.sha256,
            _ => true,
        }
}

/// Every Progress event among `events` is about transfer `id` of `total`
/// groups, and counts at least one and at most `total` finished groups.
pub open spec fn progress_of(events: Seq<EventModel>, id: u64, total: u32) -> bool {
    forall|i: int|
        0 <= i < events.len() ==> match #[trigger] events[i] {
            EventModel::Progress { id: pid, completed_groups, total_groups } => pid == id
                && total_groups == total && 1 <= completed_groups <= total_groups,
            _ => true,
        }
}

/// No Progress event is among `events`.
pub open spec fn no_progress(events: Seq<EventModel>) -> bool {
    forall|i: int| 0 <= i < events.len() ==> !(#[trigger] events[i] is Progress)
}

/// Every transfer being assembled holds finitely many finished groups, each
/// below its group count.
pub open spec fn groups_bounded(r: ReceiverModel) -> bool {
    forall|id: u64|
        #[trigger] r.incoming.contains_key(id) ==> {
            let t = r.incoming[id];
            &&& t.completed.dom().finite()
            &&& forall|g: u32| #[trigger] t.completed.contains_key(g) ==> g < t.metadata.group_count
        }
}

/// The receiver after taking in `payloads`, in order, from nothing.
pub open spec fn reached(payloads: Seq<Seq<u8>>) -> ReceiverModel
    decreases payloads.len(),
{
    if payloads.len() == 0 {
        empty_receiver()
    } else {
        ingest_spec(reached(payloads.drop_last()), payloads.last()).0
    }
}

proof fn lemma_verified_concat(a: Seq<EventModel>, b: Seq<EventModel>)
    requires
        completed_verified(a),
        completed_verified(b),
    ensures
        completed_verified(a + b),
{
    assert forall|i: int| 0 <= i < (a + b).len() implies match #[trigger] (a + b)[i] {
        EventModel::Completed { metadata, data } => data.len() == metadata.original_size
            && sha256_spec(data) == metadata.sha256,
        _ => true,
    } by {
        if i < a.len() {
            assert((a + b)[i] == a[i]);
        } else {
            assert((a + b)[i] == b[i - a.len()]);
        }
    }
}

proof fn lemma_progress_concat(a: Seq<EventModel>, b: Seq<EventModel>, id: u64, total: u32)
    requires
        progress_of(a, id, total),
        progress_of(b, id, total),
    ensures
        progress_of(a + b, id, total),
{
    assert forall|i: int| 0 <= i < (a + b).len() implies match #[trigger] (a + b)[i] {
        EventModel::Progress { id: pid, completed_groups, total_groups } => pid == id
            && total_groups == total && 1 <= completed_groups <= total_groups,
        _ => true,
    } by {
        if i < a.len() {
            assert((a + b)[i] == a[i]);
        } else {
            assert((a + b)[i] == b[i - a.len()]);
        }
    }
}

/// Content kept by `decode_content_spec` is the announced content.
proof fn lemma_decoded_verified(r: ReceiverModel, id: u64)
    ensures
        completed_verified(finish_step(r, id).1),
        no_progress(finish_step(r, id).1),
        finish_step(r, id).0.pending == r.pending,
        finish_step(r, id).0.incoming == r.incoming || finish_step(r, id).0.incoming
            == r.incoming.remove(id),
{
    let events = finish_step(r, id).1;
    assert forall|i: int| 0 <= i < events.len() implies !(#[trigger] events[i] is Progress) by {}
}

/// A finite set of group numbers below `g` has at most `g` members.
proof fn lemma_groups_at_most(keys: Set<u32>, g: u32)
    requires
        keys.finite(),
        forall|k: u32| #[trigger] keys.contains(k) ==> k < g,
    ensures
        keys.len() <= g,
{
    let f = |k: u32| k as int;
    let img = keys.map(f);
    assert(injective_on(f, keys));
    lemma_map_size(keys, img, f);
    lemma_int_range(0, g as int);
    assert forall|x: int| #[trigger] img.contains(x) implies set_int_range(0, g as int).contains(x) by {
        let k = choose|k: u32| keys.contains(k) && f(k) == x;
    }
    lemma_len_subset(img, set_int_range(0, g as int));
}

/// One shard step keeps the bound on finished groups; its Progress events
/// are about `id` and the group count its manifest announced, and its
/// completed content is verified.
proof fn lemma_shard_step(r: ReceiverModel, id: u64, group: u32, index: u8, data: Seq<u8>)
    requires
        groups_bounded(r),
    ensures
        groups_bounded(shard_step(r, id, group, index, data).0),
        completed_verified(shard_step(r, id, group, index, data).1),
        progress_of(
            shard_step(r, id, group, index, data).1,
            id,
            r.incoming[id].metadata.group_count,
        ),
        r.incoming.contains_key(id) ==> {
            let r1 = shard_step(r, id, group, index, data).0;
            r1.incoming.contains_key(id) ==> r1.incoming[id].metadata == r.incoming[id].metadata
        },
        !r.incoming.contains_key(id) ==> shard_step(r, id, group, index, data).0.incoming
            == r.incoming,
{
    let events = shard_step(r, id, group, index, data).1;
    if r.incoming.contains_key(id) {
        let t = r.incoming[id];
        let total = t.metadata.group_count;
        let (d, p) = crate::transfer::geometry::geometry_spec(t.metadata.encoded_size);
        if !(group >= total || index >= d + p || t.completed.contains_key(group)) {
            let slots = if t.groups.contains_key(group) {
                t.groups[group]
            } else {
                crate::transfer::receiver::fresh_slots(d + p)
            };
            if !(slots[index as int] is Some) {
                let filled = slots.update(index as int, Some(data));
                if crate::transfer::codec::present_count(filled) >= d {
                    let shards = crate::transfer::codec::erasure_reconstruct_spec(d, p, filled);
                    let t1 = crate::transfer::receiver::IncomingModel {
                        groups: t.groups.remove(group),
                        completed: t.completed.insert(
                            group,
                            crate::transfer::receiver::concat_shards(shards, d as int),
                        ),
                        ..t
                    };
                    let r1 = ReceiverModel { incoming: r.incoming.insert(id, t1), ..r };
                    assert(t1.completed.dom() == t.completed.dom().insert(group));
                    lemma_groups_at_most(t1.completed.dom(), total);
                    assert(t1.completed.len() == t.completed.len() + 1);
                    assert(groups_bounded(r1));
                    lemma_decoded_verified(r1, id);
                    let done = t1.completed.len() as u32;
                    let progress = seq![
                        EventModel::Progress { id, completed_groups: done, total_groups: total },
                    ];
                    assert(progress_of(progress, id, total));
                    assert(completed_verified(progress));
                    if done == total {
                        let finished = finish_step(r1, id).1;
                        assert(progress_of(finished, id, total));
                        lemma_progress_concat(progress, finished, id, total);
                        lemma_verified_concat(progress, finished);
                        assert(events == progress + finished);
                    }
                }
            }
        }
    }
}

/// Receiving the waiting shards of `id` keeps the bound; every Progress event
/// is about `id` and `total`, the group count of the transfer it holds.
proof fn lemma_replay(r: ReceiverModel, id: u64, list: Seq<PendingModel>, total: u32)
    requires
        groups_bounded(r),
        r.incoming.contains_key(id) ==> r.incoming[id].metadata.group_count == total,
    ensures
        groups_bounded(replay_step(r, id, list).0),
        completed_verified(replay_step(r, id, list).1),
        progress_of(replay_step(r, id, list).1, id, total),
    decreases list.len(),
{
    if list.len() > 0 {
        let (r1, first) = shard_step(r, id, list[0].group, list[0].index, list[0].data);
        lemma_shard_step(r, id, list[0].group, list[0].index, list[0].data);
        if !r.incoming.contains_key(id) {
            assert(first.len() == 0);
        }
        lemma_replay(r1, id, list.drop_first(), total);
        let rest = replay_step(r1, id, list.drop_first()).1;
        lemma_progress_concat(first, rest, id, total);
        lemma_verified_concat(first, rest);
    }
}

/// A manifest keeps the bound; its Progress events are about its transfer
/// and its group count.
proof fn lemma_manifest(r: ReceiverModel, m: crate::transfer::types::MetadataModel)
    requires
        groups_bounded(r),
    ensures
        groups_bounded(manifest_step(r, m).0),
        completed_verified(manifest_step(r, m).1),
        progress_of(manifest_step(r, m).1, m.id, m.group_count),
{
    if !(r.incoming.contains_key(m.id) && r.incoming[m.id].metadata == m) {
        let fresh = crate::transfer::receiver::IncomingModel {
            metadata: m,
            groups: Map::empty(),
            completed: Map::empty(),
        };
        let r1 = ReceiverModel { incoming: r.incoming.insert(m.id, fresh), ..r };
        assert(fresh.completed.dom() =~= Set::<u32>::empty());
        assert(groups_bounded(r1));
        let started = seq![EventModel::Started(m)];
        assert(progress_of(started, m.id, m.group_count));
        assert(completed_verified(started));
        if r1.pending.contains_key(m.id) {
            let list = r1.pending[m.id];
            let r0 = ReceiverModel { pending: r1.pending.remove(m.id), ..r1 };
            lemma_replay(r0, m.id, list, m.group_count);
            let replayed = replay_step(r0, m.id, list).1;
            lemma_progress_concat(started, replayed, m.id, m.group_count);
            lemma_verified_concat(started, replayed);
        }
    }
}

/// One payload keeps the bound, and its events obey both laws.
proof fn lemma_ingest(r: ReceiverModel, payload: Seq<u8>)
    requires
        groups_bounded(r),
    ensures
        groups_bounded(ingest_spec(r, payload).0),
        completed_verified(ingest_spec(r, payload).1),
        match parse_packet(payload) {
            Some(PacketModel::Manifest(m)) => progress_of(
                ingest_spec(r, payload).1,
                m.id,
                m.group_count,
            ),
            Some(PacketModel::Shard { id, .. }) => progress_of(
                ingest_spec(r, payload).1,
                id,
                r.incoming[id].metadata.group_count,
            ),
            _ => no_progress(ingest_spec(r, payload).1),
        },
{
    let events = ingest_spec(r, payload).1;
    match parse_packet(payload) {
        None => {},
        Some(packet) => match packet {
            PacketModel::Manifest(m) => lemma_manifest(r, m),
            PacketModel::Shard { id, group, index, data } => lemma_shard_step(
                r,
                id,
                group,
                index,
                data,
            ),
            PacketModel::End { id, sha256 } => {
                lemma_decoded_verified(r, id);
                assert forall|i: int| 0 <= i < events.len() implies !(
                #[trigger] events[i] is Progress) by {}
            },
            _ => {
                assert forall|i: int| 0 <= i < events.len() implies !(
                #[trigger] events[i] is Progress) by {}
            },
        },
    }
}

/// Every receiver reached from nothing holds finitely many finished groups
/// per transfer, each below the transfer's group count.
pub proof fn lemma_reached_bounded(payloads: Seq<Seq<u8>>)
    ensures
        groups_bounded(reached(payloads)),
    decreases payloads.len(),
{
    if payloads.len() > 0 {
        lemma_reached_bounded(payloads.drop_last());
        lemma_ingest(reached(payloads.drop_last()), payloads.last());
    }
}

/// Nothing unverified is delivered: whatever state a receiver is in, each
/// Completed event that a payload gives carries content of the size and
/// SHA-256 that its metadata announces.
pub proof fn lemma_completed_is_verified(payloads: Seq<Seq<u8>>, payload: Seq<u8>)
    ensures
        completed_verified(ingest_spec(reached(payloads), payload).1),
{
    lemma_reached_bounded(payloads);
    lemma_ingest(reached(payloads), payload);
}

/// Progress stays within its transfer: after any payloads, a shard or a
/// manifest gives only Progress events about its own transfer, counting at
/// least one and at most all of the group count that the transfer's
/// manifest announced; any other payload gives none.
pub proof fn lemma_progress_bounded(payloads: Seq<Seq<u8>>, payload: Seq<u8>)
    ensures
        ({
            let r = reached(payloads);
            let events = ingest_spec(r, payload).1;
            match parse_packet(payload) {
                Some(PacketModel::Manifest(m)) => progress_of(events, m.id, m.group_count),
                Some(PacketModel::Shard { id, .. }) => progress_of(
                    events,
                    id,
                    r.incoming[id].metadata.group_count,
                ),
                _ => no_progress(events),
            }
        }),
{
    lemma_reached_bounded(payloads);
    lemma_ingest(reached(payloads), payload);
}

} // verus!
