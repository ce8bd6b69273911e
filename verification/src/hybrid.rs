//! Choosing the physical layer of each transfer packet: the short inline
//! packets go over FSK frames, everything else over OFDM.

use vstd::prelude::*;
use crate::frame::{encoded_sample_count_with_profile, sample_count_spec};
use crate::ofdm::{encoded_ofdm_sample_count, ofdm_sample_count_spec, OfdmProfile};
use crate::protocol::{AcousticProfile, MAX_PAYLOAD};
use crate::transfer::packet::{
    classify_packet, classify_spec, kind_of, lemma_classify_parsed, parse_packet, PacketModel,
    TransferPacketKind,
};

verus! {

/// Physical layer of one packet.
#[derive(Debug, Clone, Copy, PartialEq, Eq, Structural)]
pub enum PacketPhy {
    Fsk,
    Ofdm,
}

/// The layer a packet travels on: FSK for inline packets, OFDM otherwise.
pub open spec fn route_spec(packet: Seq<u8>) -> PacketPhy {
    if classify_spec(packet) == Some(TransferPacketKind::Inline) {
        PacketPhy::Fsk
    } else {
        PacketPhy::Ofdm
    }
}

/// The layer of each packet.
pub fn hybrid_packet_routes(packets: &[Vec<u8>]) -> (res: Vec<PacketPhy>)
    ensures
        res@.len() == packets@.len(),
        forall|i: int| 0 <= i < packets@.len() ==> #[trigger] res@[i] == route_spec(packets@[i]@),
{
    let mut routes: Vec<PacketPhy> = Vec::new();
    let mut i: usize = 0;
    while i < packets.len()
        invariant
            i <= packets@.len(),
            routes@.len() == i,
            forall|j: int| 0 <= j < i ==> #[trigger] routes@[j] == route_spec(packets@[j]@),
        decreases packets@.len() - i,
    {
        let route = match classify_packet(packets[i].as_slice()) {
            Some(TransferPacketKind::Inline) => PacketPhy::Fsk,
            _ => PacketPhy::Ofdm,
        };
        routes.push(route);
        i = i + 1;
    }
    routes
}

/// A well-formed packet goes over FSK exactly when it is an inline packet.
pub proof fn lemma_route_of_parsed(packet: Seq<u8>)
    requires
        parse_packet(packet) is Some,
    ensures
        route_spec(packet) == if parse_packet(packet)->0 is Inline {
            PacketPhy::Fsk
        } else {
            PacketPhy::Ofdm
        },
{
    lemma_classify_parsed(packet);
}

/// Samples that a packet of `packet_len` bytes takes on its layer.
pub open spec fn hybrid_sample_count_spec(
    packet_len: int,
    route: PacketPhy,
    fsk_profile: AcousticProfile,
    ofdm_profile: OfdmProfile,
) -> int {
    match route {
        PacketPhy::Fsk => sample_count_spec(packet_len, fsk_profile),
        PacketPhy::Ofdm => ofdm_sample_count_spec(packet_len, ofdm_profile),
    }
}

/// Exact number of 48 kHz samples that a packet of `packet_len` bytes takes
/// on its layer.
pub fn hybrid_sample_count(
    packet_len: usize,
    route: PacketPhy,
    fsk_profile: AcousticProfile,
    ofdm_profile: OfdmProfile,
) -> (res: usize)
    requires
        route == PacketPhy::Fsk ==> sample_count_spec(packet_len as int, fsk_profile) <= usize::MAX,
        route == PacketPhy::Ofdm ==> packet_len <= MAX_PAYLOAD,
    ensures
        res == hybrid_sample_count_spec(packet_len as int, route, fsk_profile, ofdm_profile),
{
    match route {
        PacketPhy::Fsk => encoded_sample_count_with_profile(packet_len, fsk_profile),
        PacketPhy::Ofdm => encoded_ofdm_sample_count(packet_len, ofdm_profile),
    }
}

} // verus!
