//! The integer side of the OFDM data plane: profiles, frame geometry, the
//! header, the bit layout of header and body over the carriers, and the
//! protection of the body (CRC-16, Reed-Solomon) and its checking on receipt.

use vstd::prelude::*;
use crate::bytes::{append_bytes, copy_range};
use crate::protocol::{crc8, crc8_spec, MAX_LANES, MAX_PAYLOAD};
use crate::rs::{
    block_count, blocks_correctable, corrected_data, decode_blocks, decodes_to, encode_blocks,
    encoded_len, encoded_len_spec, interleave_spec, MAX_DATA_BYTES,
};

verus! {

/// FFT size of one OFDM symbol.
pub const OFDM_FFT_SIZE: usize = 1024;
/// Cyclic prefix of one OFDM symbol.
pub const OFDM_CP_SAMPLES: usize = 384;
/// Samples in one OFDM symbol.
pub const OFDM_SYMBOL_SAMPLES: usize = OFDM_FFT_SIZE + OFDM_CP_SAMPLES;
/// Silent samples before and after a frame.
pub const EDGE_SILENCE: usize = 128;
/// Carriers in use, pilots included.
pub const ACTIVE_CARRIERS: usize = 72;
/// Carriers that carry data.
pub const DATA_CARRIERS: usize = 64;
/// Every ninth active carrier is a pilot.
pub const PILOT_STRIDE: usize = 9;
/// Bytes in the frame header.
pub const HEADER_BYTES: usize = 8;
/// Bits in the frame header.
pub const HEADER_BITS: usize = HEADER_BYTES * 8;
/// Carriers that carry each header cell.
pub const HEADER_REPETITION: usize = 4;
/// Header cells per symbol.
pub const HEADER_CELLS: usize = DATA_CARRIERS / HEADER_REPETITION;
/// Symbols of the header.
pub const HEADER_SYMBOLS: usize = 8;
/// Reference symbols before the header.
pub const OFDM_PREAMBLE_SYMBOLS: usize = 1;
/// Symbols before the body.
pub const FIXED_SYMBOLS: usize = OFDM_PREAMBLE_SYMBOLS + HEADER_SYMBOLS;

/// Body modulation of an OFDM frame.
#[derive(Debug, Clone, Copy, PartialEq, Eq, Structural)]
pub enum OfdmModulation {
    Qpsk,
    Qam16,
}

impl OfdmModulation {
    pub open spec fn spec_wire_value(self) -> u8 {
        match self {
            OfdmModulation::Qpsk => 1,
            OfdmModulation::Qam16 => 2,
        }
    }

    pub open spec fn spec_bits_per_carrier(self) -> usize {
        match self {
            OfdmModulation::Qpsk => 1,
            OfdmModulation::Qam16 => 2,
        }
    }

    pub open spec fn spec_repetition(self) -> usize {
        match self {
            OfdmModulation::Qpsk => 4,
            OfdmModulation::Qam16 => 2,
        }
    }

    /// The header byte that names this modulation.
    pub fn wire_value(self) -> (res: u8)
        ensures
            res == self.spec_wire_value(),
    {
        match self {
            OfdmModulation::Qpsk => 1,
            OfdmModulation::Qam16 => 2,
        }
    }

    /// Bits per carrier and symbol: one (differential BPSK) or two
    /// (differential QPSK).
    pub fn bits_per_carrier(self) -> (res: usize)
        ensures
            res == self.spec_bits_per_carrier(),
    {
        match self {
            OfdmModulation::Qpsk => 1,
            OfdmModulation::Qam16 => 2,
        }
    }

    /// How many carriers repeat each coded cell.
    pub fn repetition(self) -> (res: usize)
        ensures
            res == self.spec_repetition(),
    {
        match self {
            OfdmModulation::Qpsk => 4,
            OfdmModulation::Qam16 => 2,
        }
    }
}

/// Modulation and frequency lane of an OFDM link.
#[derive(Debug, Clone, Copy, PartialEq, Eq, Structural)]
pub struct OfdmProfile {
    modulation: OfdmModulation,
    lane: u8,
}

impl OfdmProfile {
    pub closed spec fn spec_modulation(self) -> OfdmModulation {
        self.modulation
    }

    pub closed spec fn spec_lane(self) -> u8 {
        self.lane
    }

    /// The lane exists.
    pub open spec fn wf(self) -> bool {
        self.spec_lane() < MAX_LANES
    }

    pub open spec fn spec_first_active_bin(self) -> int {
        36 + self.spec_lane() * 96
    }

    pub open spec fn spec_cells(self) -> usize {
        (DATA_CARRIERS / self.spec_modulation().spec_repetition()) as usize
    }

    pub open spec fn spec_body_bits_per_symbol(self) -> usize {
        (self.spec_cells() * self.spec_modulation().spec_bits_per_carrier()) as usize
    }

    /// Differential BPSK profile on `lane`.
    pub fn qpsk(lane: u8) -> (res: Self)
        requires
            lane < MAX_LANES,
        ensures
            res.spec_modulation() == OfdmModulation::Qpsk,
            res.spec_lane() == lane,
            res.wf(),
    {
        OfdmProfile { modulation: OfdmModulation::Qpsk, lane }
    }

    /// Differential QPSK profile on `lane`.
    pub fn qam16(lane: u8) -> (res: Self)
        requires
            lane < MAX_LANES,
        ensures
            res.spec_modulation() == OfdmModulation::Qam16,
            res.spec_lane() == lane,
            res.wf(),
    {
        OfdmProfile { modulation: OfdmModulation::Qam16, lane }
    }

    /// The default profile: differential BPSK on lane 0.
    pub fn default_profile() -> (res: Self)
        ensures
            res.spec_modulation() == OfdmModulation::Qpsk,
            res.spec_lane() == 0,
            res.wf(),
    {
        Self::qpsk(0)
    }

    pub fn modulation(self) -> (res: OfdmModulation)
        ensures
            res == self.spec_modulation(),
    {
        self.modulation
    }

    pub fn lane(self) -> (res: u8)
        ensures
            res == self.spec_lane(),
    {
        self.lane
    }

    /// FFT bin of the first active carrier.
    pub fn first_active_bin(self) -> (res: usize)
        requires
            self.wf(),
        ensures
            res == self.spec_first_active_bin(),
    {
        36 + self.lane as usize * 96
    }

    /// Coded cells per body symbol.
    pub fn cells(self) -> (res: usize)
        ensures
            res == self.spec_cells(),
            res == 16 || res == 32,
    {
        DATA_CARRIERS / self.modulation.repetition()
    }

    /// Body bits per symbol.
    pub fn body_bits_per_symbol(self) -> (res: usize)
        ensures
            res == self.spec_body_bits_per_symbol(),
            res == 16 || res == 64,
    {
        self.cells() * self.modulation.bits_per_carrier()
    }
}

/// Body symbols of a frame whose payload has `payload_len` bytes.
pub open spec fn body_symbol_count_spec(payload_len: int, profile: OfdmProfile) -> int {
    let bits = encoded_len_spec(payload_len + 2) * 8;
    let per = profile.spec_body_bits_per_symbol() as int;
    (bits + per - 1) / per
}

/// Body symbols of a frame whose payload has `payload_len` bytes.
pub fn body_symbol_count(payload_len: usize, profile: OfdmProfile) -> (res: usize)
    requires
        payload_len <= MAX_PAYLOAD,
    ensures
        res == body_symbol_count_spec(payload_len as int, profile),
        res <= 200,
{
    proof {
        assert(block_count(payload_len as int + 2) <= 2) by (nonlinear_arith)
            requires
                payload_len <= 255,
        ;
    }
    let protected_len = encoded_len(payload_len + 2);
    let per = profile.body_bits_per_symbol();
    let bits = protected_len * 8;
    let q = bits / per;
    let r = bits % per;
    proof {
        assert(bits == per * q + r && 0 <= r < per) by (nonlinear_arith)
            requires
                per > 0,
                q == bits / per,
                r == bits % per,
        ;
        assert((bits + per - 1) / (per as int) == q + if r != 0 { 1int } else { 0int }) by (nonlinear_arith)
            requires
                bits == per * q + r,
                0 <= r < per,
        ;
        assert(q <= bits) by (nonlinear_arith)
            requires
                per >= 1,
                bits == per * q + r,
                r >= 0,
        ;
    }
    if r != 0 {
        q + 1
    } else {
        q
    }
}

/// Coded cell of a data carrier: carriers `k`, `k + cells`, ... share a cell,
/// so its copies land on well-separated frequencies.
pub fn carrier_cell(carrier: usize, cells: usize) -> (res: usize)
    requires
        cells > 0,
    ensures
        res == carrier % cells,
        res < cells,
{
    carrier % cells
}

/// Samples of a frame: silence, reference and header symbols, body symbols,
/// silence.
pub open spec fn ofdm_sample_count_spec(payload_len: int, profile: OfdmProfile) -> int {
    EDGE_SILENCE * 2 + (FIXED_SYMBOLS + body_symbol_count_spec(payload_len, profile))
        * OFDM_SYMBOL_SAMPLES
}

/// Exact number of 48 kHz samples in the OFDM frame of a payload of
/// `payload_len` bytes.
pub fn encoded_ofdm_sample_count(payload_len: usize, profile: OfdmProfile) -> (res: usize)
    requires
        payload_len <= MAX_PAYLOAD,
    ensures
        res == ofdm_sample_count_spec(payload_len as int, profile),
{
    let body_symbols = body_symbol_count(payload_len, profile);
    EDGE_SILENCE * 2 + (FIXED_SYMBOLS + body_symbols) * OFDM_SYMBOL_SAMPLES
}

/// The header of a frame: "OF", payload length, modulation, lane, CRC-8 of
/// those five bytes, and a fixed tail.
pub open spec fn header_spec(payload_len: u8, profile: OfdmProfile) -> Seq<u8> {
    let head = seq![
        0x4fu8,
        0x46u8,
        payload_len,
        profile.spec_modulation().spec_wire_value(),
        profile.spec_lane(),
    ];
    head + seq![crc8_spec(head), 0xa5u8, 0x5au8]
}

/// The header bytes of a frame with a payload of `payload_len` bytes.
pub fn header_bytes(payload_len: usize, profile: OfdmProfile) -> (res: [u8; 8])
    requires
        payload_len <= MAX_PAYLOAD,
    ensures
        res@ == header_spec(payload_len as u8, profile),
{
    let mut header = [0u8; 8];
    header[0] = 0x4f;
    header[1] = 0x46;
    header[2] = payload_len as u8;
    header[3] = profile.modulation().wire_value();
    header[4] = profile.lane();
    let head = [header[0], header[1], header[2], header[3], header[4]];
    let check = crc8(&head);
    header[5] = check;
    header[6] = 0xa5;
    header[7] = 0x5a;
    proof {
        assert(head@ =~= header_spec(payload_len as u8, profile).subrange(0, 5));
        assert(header@ =~= header_spec(payload_len as u8, profile));
    }
    header
}

/// The payload length that a header announces to a receiver of `profile`,
/// or `None` when the header is not one of that profile's.
pub open spec fn parse_header_spec(header: Seq<u8>, profile: OfdmProfile) -> Option<u8> {
    if header.len() == HEADER_BYTES && header[0] == 0x4fu8 && header[1] == 0x46u8 && header[3]
        == profile.spec_modulation().spec_wire_value() && header[4] == profile.spec_lane()
        && header[5] == crc8_spec(header.subrange(0, 5)) && header[6] == 0xa5u8 && header[7]
        == 0x5au8 {
        Some(header[2])
    } else {
        None
    }
}

/// Checks a received header against `profile` and gives the payload length
/// it announces.
pub fn parse_header(header: &[u8], profile: OfdmProfile) -> (res: Option<usize>)
    ensures
        res == match parse_header_spec(header@, profile) {
            Some(v) => Some(v as usize),
            None => None::<usize>,
        },
{
    if header.len() != HEADER_BYTES {
        return None;
    }
    let head = copy_range(header, 0, 5);
    if header[0] != 0x4f || header[1] != 0x46 || header[3] != profile.modulation().wire_value()
        || header[4] != profile.lane() || header[5] != crc8(head.as_slice()) || header[6] != 0xa5
        || header[7] != 0x5a {
        return None;
    }
    Some(header[2] as usize)
}

/// A receiver of the same profile reads back the payload length from a
/// header; a receiver of another profile refuses it.
pub proof fn lemma_header_roundtrip(payload_len: u8, sender: OfdmProfile, receiver: OfdmProfile)
    ensures
        parse_header_spec(header_spec(payload_len, sender), receiver) == if sender == receiver {
            Some(payload_len)
        } else {
            None::<u8>
        },
{
    let h = header_spec(payload_len, sender);
    assert(h.subrange(0, 5) =~= seq![
        0x4fu8,
        0x46u8,
        payload_len,
        sender.spec_modulation().spec_wire_value(),
        sender.spec_lane(),
    ]);
    if sender != receiver && sender.spec_modulation() == receiver.spec_modulation()
        && sender.spec_lane() == receiver.spec_lane() {
        lemma_profile_eq(sender, receiver);
    }
}

/// Profiles with the same modulation and lane are the same profile.
pub proof fn lemma_profile_eq(a: OfdmProfile, b: OfdmProfile)
    requires
        a.spec_modulation() == b.spec_modulation(),
        a.spec_lane() == b.spec_lane(),
    ensures
        a == b,
{
}

/// Bit `index` (0 is the most significant) of `byte`.
pub open spec fn bit_of(byte: u8, index: int) -> bool {
    (byte >> ((7 - index) as u8)) & 1u8 == 1u8
}

/// The bits of `bytes`, most significant first.
pub open spec fn bits_spec(bytes: Seq<u8>) -> Seq<bool> {
    Seq::new(8 * bytes.len(), |j: int| bit_of(bytes[j / 8], j % 8))
}

/// The bits of `bytes`, most significant first.
pub fn bytes_to_bits(bytes: &[u8]) -> (res: Vec<bool>)
    requires
        8 * bytes@.len() <= usize::MAX,
    ensures
        res@ == bits_spec(bytes@),
{
    let mut bits: Vec<bool> = Vec::new();
    let mut i: usize = 0;
    while i < bytes.len()
        invariant
            8 * bytes@.len() <= usize::MAX,
            i <= bytes@.len(),
            bits@ =~= bits_spec(bytes@.subrange(0, i as int)),
        decreases bytes@.len() - i,
    {
        let byte = bytes[i];
        let ghost before = bits@;
        let mut shift: u8 = 8;
        while shift > 0
            invariant
                shift <= 8,
                bits@.len() == before.len() + (8 - shift),
                bits@.subrange(0, before.len() as int) == before,
                forall|m: int|
                    0 <= m < 8 - shift ==> bits@[before.len() + m] == bit_of(byte, m),
            decreases shift,
        {
            shift = shift - 1;
            bits.push((byte >> shift) & 1 == 1);
        }
        i = i + 1;
        proof {
            let prefix = bytes@.subrange(0, i as int);
            assert forall|j: int| 0 <= j < 8 * prefix.len() implies #[trigger] bits@[j] == bit_of(
                prefix[j / 8],
                j % 8,
            ) by {
                if j < before.len() {
                    assert(bits@[j] == before[j]);
                    assert(prefix[j / 8] == bytes@.subrange(0, i - 1)[j / 8]);
                } else {
                    assert(j / 8 == i - 1 && j % 8 == j - before.len());
                }
            }
        }
    }
    proof {
        assert(bytes@.subrange(0, bytes@.len() as int) =~= bytes@);
    }
    bits
}

/// The byte built from the first `count` bits at `start`, most significant
/// first, the missing low bits zero.
pub open spec fn pack_spec(bits: Seq<bool>, start: int, count: int) -> u8
    decreases count,
{
    if count <= 0 {
        0
    } else {
        pack_spec(bits, start, count - 1) | if bits[start + count - 1] {
            (1u8 << ((8 - count) as u8)) as u8
        } else {
            0u8
        }
    }
}

/// The first `byte_len` bytes packed from `bits`, eight bits each, the last
/// one padded with zero bits; fewer when the bits run out.
pub open spec fn bytes_spec(bits: Seq<bool>, byte_len: int) -> Seq<u8> {
    let available: int = ((bits.len() + 7) / 8) as int;
    let count = if byte_len < available {
        byte_len
    } else {
        available
    };
    Seq::new(
        count as nat,
        |k: int|
            pack_spec(
                bits,
                8 * k,
                if bits.len() - 8 * k < 8 {
                    bits.len() - 8 * k
                } else {
                    8
                },
            ),
    )
}

/// Packs bits into at most `byte_len` bytes, most significant bit first.
pub fn bits_to_bytes(bits: &[bool], byte_len: usize) -> (res: Vec<u8>)
    ensures
        res@ == bytes_spec(bits@, byte_len as int),
{
    let total = bits.len();
    let mut bytes: Vec<u8> = Vec::new();
    let mut start: usize = 0;
    while bytes.len() < byte_len && start < total
        invariant
            total == bits@.len(),
            start == if 8 * bytes@.len() < total {
                8 * bytes@.len() as int
            } else {
                total as int
            },
            bytes@.len() <= byte_len,
            bytes@.len() <= (total + 7) / 8,
            forall|k: int|
                0 <= k < bytes@.len() ==> #[trigger] bytes@[k] == bytes_spec(
                    bits@,
                    byte_len as int,
                )[k],
            start == total ==> bytes@.len() == (total + 7) / 8,
        decreases byte_len - bytes@.len(),
    {
        let count = if total - start < 8 {
            total - start
        } else {
            8
        };
        let mut byte: u8 = 0;
        let mut index: usize = 0;
        while index < count
            invariant
                total == bits@.len(),
                count <= 8,
                start + count <= total,
                index <= count,
                byte == pack_spec(bits@, start as int, index as int),
            decreases count - index,
        {
            if bits[start + index] {
                byte = byte | (1u8 << ((7 - index) as u8));
            } else {
                byte = byte | 0;
            }
            index = index + 1;
        }
        bytes.push(byte);
        start = start + count;
    }
    proof {
        assert(bytes@ =~= bytes_spec(bits@, byte_len as int));
    }
    bytes
}

proof fn lemma_byte_from_bits(x: u8)
    by (bit_vector)
    ensures
        x == (((((((0u8 | if (x >> 7u8) & 1u8 == 1u8 { 128u8 } else { 0u8 }) | if (x >> 6u8) & 1u8
            == 1u8 { 64u8 } else { 0u8 }) | if (x >> 5u8) & 1u8 == 1u8 { 32u8 } else { 0u8 }) | if (x
            >> 4u8) & 1u8 == 1u8 { 16u8 } else { 0u8 }) | if (x >> 3u8) & 1u8 == 1u8 {
            8u8
        } else {
            0u8
        }) | if (x >> 2u8) & 1u8 == 1u8 { 4u8 } else { 0u8 }) | if (x >> 1u8) & 1u8 == 1u8 {
            2u8
        } else {
            0u8
        }) | if x & 1u8 == 1u8 { 1u8 } else { 0u8 },
{
}

/// Packing the bits of bytes gives the bytes back.
pub proof fn lemma_bits_roundtrip(bytes: Seq<u8>)
    ensures
        bytes_spec(bits_spec(bytes), bytes.len() as int) == bytes,
{
    let bits = bits_spec(bytes);
    assert forall|k: int| 0 <= k < bytes.len() implies #[trigger] pack_spec(bits, 8 * k, 8)
        == bytes[k] by {
        assert(bits[8 * k + 0] == bit_of(bytes[k], 0));
        assert(bits[8 * k + 1] == bit_of(bytes[k], 1));
        assert(bits[8 * k + 2] == bit_of(bytes[k], 2));
        assert(bits[8 * k + 3] == bit_of(bytes[k], 3));
        assert(bits[8 * k + 4] == bit_of(bytes[k], 4));
        assert(bits[8 * k + 5] == bit_of(bytes[k], 5));
        assert(bits[8 * k + 6] == bit_of(bytes[k], 6));
        assert(bits[8 * k + 7] == bit_of(bytes[k], 7));
        reveal_with_fuel(pack_spec, 9);
        assert((1u8 << 7u8) as u8 == 128u8 && (1u8 << 6u8) as u8 == 64u8 && (1u8 << 5u8) as u8
            == 32u8 && (1u8 << 4u8) as u8 == 16u8 && (1u8 << 3u8) as u8 == 8u8 && (1u8 << 2u8) as u8
            == 4u8 && (1u8 << 1u8) as u8 == 2u8 && (1u8 << 0u8) as u8 == 1u8) by (bit_vector);
        let x = bytes[k];
        assert(x >> 0u8 == x) by (bit_vector);
        lemma_byte_from_bits(x);
    }
    assert(bytes_spec(bits, bytes.len() as int) =~= bytes);
}

/// One CRC-16 (polynomial 0x1021) shift step.
pub open spec fn crc16_shift(c: u16) -> u16 {
    if c & 0x8000u16 != 0 {
        ((c << 1u16) ^ 0x1021u16) as u16
    } else {
        (c << 1u16) as u16
    }
}

/// `k` CRC-16 shift steps.
pub open spec fn crc16_shifts(c: u16, k: nat) -> u16
    decreases k,
{
    if k == 0 {
        c
    } else {
        crc16_shifts(crc16_shift(c), (k - 1) as nat)
    }
}

/// CRC-16/CCITT-FALSE (polynomial 0x1021, initial value 0xFFFF, no
/// reflection) of `data`.
pub open spec fn crc16_spec(data: Seq<u8>) -> u16
    decreases data.len(),
{
    if data.len() == 0 {
        0xffff
    } else {
        crc16_shifts(crc16_spec(data.drop_last()) ^ ((data.last() as u16) << 8u16), 8)
    }
}

/// CRC-16 checksum of `data`.
pub fn crc16(data: &[u8]) -> (res: u16)
    ensures
        res == crc16_spec(data@),
{
    let mut checksum: u16 = 0xffff;
    let mut i: usize = 0;
    while i < data.len()
        invariant
            0 <= i <= data@.len(),
            checksum == crc16_spec(data@.subrange(0, i as int)),
        decreases data@.len() - i,
    {
        let ghost prefix = data@.subrange(0, i as int + 1);
        assert(prefix.drop_last() =~= data@.subrange(0, i as int));
        checksum = checksum ^ ((data[i] as u16) << 8u16);
        let ghost start = checksum;
        let mut k: usize = 0;
        while k < 8
            invariant
                0 <= k <= 8,
                crc16_shifts(start, 8) == crc16_shifts(checksum, (8 - k) as nat),
            decreases 8 - k,
        {
            checksum = if checksum & 0x8000 != 0 {
                (checksum << 1u16) ^ 0x1021
            } else {
                checksum << 1u16
            };
            k = k + 1;
        }
        i = i + 1;
    }
    assert(data@.subrange(0, data@.len() as int) =~= data@);
    checksum
}

/// The two bytes of `value`, least significant first.
pub open spec fn le16(value: u16) -> Seq<u8> {
    seq![(value & 0xffu16) as u8, (value >> 8u16) as u8]
}

/// The bytes the body protects: the payload, then its CRC-16.
pub open spec fn protect_spec(payload: Seq<u8>) -> Seq<u8> {
    payload + le16(crc16_spec(payload))
}

/// The payload that the bits of an OFDM body carry, for a header that
/// announced `payload_len` bytes: the bytes are packed, their codewords
/// corrected, and the CRC-16 after the payload checked.
pub open spec fn decode_body_spec(bits: Seq<bool>, payload_len: int) -> Option<Seq<u8>> {
    let n = payload_len + 2;
    let encoded = bytes_spec(bits, encoded_len_spec(n));
    if !(encoded.len() == encoded_len_spec(n) && blocks_correctable(encoded, n)) {
        None
    } else {
        let decoded = corrected_data(encoded, n, block_count(n));
        let payload = decoded.subrange(0, payload_len);
        if decoded.subrange(payload_len, n) != le16(crc16_spec(payload)) {
            None
        } else {
            Some(payload)
        }
    }
}

fn protect(payload: &[u8]) -> (res: Vec<u8>)
    ensures
        res@ == protect_spec(payload@),
{
    let check = crc16(payload);
    let mut protected: Vec<u8> = Vec::new();
    append_bytes(&mut protected, payload);
    protected.push((check & 0xff) as u8);
    protected.push((check >> 8u16) as u8);
    proof {
        assert(protected@ =~= protect_spec(payload@));
    }
    protected
}

/// The body bits of `payload`: the payload and its CRC-16, Reed-Solomon
/// coded, most significant bit first. No profile enters them.
pub open spec fn expected_body_spec(payload: Seq<u8>) -> Seq<bool> {
    bits_spec(interleave_spec(protect_spec(payload)))
}

/// The bits of bytes `a..b` of `x` are bits `8a..8b` of its bits.
proof fn lemma_bits_subrange(x: Seq<u8>, a: int, b: int)
    requires
        0 <= a <= b <= x.len(),
    ensures
        bits_spec(x).subrange(8 * a, 8 * b) == bits_spec(x.subrange(a, b)),
{
    assert forall|j: int| 0 <= j < 8 * (b - a) implies bits_spec(x).subrange(8 * a, 8 * b)[j]
        == bits_spec(x.subrange(a, b))[j] by {
        assert((8 * a + j) / 8 == a + j / 8 && (8 * a + j) % 8 == j % 8) by (nonlinear_arith)
            requires
                0 <= j,
                0 <= a,
        ;
        assert(j / 8 < b - a) by (nonlinear_arith)
            requires
                0 <= j < 8 * (b - a),
        ;
    }
    assert(bits_spec(x).subrange(8 * a, 8 * b) =~= bits_spec(x.subrange(a, b)));
}

/// The body bits that the frame of `payload` carries, the same for every
/// profile: `8 * encoded_len(n + 2)` bits for a payload of `n` bytes. When
/// the payload and its CRC-16 fit in one codeword, the bits begin with the
/// payload's bits and then those of its CRC-16, low byte first. Decoding
/// them with the payload's length gives the payload back.
pub fn ofdm_expected_body_bits(payload: &[u8], profile: OfdmProfile) -> (res: Vec<bool>)
    requires
        8 * encoded_len_spec(payload@.len() as int + 2) <= usize::MAX,
    ensures
        res@ == expected_body_spec(payload@),
        res@.len() == 8 * encoded_len_spec(payload@.len() as int + 2),
        payload@.len() + 2 <= MAX_DATA_BYTES ==> {
            let n = payload@.len() as int;
            &&& res@.subrange(0, 8 * n) == bits_spec(payload@)
            &&& res@.subrange(8 * n, 8 * n + 16) == bits_spec(le16(crc16_spec(payload@)))
        },
        decode_body_spec(res@, payload@.len() as int) == Some(payload@),
{
    let protected = protect(payload);
    let encoded = encode_blocks(protected.as_slice());
    let bits = bytes_to_bits(encoded.as_slice());
    proof {
        lemma_bits_roundtrip(encoded@);
        let n = payload@.len() as int + 2;
        assert(protected@.len() == n);
        let decoded = corrected_data(encoded@, n, block_count(n));
        assert(decoded == protected@);
        assert(decoded.subrange(0, payload@.len() as int) =~= payload@);
        assert(decoded.subrange(payload@.len() as int, n) =~= le16(crc16_spec(payload@)));
        if n <= MAX_DATA_BYTES {
            let m = payload@.len() as int;
            lemma_bits_subrange(encoded@, 0, m);
            lemma_bits_subrange(encoded@, m, n);
            assert(encoded@.subrange(0, n) == protected@);
            assert(encoded@.subrange(0, m) =~= payload@);
            assert(encoded@.subrange(m, n) =~= le16(crc16_spec(payload@)));
        }
    }
    bits
}

/// The payload that the bits of an OFDM body carry, for a header that
/// announced `payload_len` bytes, or `None` when the codewords cannot be
/// corrected or the CRC-16 fails.
pub fn decode_body_bits(bits: &[bool], payload_len: usize) -> (res: Option<Vec<u8>>)
    requires
        payload_len <= MAX_PAYLOAD,
    ensures
        res matches Some(p) ==> decode_body_spec(bits@, payload_len as int) == Some(p@),
        res is None ==> decode_body_spec(bits@, payload_len as int) is None,
{
    proof {
        assert(block_count(payload_len as int + 2) <= 2) by (nonlinear_arith)
            requires
                payload_len <= 255,
        ;
    }
    let n = payload_len + 2;
    let encoded = bits_to_bytes(bits, encoded_len(n));
    let decoded = match decode_blocks(encoded.as_slice(), n) {
        Ok((decoded, _)) => decoded,
        Err(_) => {
            return None;
        },
    };
    let payload = copy_range(decoded.as_slice(), 0, payload_len);
    let check = crc16(payload.as_slice());
    if decoded[payload_len] != (check & 0xff) as u8 || decoded[payload_len + 1] != (check
        >> 8u16) as u8 {
        proof {
            assert(decoded@.subrange(payload_len as int, n as int) != le16(crc16_spec(payload@)));
        }
        return None;
    }
    proof {
        assert(decoded@.subrange(payload_len as int, n as int) =~= le16(crc16_spec(payload@)));
    }
    Some(payload)
}

/// Active carrier `active_index` is a pilot.
pub fn is_pilot(active_index: usize) -> (res: bool)
    ensures
        res == (active_index % PILOT_STRIDE == 0),
{
    active_index % PILOT_STRIDE == 0
}

/// The FFT bins of the active carriers of `profile`, lowest first.
pub fn active_bins(profile: OfdmProfile) -> (res: Vec<usize>)
    requires
        profile.wf(),
    ensures
        res@.len() == ACTIVE_CARRIERS,
        forall|i: int| 0 <= i < ACTIVE_CARRIERS ==> #[trigger] res@[i] == profile.spec_first_active_bin() + i,
{
    let first = profile.first_active_bin();
    let mut bins: Vec<usize> = Vec::new();
    let mut i: usize = 0;
    while i < ACTIVE_CARRIERS
        invariant
            first == profile.spec_first_active_bin(),
            first <= 132,
            i <= ACTIVE_CARRIERS,
            bins@.len() == i,
            forall|j: int| 0 <= j < i ==> #[trigger] bins@[j] == first + j,
        decreases ACTIVE_CARRIERS - i,
    {
        bins.push(first + i);
        i = i + 1;
    }
    bins
}

/// Header bit that header symbol `symbol` puts on data carrier `carrier`:
/// each cell sits on four carriers, and the header bits run through the
/// cells twice over the eight symbols.
pub fn header_bit_index(symbol: usize, carrier: usize) -> (res: usize)
    requires
        symbol < HEADER_SYMBOLS,
    ensures
        res == (symbol * HEADER_CELLS + carrier % HEADER_CELLS) % (HEADER_BITS as int),
        res < HEADER_BITS,
{
    assert(HEADER_CELLS == 16 && HEADER_BITS == 64);
    (symbol * HEADER_CELLS + carrier_cell(carrier, HEADER_CELLS)) % HEADER_BITS
}

/// Index of the first body bit of cell `cell` in body symbol `symbol`: the
/// body is laid out cell by cell, each cell running through all symbols.
pub fn body_bit_base(cell: usize, symbol: usize, body_symbols: usize, bits_per_carrier: usize) -> (res: usize)
    requires
        cell < 32,
        symbol < body_symbols <= 200,
        bits_per_carrier <= 2,
    ensures
        res == (cell * body_symbols + symbol) * bits_per_carrier,
{
    proof {
        assert((cell * body_symbols + symbol) * bits_per_carrier <= 32 * 200 * 2) by (nonlinear_arith)
            requires
                cell < 32,
                symbol < body_symbols <= 200,
                bits_per_carrier <= 2,
        ;
        assert(cell * body_symbols <= 32 * 200) by (nonlinear_arith)
            requires
                cell < 32,
                body_symbols <= 200,
        ;
    }
    (cell * body_symbols + symbol) * bits_per_carrier
}

/// `bits[index]`, or `false` past the end.
pub open spec fn bit_or_zero(bits: Seq<bool>, index: int) -> bool {
    if 0 <= index < bits.len() {
        bits[index]
    } else {
        false
    }
}

/// The bits that body symbol `symbol` puts on each data carrier: the
/// carrier's cell selects its bits, a second bit only for two bits per
/// carrier, and bits past the end are zero.
pub open spec fn body_carrier_bits_spec(
    bits: Seq<bool>,
    profile: OfdmProfile,
    body_symbols: int,
    symbol: int,
) -> Seq<(bool, bool)> {
    let cells = profile.spec_cells() as int;
    let per = profile.spec_modulation().spec_bits_per_carrier() as int;
    Seq::new(
        DATA_CARRIERS as nat,
        |carrier: int|
            {
                let base = ((carrier % cells) * body_symbols + symbol) * per;
                (bit_or_zero(bits, base), per == 2 && bit_or_zero(bits, base + 1))
            },
    )
}

/// The bits that body symbol `symbol` puts on each data carrier.
pub fn body_carrier_bits(bits: &[bool], profile: OfdmProfile, body_symbols: usize, symbol: usize) -> (res: Vec<(bool, bool)>)
    requires
        symbol < body_symbols <= 200,
    ensures
        res@ == body_carrier_bits_spec(bits@, profile, body_symbols as int, symbol as int),
{
    let cells = profile.cells();
    let per = profile.modulation().bits_per_carrier();
    let mut out: Vec<(bool, bool)> = Vec::new();
    let mut carrier: usize = 0;
    while carrier < DATA_CARRIERS
        invariant
            cells == profile.spec_cells(),
            cells == 16 || cells == 32,
            per == profile.spec_modulation().spec_bits_per_carrier(),
            per == 1 || per == 2,
            symbol < body_symbols <= 200,
            carrier <= DATA_CARRIERS,
            out@ == body_carrier_bits_spec(bits@, profile, body_symbols as int, symbol as int).subrange(
                0,
                carrier as int,
            ),
        decreases DATA_CARRIERS - carrier,
    {
        let cell = carrier_cell(carrier, cells);
        let base = body_bit_base(cell, symbol, body_symbols, per);
        let b0 = if base < bits.len() {
            bits[base]
        } else {
            false
        };
        let b1 = if per == 2 && base + 1 < bits.len() {
            bits[base + 1]
        } else {
            false
        };
        out.push((b0, b1));
        carrier = carrier + 1;
        proof {
            assert(out@ =~= body_carrier_bits_spec(
                bits@,
                profile,
                body_symbols as int,
                symbol as int,
            ).subrange(0, carrier as int));
        }
    }
    proof {
        assert(out@ =~= body_carrier_bits_spec(bits@, profile, body_symbols as int, symbol as int));
    }
    out
}

/// Raw demapped body bits of one detected OFDM frame, before correction.
pub struct OfdmFrameProbe {
    pub payload_len: usize,
    pub body_bits: Vec<bool>,
}

/// OFDM links on different lanes use no common carrier.
pub proof fn lemma_ofdm_lanes_disjoint(a: OfdmProfile, b: OfdmProfile, i: int, j: int)
    requires
        a.wf(),
        b.wf(),
        a.spec_lane() != b.spec_lane(),
        0 <= i < ACTIVE_CARRIERS,
        0 <= j < ACTIVE_CARRIERS,
    ensures
        a.spec_first_active_bin() + i != b.spec_first_active_bin() + j,
{
}

/// Length of the payload that the loopback probe sends.
pub const PROBE_PAYLOAD_LEN: usize = 200;

/// The payload that the loopback probe sends and checks against: byte `i`
/// is `i * 37 + 11`, modulo 256.
pub open spec fn known_payload_spec() -> Seq<u8> {
    Seq::new(PROBE_PAYLOAD_LEN as nat, |i: int| ((i * 37 + 11) % 256) as u8)
}

/// The payload that the loopback probe sends and checks against.
pub fn known_payload() -> (res: Vec<u8>)
    ensures
        res@ == known_payload_spec(),
{
    let mut payload: Vec<u8> = Vec::new();
    let mut i: usize = 0;
    while i < PROBE_PAYLOAD_LEN
        invariant
            i <= PROBE_PAYLOAD_LEN,
            payload@ == known_payload_spec().subrange(0, i as int),
        decreases PROBE_PAYLOAD_LEN - i,
    {
        payload.push(((i * 37 + 11) % 256) as u8);
        i = i + 1;
        proof {
            assert(payload@ =~= known_payload_spec().subrange(0, i as int));
        }
    }
    proof {
        assert(payload@ =~= known_payload_spec());
    }
    payload
}

} // verus!
