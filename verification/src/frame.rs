//! Layout of one acoustic frame: repeated sync and length bytes, then the
//! Reed-Solomon protected length byte, payload and CRC-8; and its parsing
//! back from the bytes a detector reads.

use vstd::prelude::*;
use crate::bytes::{append_bytes, append_repeated, copy_range};
use crate::protocol::{
    crc8, crc8_spec, is_majority, lemma_majority_unique, count_of, majority, AcousticProfile,
    PhyMode, LEN_REPEATS, MAX_PAYLOAD, SYNC_BYTE, SYNC_REPEATS,
};
use crate::rs::{
    blocks_correctable, block_count, corrected_data, decode_blocks, decodes_to, encode_blocks,
    encoded_len, encoded_len_spec, interleave_spec,
};

verus! {

/// The bytes that the Reed-Solomon code protects: length, payload, CRC-8 of
/// both.
pub open spec fn inner_spec(payload: Seq<u8>) -> Seq<u8> {
    let head = seq![payload.len() as u8] + payload;
    head.push(crc8_spec(head))
}

/// `count` copies of `value`.
pub open spec fn repeated(value: u8, count: nat) -> Seq<u8> {
    Seq::new(count, |_i: int| value)
}

/// The bytes of the frame that carries `payload`.
pub open spec fn frame_spec(payload: Seq<u8>) -> Seq<u8> {
    repeated(SYNC_BYTE, SYNC_REPEATS as nat) + repeated(payload.len() as u8, LEN_REPEATS as nat)
        + interleave_spec(inner_spec(payload))
}

/// What the frame parser makes of the bytes read so far.
pub enum FrameAttempt {
    /// A frame with this payload, which took this many bytes.
    Decoded(Vec<u8>, usize),
    /// The bytes end before the frame does.
    NeedMore,
    /// These bytes are no frame.
    Invalid,
}

/// The meaning of a `FrameAttempt`.
pub enum AttemptModel {
    Decoded(Seq<u8>, nat),
    NeedMore,
    Invalid,
}

impl View for FrameAttempt {
    type V = AttemptModel;

    open spec fn view(&self) -> AttemptModel {
        match self {
            FrameAttempt::Decoded(payload, consumed) => AttemptModel::Decoded(
                payload@,
                *consumed as nat,
            ),
            FrameAttempt::NeedMore => AttemptModel::NeedMore,
            FrameAttempt::Invalid => AttemptModel::Invalid,
        }
    }
}

/// The frame parser on the bytes `b` read from a candidate frame start:
/// a majority of the sync bytes must be the sync byte, a majority of the
/// length bytes gives the payload length, the protected block must decode
/// with that length byte in front, and its CRC-8 must match.
pub open spec fn parse_frame_spec(b: Seq<u8>) -> AttemptModel {
    let s = SYNC_REPEATS as int;
    let l = LEN_REPEATS as int;
    if b.len() < s {
        AttemptModel::NeedMore
    } else if !is_majority(b.subrange(0, s), SYNC_BYTE) {
        AttemptModel::Invalid
    } else if b.len() < s + l {
        AttemptModel::NeedMore
    } else if !(exists|v: u8| #[trigger] is_majority(b.subrange(s, s + l), v)) {
        AttemptModel::Invalid
    } else {
        let v = choose|v: u8| #[trigger] is_majority(b.subrange(s, s + l), v);
        let data_len = v as int + 2;
        let e = encoded_len_spec(data_len);
        if b.len() < s + l + e {
            AttemptModel::NeedMore
        } else {
            let encoded = b.subrange(s + l, s + l + e);
            if !blocks_correctable(encoded, data_len) {
                AttemptModel::Invalid
            } else {
                let inner = corrected_data(encoded, data_len, block_count(data_len));
                if inner.len() != data_len || inner[0] != v {
                    AttemptModel::Invalid
                } else if crc8_spec(inner.drop_last()) != inner.last() {
                    AttemptModel::Invalid
                } else {
                    AttemptModel::Decoded(inner.subrange(1, data_len - 1), (s + l + e) as nat)
                }
            }
        }
    }
}

proof fn lemma_count_repeated(value: u8, count: nat)
    ensures
        count_of(repeated(value, count), value) == count,
    decreases count,
{
    if count > 0 {
        assert(repeated(value, count).drop_last() =~= repeated(value, (count - 1) as nat));
        lemma_count_repeated(value, (count - 1) as nat);
    }
}

/// A well-formed frame parses back to its payload, whatever bytes follow it.
proof fn lemma_frame_parses(payload: Seq<u8>, frame: Seq<u8>, rest: Seq<u8>)
    requires
        payload.len() <= MAX_PAYLOAD,
        frame == frame_spec(payload),
        decodes_to(interleave_spec(inner_spec(payload)), inner_spec(payload)),
    ensures
        parse_frame_spec(frame + rest) == AttemptModel::Decoded(payload, frame.len()),
{
    let b = frame + rest;
    let s = SYNC_REPEATS as int;
    let l = LEN_REPEATS as int;
    let v = payload.len() as u8;
    let inner = inner_spec(payload);
    let encoded = interleave_spec(inner);
    let data_len = v as int + 2;
    assert(b.subrange(0, s) =~= repeated(SYNC_BYTE, 5));
    lemma_count_repeated(SYNC_BYTE, 5);
    assert(b.subrange(s, s + l) =~= repeated(v, 5));
    lemma_count_repeated(v, 5);
    assert(is_majority(b.subrange(s, s + l), v));
    let w = choose|w: u8| #[trigger] is_majority(b.subrange(s, s + l), w);
    lemma_majority_unique(b.subrange(s, s + l), v, w);
    assert(data_len == inner.len());
    let e = encoded_len_spec(data_len);
    assert(b.subrange(s + l, s + l + e) =~= encoded);
    let head = seq![v] + payload;
    assert(inner.drop_last() =~= head);
    assert(inner.subrange(1, data_len - 1) =~= payload);
}

/// The bytes of the frame that carries `payload` (the profile's sync and
/// length repeats, then the protected block). Parsing them back, followed by
/// any bytes at all, gives `payload` and the frame's length.
pub fn frame_bytes_with_profile(payload: &[u8], profile: AcousticProfile) -> (res: Vec<u8>)
    requires
        payload@.len() <= MAX_PAYLOAD,
    ensures
        res@ == frame_spec(payload@),
        forall|rest: Seq<u8>|
            parse_frame_spec(#[trigger] (res@ + rest)) == AttemptModel::Decoded(
                payload@,
                res@.len(),
            ),
{
    let length = payload.len() as u8;
    let mut inner: Vec<u8> = Vec::new();
    inner.push(length);
    append_bytes(&mut inner, payload);
    let check = crc8(inner.as_slice());
    inner.push(check);
    proof {
        assert(inner@ =~= inner_spec(payload@));
        assert(encoded_len_spec(inner@.len() as int) <= 400) by {
            assert(block_count(inner@.len() as int) <= 2);
        }
    }
    let encoded = encode_blocks(inner.as_slice());
    let mut bytes: Vec<u8> = Vec::new();
    append_repeated(&mut bytes, SYNC_BYTE, profile.sync_repeats());
    append_repeated(&mut bytes, length, profile.len_repeats());
    append_bytes(&mut bytes, encoded.as_slice());
    proof {
        assert(bytes@ =~= frame_spec(payload@));
        assert forall|rest: Seq<u8>|
            parse_frame_spec(#[trigger] (bytes@ + rest)) == AttemptModel::Decoded(
                payload@,
                bytes@.len(),
            ) by {
            lemma_frame_parses(payload@, bytes@, rest);
        }
    }
    bytes
}

/// The frame bytes of `payload` in the default profile.
pub fn frame_bytes(payload: &[u8]) -> (res: Vec<u8>)
    requires
        payload@.len() <= MAX_PAYLOAD,
    ensures
        res@ == frame_spec(payload@),
{
    frame_bytes_with_profile(payload, AcousticProfile::default_profile())
}

/// Parses a frame from the bytes read from a candidate frame start.
pub fn parse_frame(b: &[u8]) -> (res: FrameAttempt)
    ensures
        res@ == parse_frame_spec(b@),
{
    let s = SYNC_REPEATS;
    let l = LEN_REPEATS;
    if b.len() < s {
        return FrameAttempt::NeedMore;
    }
    let syncs = copy_range(b, 0, s);
    match majority(syncs.as_slice()) {
        Some(v) => {
            if v != SYNC_BYTE {
                proof {
                    if is_majority(b@.subrange(0, s as int), SYNC_BYTE) {
                        lemma_majority_unique(syncs@, v, SYNC_BYTE);
                    }
                }
                return FrameAttempt::Invalid;
            }
        },
        None => {
            return FrameAttempt::Invalid;
        },
    }
    if b.len() < s + l {
        return FrameAttempt::NeedMore;
    }
    let lengths = copy_range(b, s, s + l);
    let length_byte = match majority(lengths.as_slice()) {
        Some(v) => v,
        None => {
            return FrameAttempt::Invalid;
        },
    };
    let ghost chosen = choose|w: u8| #[trigger] is_majority(b@.subrange(s as int, (s + l) as int), w);
    proof {
        lemma_majority_unique(lengths@, length_byte, chosen);
    }
    let data_len = length_byte as usize + 2;
    proof {
        assert(block_count(data_len as int) <= 2);
    }
    let e = encoded_len(data_len);
    if b.len() - (s + l) < e {
        return FrameAttempt::NeedMore;
    }
    let encoded = copy_range(b, s + l, s + l + e);
    let inner = match decode_blocks(encoded.as_slice(), data_len) {
        Ok((inner, _)) => inner,
        Err(_) => {
            return FrameAttempt::Invalid;
        },
    };
    if inner.len() != data_len || inner[0] != length_byte {
        return FrameAttempt::Invalid;
    }
    let crc_index = inner.len() - 1;
    let head = copy_range(inner.as_slice(), 0, crc_index);
    proof {
        assert(head@ =~= inner@.drop_last());
    }
    if crc8(head.as_slice()) != inner[crc_index] {
        return FrameAttempt::Invalid;
    }
    let payload = copy_range(inner.as_slice(), 1, crc_index);
    FrameAttempt::Decoded(payload, s + l + e)
}

/// The tones of one frame symbol, as nibble values: the first tone, and in
/// dual-tone profiles the second, high-band tone.
#[derive(Debug, Clone, Copy, PartialEq, Eq, Structural)]
pub struct NibbleSymbol {
    pub first: u8,
    pub second: Option<u8>,
}

/// The symbols that carry `bytes`: one two-tone symbol per byte in
/// dual-tone profiles, else two single-tone symbols, high nibble first.
pub open spec fn symbols_spec(bytes: Seq<u8>, dual: bool) -> Seq<NibbleSymbol> {
    if dual {
        Seq::new(
            bytes.len(),
            |i: int| NibbleSymbol { first: bytes[i] >> 4u8, second: Some(bytes[i] & 0x0fu8) },
        )
    } else {
        Seq::new(
            2 * bytes.len(),
            |j: int|
                NibbleSymbol {
                    first: if j % 2 == 0 {
                        bytes[j / 2] >> 4u8
                    } else {
                        bytes[j / 2] & 0x0fu8
                    },
                    second: None,
                },
        )
    }
}

/// The symbols of the frame that carries `payload` in `profile`.
pub fn frame_symbols(payload: &[u8], profile: AcousticProfile) -> (res: Vec<NibbleSymbol>)
    requires
        payload@.len() <= MAX_PAYLOAD,
    ensures
        res@ == symbols_spec(frame_spec(payload@), profile.spec_is_dual_tone()),
{
    let bytes = frame_bytes_with_profile(payload, profile);
    let dual = profile.is_dual_tone();
    let mut symbols: Vec<NibbleSymbol> = Vec::new();
    let mut i: usize = 0;
    while i < bytes.len()
        invariant
            i <= bytes@.len(),
            bytes@ == frame_spec(payload@),
            dual == profile.spec_is_dual_tone(),
            symbols@ == symbols_spec(bytes@.subrange(0, i as int), dual),
        decreases bytes@.len() - i,
    {
        let byte = bytes[i];
        if dual {
            symbols.push(NibbleSymbol { first: byte >> 4u8, second: Some(byte & 0x0fu8) });
        } else {
            symbols.push(NibbleSymbol { first: byte >> 4u8, second: None });
            symbols.push(NibbleSymbol { first: byte & 0x0fu8, second: None });
        }
        i = i + 1;
        proof {
            let prefix = bytes@.subrange(0, i as int);
            assert(symbols@ =~= symbols_spec(prefix, dual));
        }
    }
    proof {
        assert(bytes@.subrange(0, bytes@.len() as int) =~= bytes@);
    }
    symbols
}

/// Samples of one transmission of a payload of `payload_len` bytes: a
/// silent symbol, the preamble, the frame's symbols, a silent symbol.
pub open spec fn sample_count_spec(payload_len: int, profile: AcousticProfile) -> int {
    let frame_len = SYNC_REPEATS + LEN_REPEATS + encoded_len_spec(payload_len + 2);
    (2 + profile.spec_preamble_symbols() + frame_len * profile.spec_frame_symbols_per_byte()) * (2
        * profile.spec_tone_samples())
}

/// Exact number of 48 kHz samples that `profile` makes of a payload of
/// `payload_len` bytes.
pub fn encoded_sample_count_with_profile(payload_len: usize, profile: AcousticProfile) -> (res: usize)
    requires
        sample_count_spec(payload_len as int, profile) <= usize::MAX,
    ensures
        res == sample_count_spec(payload_len as int, profile),
{
    let ghost pl = payload_len as int + 2;
    proof {
        let frame_len = 10 + encoded_len_spec(pl);
        let per = profile.spec_frame_symbols_per_byte() as int;
        let pre = profile.spec_preamble_symbols() as int;
        let sym = 2 * profile.spec_tone_samples() as int;
        assert(pl <= encoded_len_spec(pl));
        assert(sym >= 1 && per >= 1);
        assert((2 + pre + frame_len * per) <= (2 + pre + frame_len * per) * sym) by (nonlinear_arith)
            requires
                sym >= 1,
                frame_len >= 0,
                per >= 1,
                pre >= 0,
        ;
        assert(frame_len <= frame_len * per) by (nonlinear_arith)
            requires
                per >= 1,
                frame_len >= 0,
        ;
    }
    let protected_len = payload_len + 2;
    let frame_len = profile.sync_repeats() + profile.len_repeats() + encoded_len(protected_len);
    (2 + profile.preamble_symbols() + frame_len * profile.frame_symbols_per_byte())
        * profile.symbol_samples()
}

/// Exact number of 48 kHz samples the default profile makes of a payload of
/// `payload_len` bytes.
pub fn encoded_sample_count(payload_len: usize) -> (res: usize)
    requires
        sample_count_spec(payload_len as int, AcousticProfile::default_profile_spec()) <= usize::MAX,
    ensures
        res == sample_count_spec(payload_len as int, AcousticProfile::default_profile_spec()),
{
    encoded_sample_count_with_profile(payload_len, AcousticProfile::default_profile())
}

} // verus!
