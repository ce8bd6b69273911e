//! Wire format of transfer packets: encoders, the parser, and the laws that
//! tie them together.

use vstd::prelude::*;
use vstd::bytes::*;
use vstd::utf8::*;
use vstd::slice::slice_subrange;
use crate::bytes::{append_bytes, copy_bytes, copy_range};
use crate::protocol::MAX_PAYLOAD;
use crate::text::{string_bytes, str_from_utf8, lemma_encode_utf8_concat};
use crate::transfer::geometry::{SHARD_SIZE, shard_geometry, geometry_spec, ceil_div, div_ceil_u64};
use crate::transfer::metadata::{safe_file_name, safe_name_spec};
use crate::transfer::types::{
    Compression, TransferError, TransferMetadata, MetadataModel, compression_byte,
    compression_of_byte, malformed,
};

verus! {

broadcast use vstd::utf8::encode_utf8_valid_utf8, vstd::utf8::encode_utf8_decode_utf8;

pub const VERSION: u8 = 1;
pub const TYPE_MANIFEST: u8 = 1;
pub const TYPE_SHARD: u8 = 2;
pub const TYPE_END: u8 = 3;
pub const TYPE_INLINE: u8 = 4;
pub const TYPE_HANDSHAKE_REQ: u8 = 5;
pub const TYPE_HANDSHAKE_ACK: u8 = 6;
pub const TYPE_END_ACK: u8 = 7;
/// Magic, version, type and id.
pub const COMMON_HEADER: usize = 14;
/// Fixed part of a manifest packet.
pub const MANIFEST_FIXED: usize = 73;
/// Fixed part of an inline packet.
pub const INLINE_FIXED: usize = 65;

/// The four magic bytes `ASND`.
pub open spec fn magic_spec() -> Seq<u8> {
    seq![0x41u8, 0x53u8, 0x4eu8, 0x44u8]
}

/// Magic, version, packet type and little-endian id.
pub open spec fn common_spec(kind: u8, id: u64) -> Seq<u8> {
    magic_spec() + seq![VERSION, kind] + spec_u64_to_le_bytes(id)
}

/// UTF-8 bytes of a string model.
pub open spec fn utf8(s: Seq<char>) -> Seq<u8> {
    encode_utf8(s)
}

/// The metadata fields shared by manifest and inline packets.
pub open spec fn sizes_spec(m: MetadataModel) -> Seq<u8> {
    seq![compression_byte(m.compression)] + spec_u64_to_le_bytes(m.original_size)
        + spec_u64_to_le_bytes(m.encoded_size) + m.sha256
}

/// Whether a manifest for `m` fits in one link payload.
pub open spec fn manifest_fits(m: MetadataModel) -> bool {
    &&& utf8(m.name).len() <= 255
    &&& utf8(m.content_type).len() <= 255
    &&& MANIFEST_FIXED + utf8(m.name).len() + utf8(m.content_type).len() <= MAX_PAYLOAD
}

/// Bytes of the manifest packet announcing `m`.
pub open spec fn manifest_spec(m: MetadataModel) -> Seq<u8> {
    let (data_shards, parity_shards) = geometry_spec(m.encoded_size);
    common_spec(TYPE_MANIFEST, m.id) + sizes_spec(m) + spec_u16_to_le_bytes(SHARD_SIZE as u16)
        + seq![data_shards as u8, parity_shards as u8] + spec_u32_to_le_bytes(m.group_count)
        + seq![utf8(m.name).len() as u8, utf8(m.content_type).len() as u8] + utf8(m.name)
        + utf8(m.content_type)
}

/// Bytes of the shard packet `index` of group `group`.
pub open spec fn shard_spec(id: u64, group: u32, index: u8, data: Seq<u8>) -> Seq<u8> {
    common_spec(TYPE_SHARD, id) + spec_u32_to_le_bytes(group) + seq![index] + data
}

/// Bytes of the end packet of a transfer.
pub open spec fn end_spec(id: u64, sha256: Seq<u8>) -> Seq<u8> {
    common_spec(TYPE_END, id) + sha256
}

/// Whether an inline packet for `m` carrying `encoded` fits in one payload.
pub open spec fn inline_fits(m: MetadataModel, encoded: Seq<u8>) -> bool {
    INLINE_FIXED + utf8(m.name).len() + utf8(m.content_type).len() + encoded.len() <= MAX_PAYLOAD
}

/// Bytes of an inline packet: the whole transfer in one packet.
pub open spec fn inline_spec(m: MetadataModel, encoded: Seq<u8>) -> Seq<u8> {
    common_spec(TYPE_INLINE, m.id) + sizes_spec(m) + seq![
        utf8(m.name).len() as u8,
        utf8(m.content_type).len() as u8,
    ] + utf8(m.name) + utf8(m.content_type) + encoded
}

/// Mathematical model of a decoded packet.
pub enum PacketModel {
    Manifest(MetadataModel),
    Shard { id: u64, group: u32, index: u8, data: Seq<u8> },
    End { id: u64, sha256: Seq<u8> },
    Inline { metadata: MetadataModel, encoded: Seq<u8> },
    HandshakeReq { id: u64 },
    HandshakeAck { id: u64 },
    EndAck { id: u64 },
}

#[derive(Debug)]
pub enum Packet {
    Manifest(TransferMetadata),
    Shard { id: u64, group: u32, index: u8, data: Vec<u8> },
    End { id: u64, sha256: [u8; 32] },
    Inline { metadata: TransferMetadata, encoded: Vec<u8> },
    HandshakeReq { id: u64 },
    HandshakeAck { id: u64 },
    EndAck { id: u64 },
}

impl View for Packet {
    type V = PacketModel;

    open spec fn view(&self) -> PacketModel {
        match self {
            Packet::Manifest(m) => PacketModel::Manifest(m@),
            Packet::Shard { id, group, index, data } => PacketModel::Shard {
                id: *id,
                group: *group,
                index: *index,
                data: data@,
            },
            Packet::End { id, sha256 } => PacketModel::End { id: *id, sha256: sha256@ },
            Packet::Inline { metadata, encoded } => PacketModel::Inline {
                metadata: metadata@,
                encoded: encoded@,
            },
            Packet::HandshakeReq { id } => PacketModel::HandshakeReq { id: *id },
            Packet::HandshakeAck { id } => PacketModel::HandshakeAck { id: *id },
            Packet::EndAck { id } => PacketModel::EndAck { id: *id },
        }
    }
}

/// Little-endian u64 at `b[at..at + 8]`.
pub open spec fn le64_at(b: Seq<u8>, at: int) -> u64 {
    spec_u64_from_le_bytes(b.subrange(at, at + 8))
}

/// Little-endian u32 at `b[at..at + 4]`.
pub open spec fn le32_at(b: Seq<u8>, at: int) -> u32 {
    spec_u32_from_le_bytes(b.subrange(at, at + 4))
}

/// Little-endian u16 at `b[at..at + 2]`.
pub open spec fn le16_at(b: Seq<u8>, at: int) -> u16 {
    spec_u16_from_le_bytes(b.subrange(at, at + 2))
}

/// Metadata carried by a manifest or inline packet `b` whose name and
/// content type start at `text_at`.
pub open spec fn metadata_at(b: Seq<u8>, c: Compression, text_at: int, group_count: u32) -> MetadataModel {
    let name_len = b[text_at - 2] as int;
    let ct_len = b[text_at - 1] as int;
    MetadataModel {
        id: le64_at(b, 6),
        name: safe_name_spec(decode_utf8(b.subrange(text_at, text_at + name_len))),
        content_type: decode_utf8(b.subrange(text_at + name_len, text_at + name_len + ct_len)),
        original_size: le64_at(b, 15),
        encoded_size: le64_at(b, 23),
        sha256: b.subrange(31, 63),
        compression: c,
        group_count,
    }
}

/// Parse of a manifest packet (type already checked).
pub open spec fn parse_manifest(b: Seq<u8>) -> Option<PacketModel> {
    if b.len() < MANIFEST_FIXED {
        None
    } else {
        match compression_of_byte(b[14]) {
            None => None,
            Some(c) => {
                let encoded_size = le64_at(b, 23);
                let data_shards = b[65];
                let parity_shards = b[66];
                let groups = le32_at(b, 67);
                let name_len = b[71] as int;
                let ct_len = b[72] as int;
                if le16_at(b, 63) != SHARD_SIZE as u16 || (data_shards as usize, parity_shards as usize)
                    != geometry_spec(encoded_size) || groups == 0 || groups as int != ceil_div(
                    encoded_size as int,
                    data_shards as int * SHARD_SIZE as int,
                ) || b.len() != MANIFEST_FIXED + name_len + ct_len || !valid_utf8(
                    b.subrange(73, 73 + name_len),
                ) || !valid_utf8(b.subrange(73 + name_len, 73 + name_len + ct_len)) {
                    None
                } else {
                    Some(PacketModel::Manifest(metadata_at(b, c, 73, groups)))
                }
            },
        }
    }
}

/// Parse of an inline packet (type already checked).
pub open spec fn parse_inline(b: Seq<u8>) -> Option<PacketModel> {
    if b.len() < INLINE_FIXED {
        None
    } else {
        match compression_of_byte(b[14]) {
            None => None,
            Some(c) => {
                let encoded_size = le64_at(b, 23);
                let name_len = b[63] as int;
                let ct_len = b[64] as int;
                let text_end = INLINE_FIXED + name_len + ct_len;
                if b.len() < text_end || !valid_utf8(b.subrange(65, 65 + name_len)) || !valid_utf8(
                    b.subrange(65 + name_len, text_end),
                ) || encoded_size > usize::MAX || b.len() != text_end + encoded_size {
                    None
                } else {
                    Some(
                        PacketModel::Inline {
                            metadata: metadata_at(b, c, 65, 0),
                            encoded: b.subrange(text_end, b.len() as int),
                        },
                    )
                }
            },
        }
    }
}

/// The packet encoded by `b`, or `None` when `b` is not a well-formed packet.
pub open spec fn parse_packet(b: Seq<u8>) -> Option<PacketModel> {
    if b.len() < COMMON_HEADER || b.subrange(0, 4) != magic_spec() || b[4] != VERSION {
        None
    } else {
        let kind = b[5];
        let id = le64_at(b, 6);
        if kind == TYPE_MANIFEST {
            parse_manifest(b)
        } else if kind == TYPE_SHARD {
            if b.len() != COMMON_HEADER + 5 + SHARD_SIZE {
                None
            } else {
                Some(
                    PacketModel::Shard {
                        id,
                        group: le32_at(b, 14),
                        index: b[18],
                        data: b.subrange(19, b.len() as int),
                    },
                )
            }
        } else if kind == TYPE_END {
            if b.len() != COMMON_HEADER + 32 {
                None
            } else {
                Some(PacketModel::End { id, sha256: b.subrange(14, 46) })
            }
        } else if kind == TYPE_INLINE {
            parse_inline(b)
        } else if kind == TYPE_HANDSHAKE_REQ {
            if b.len() != COMMON_HEADER { None } else { Some(PacketModel::HandshakeReq { id }) }
        } else if kind == TYPE_HANDSHAKE_ACK {
            if b.len() != COMMON_HEADER { None } else { Some(PacketModel::HandshakeAck { id }) }
        } else if kind == TYPE_END_ACK {
            if b.len() != COMMON_HEADER { None } else { Some(PacketModel::EndAck { id }) }
        } else {
            None
        }
    }
}

/// Why the texts of length `name_len` and `ct_len` at `at` cannot be read,
/// or `None` when both are there and valid UTF-8.
pub open spec fn texts_error(b: Seq<u8>, at: int, name_len: int, ct_len: int) -> Option<Seq<char>> {
    if b.len() < at + name_len {
        Some("truncated packet"@)
    } else if !valid_utf8(b.subrange(at, at + name_len)) {
        Some("file name is not UTF-8"@)
    } else if b.len() < at + name_len + ct_len {
        Some("truncated packet"@)
    } else if !valid_utf8(b.subrange(at + name_len, at + name_len + ct_len)) {
        Some("content type is not UTF-8"@)
    } else {
        None
    }
}

/// Why a packet whose reading ends at `end` is refused.
pub open spec fn length_error(b: Seq<u8>, end: int) -> Seq<char> {
    if b.len() < end {
        "truncated packet"@
    } else {
        "trailing bytes"@
    }
}

/// Why a manifest packet (type already checked) is refused.
pub open spec fn manifest_error(b: Seq<u8>) -> Seq<char> {
    if b.len() < 15 {
        "truncated packet"@
    } else if compression_of_byte(b[14]) is None {
        "unknown compression"@
    } else if b.len() < 67 {
        "truncated packet"@
    } else if le16_at(b, 63) != SHARD_SIZE as u16 || (b[65] as usize, b[66] as usize) != geometry_spec(
        le64_at(b, 23),
    ) {
        "unsupported shard geometry"@
    } else if b.len() < 71 {
        "truncated packet"@
    } else if le32_at(b, 67) == 0 || le32_at(b, 67) as int != ceil_div(
        le64_at(b, 23) as int,
        b[65] as int * SHARD_SIZE as int,
    ) {
        "invalid group count"@
    } else if b.len() < MANIFEST_FIXED {
        "truncated packet"@
    } else {
        match texts_error(b, 73, b[71] as int, b[72] as int) {
            Some(reason) => reason,
            None => length_error(b, 73 + b[71] as int + b[72] as int),
        }
    }
}

/// Why an inline packet (type already checked) is refused.
pub open spec fn inline_error(b: Seq<u8>) -> Seq<char> {
    if b.len() < 15 {
        "truncated packet"@
    } else if compression_of_byte(b[14]) is None {
        "unknown compression"@
    } else if b.len() < INLINE_FIXED {
        "truncated packet"@
    } else {
        let text_end = 65 + b[63] as int + b[64] as int;
        match texts_error(b, 65, b[63] as int, b[64] as int) {
            Some(reason) => reason,
            None => if le64_at(b, 23) > usize::MAX {
                "encoded size overflow"@
            } else if text_end + le64_at(b, 23) > usize::MAX {
                "length overflow"@
            } else {
                length_error(b, text_end + le64_at(b, 23))
            },
        }
    }
}

/// Why `b` is refused as a packet, checked in the order of its fields: the
/// first field that is missing or wrong names the reason.
pub open spec fn packet_error(b: Seq<u8>) -> Seq<char> {
    if b.len() < 4 {
        "truncated packet"@
    } else if b.subrange(0, 4) != magic_spec() {
        "bad magic"@
    } else if b.len() < 5 {
        "truncated packet"@
    } else if b[4] != VERSION {
        "unsupported version"@
    } else if b.len() < COMMON_HEADER {
        "truncated packet"@
    } else {
        let kind = b[5];
        if kind == TYPE_MANIFEST {
            manifest_error(b)
        } else if kind == TYPE_SHARD {
            length_error(b, COMMON_HEADER + 5 + SHARD_SIZE)
        } else if kind == TYPE_END {
            length_error(b, COMMON_HEADER + 32)
        } else if kind == TYPE_INLINE {
            inline_error(b)
        } else if kind == TYPE_HANDSHAKE_REQ || kind == TYPE_HANDSHAKE_ACK || kind == TYPE_END_ACK {
            length_error(b, COMMON_HEADER as int)
        } else {
            "unknown packet type"@
        }
    }
}

fn encode_common(kind: u8, id: u64, output: &mut Vec<u8>)
    ensures
        final(output)@ == old(output)@ + common_spec(kind, id),
{
    let magic: [u8; 4] = [0x41, 0x53, 0x4e, 0x44];
    assert(magic@ =~= magic_spec());
    append_bytes(output, &magic);
    output.push(VERSION);
    output.push(kind);
    let le = u64_to_le_bytes(id);
    append_bytes(output, le.as_slice());
    proof {
        assert(final(output)@ =~= old(output)@ + common_spec(kind, id));
    }
}

fn encode_sizes(metadata: &TransferMetadata, output: &mut Vec<u8>)
    ensures
        final(output)@ == old(output)@ + sizes_spec(metadata@),
{
    output.push(metadata.compression.to_byte());
    let a = u64_to_le_bytes(metadata.original_size);
    append_bytes(output, a.as_slice());
    let b = u64_to_le_bytes(metadata.encoded_size);
    append_bytes(output, b.as_slice());
    append_bytes(output, &metadata.sha256);
    proof {
        assert(final(output)@ =~= old(output)@ + sizes_spec(metadata@));
    }
}

/// The manifest packet announcing `metadata`; `MetadataTooLarge` exactly when
/// the name or content type do not fit.
pub fn encode_manifest(metadata: &TransferMetadata) -> (res: Result<Vec<u8>, TransferError>)
    ensures
        match res {
            Ok(bytes) => manifest_fits(metadata@) && bytes@ == manifest_spec(metadata@),
            Err(e) => !manifest_fits(metadata@) && e is MetadataTooLarge,
        },
{
    let name = string_bytes(&metadata.name);
    let content_type = string_bytes(&metadata.content_type);
    if name.len() > 255 || content_type.len() > 255 || MANIFEST_FIXED + name.len()
        + content_type.len() > MAX_PAYLOAD {
        return Err(TransferError::MetadataTooLarge);
    }
    let mut output: Vec<u8> = Vec::new();
    encode_common(TYPE_MANIFEST, metadata.id, &mut output);
    encode_sizes(metadata, &mut output);
    let ss = u16_to_le_bytes(SHARD_SIZE as u16);
    append_bytes(&mut output, ss.as_slice());
    let (data_shards, parity_shards) = shard_geometry(metadata.encoded_size);
    output.push(data_shards as u8);
    output.push(parity_shards as u8);
    let gc = u32_to_le_bytes(metadata.group_count);
    append_bytes(&mut output, gc.as_slice());
    output.push(name.len() as u8);
    output.push(content_type.len() as u8);
    append_bytes(&mut output, name);
    append_bytes(&mut output, content_type);
    proof {
        assert(output@ =~= manifest_spec(metadata@));
    }
    Ok(output)
}

/// Shard packet `index` of group `group`.
pub fn encode_shard(id: u64, group: u32, index: u8, data: &[u8]) -> (res: Vec<u8>)
    ensures
        res@ == shard_spec(id, group, index, data@),
{
    let mut output: Vec<u8> = Vec::new();
    encode_common(TYPE_SHARD, id, &mut output);
    let g = u32_to_le_bytes(group);
    append_bytes(&mut output, g.as_slice());
    output.push(index);
    append_bytes(&mut output, data);
    proof {
        assert(output@ =~= shard_spec(id, group, index, data@));
    }
    output
}

/// End packet of the transfer described by `metadata`.
pub fn encode_end(metadata: &TransferMetadata) -> (res: Vec<u8>)
    ensures
        res@ == end_spec(metadata.id, metadata.sha256@),
{
    let mut output: Vec<u8> = Vec::new();
    encode_common(TYPE_END, metadata.id, &mut output);
    append_bytes(&mut output, &metadata.sha256);
    proof {
        assert(output@ =~= end_spec(metadata.id, metadata.sha256@));
    }
    output
}

/// Handshake request packet.
pub fn encode_handshake_req(id: u64) -> (res: Vec<u8>)
    ensures
        res@ == common_spec(TYPE_HANDSHAKE_REQ, id),
{
    let mut output: Vec<u8> = Vec::new();
    encode_common(TYPE_HANDSHAKE_REQ, id, &mut output);
    assert(output@ =~= common_spec(TYPE_HANDSHAKE_REQ, id));
    output
}

/// Handshake acknowledgement packet.
pub fn encode_handshake_ack(id: u64) -> (res: Vec<u8>)
    ensures
        res@ == common_spec(TYPE_HANDSHAKE_ACK, id),
{
    let mut output: Vec<u8> = Vec::new();
    encode_common(TYPE_HANDSHAKE_ACK, id, &mut output);
    assert(output@ =~= common_spec(TYPE_HANDSHAKE_ACK, id));
    output
}

/// End acknowledgement packet.
pub fn encode_end_ack(id: u64) -> (res: Vec<u8>)
    ensures
        res@ == common_spec(TYPE_END_ACK, id),
{
    let mut output: Vec<u8> = Vec::new();
    encode_common(TYPE_END_ACK, id, &mut output);
    assert(output@ =~= common_spec(TYPE_END_ACK, id));
    output
}

/// Inline packet carrying the whole encoded transfer; `MetadataTooLarge`
/// exactly when it does not fit in one payload.
pub fn encode_inline(metadata: &TransferMetadata, encoded: &[u8]) -> (res: Result<Vec<u8>, TransferError>)
    ensures
        match res {
            Ok(bytes) => inline_fits(metadata@, encoded@) && bytes@ == inline_spec(metadata@, encoded@),
            Err(e) => !inline_fits(metadata@, encoded@) && e is MetadataTooLarge,
        },
{
    let name = string_bytes(&metadata.name);
    let content_type = string_bytes(&metadata.content_type);
    if name.len() > MAX_PAYLOAD || content_type.len() > MAX_PAYLOAD || encoded.len() > MAX_PAYLOAD
        || INLINE_FIXED + name.len() + content_type.len() + encoded.len() > MAX_PAYLOAD {
        return Err(TransferError::MetadataTooLarge);
    }
    let mut output: Vec<u8> = Vec::new();
    encode_common(TYPE_INLINE, metadata.id, &mut output);
    encode_sizes(metadata, &mut output);
    output.push(name.len() as u8);
    output.push(content_type.len() as u8);
    append_bytes(&mut output, name);
    append_bytes(&mut output, content_type);
    append_bytes(&mut output, encoded);
    proof {
        assert(output@ =~= inline_spec(metadata@, encoded@));
    }
    Ok(output)
}


/// A read position in a packet.
pub struct SliceCursor<'a> {
    pub data: &'a [u8],
    pub offset: usize,
}

/// Why reading `length` bytes at `offset` fails: the end does not fit in a
/// `usize`, or the packet ends before it.
pub open spec fn read_error(offset: int, length: int) -> Seq<char> {
    if offset + length > usize::MAX {
        "length overflow"@
    } else {
        "truncated packet"@
    }
}

impl<'a> SliceCursor<'a> {
    pub open spec fn wf(&self) -> bool {
        self.offset <= self.data@.len()
    }

    pub fn new(data: &'a [u8]) -> (res: Self)
        ensures
            res.data@ == data@,
            res.offset == 0,
            res.wf(),
    {
        SliceCursor { data, offset: 0 }
    }

    /// The next `length` bytes; `Malformed` when fewer are left.
    pub fn take(&mut self, length: usize) -> (res: Result<&'a [u8], TransferError>)
        requires
            old(self).wf(),
        ensures
            final(self).wf(),
            final(self).data@ == old(self).data@,
            match res {
                Ok(s) => {
                    &&& old(self).offset + length <= old(self).data@.len()
                    &&& s@ == old(self).data@.subrange(
                        old(self).offset as int,
                        old(self).offset + length,
                    )
                    &&& final(self).offset == old(self).offset + length
                },
                Err(e) => {
                    &&& old(self).offset + length > old(self).data@.len()
                    &&& final(self).offset == old(self).offset
                    &&& malformed(e, read_error(old(self).offset as int, length as int))
                },
            },
    {
        let n = self.data.len();
        if length > usize::MAX - self.offset {
            return Err(TransferError::Malformed("length overflow"));
        }
        if length > self.data.len() - self.offset {
            return Err(TransferError::Malformed("truncated packet"));
        }
        let end = self.offset + length;
        let result = slice_subrange(self.data, self.offset, end);
        self.offset = end;
        Ok(result)
    }

    pub fn u8(&mut self) -> (res: Result<u8, TransferError>)
        requires
            old(self).wf(),
        ensures
            final(self).wf(),
            final(self).data@ == old(self).data@,
            match res {
                Ok(v) => {
                    &&& old(self).offset + 1 <= old(self).data@.len()
                    &&& v == old(self).data@[old(self).offset as int]
                    &&& final(self).offset == old(self).offset + 1
                },
                Err(e) => old(self).offset + 1 > old(self).data@.len() && malformed(
                    e,
                    read_error(old(self).offset as int, 1),
                ),
            },
    {
        let s = self.take(1)?;
        Ok(s[0])
    }

    pub fn u16(&mut self) -> (res: Result<u16, TransferError>)
        requires
            old(self).wf(),
        ensures
            final(self).wf(),
            final(self).data@ == old(self).data@,
            match res {
                Ok(v) => {
                    &&& old(self).offset + 2 <= old(self).data@.len()
                    &&& v == le16_at(old(self).data@, old(self).offset as int)
                    &&& final(self).offset == old(self).offset + 2
                },
                Err(e) => old(self).offset + 2 > old(self).data@.len() && malformed(
                    e,
                    read_error(old(self).offset as int, 2),
                ),
            },
    {
        let s = self.take(2)?;
        Ok(u16_from_le_bytes(s))
    }

    pub fn u32(&mut self) -> (res: Result<u32, TransferError>)
        requires
            old(self).wf(),
        ensures
            final(self).wf(),
            final(self).data@ == old(self).data@,
            match res {
                Ok(v) => {
                    &&& old(self).offset + 4 <= old(self).data@.len()
                    &&& v == le32_at(old(self).data@, old(self).offset as int)
                    &&& final(self).offset == old(self).offset + 4
                },
                Err(e) => old(self).offset + 4 > old(self).data@.len() && malformed(
                    e,
                    read_error(old(self).offset as int, 4),
                ),
            },
    {
        let s = self.take(4)?;
        Ok(u32_from_le_bytes(s))
    }

    pub fn u64(&mut self) -> (res: Result<u64, TransferError>)
        requires
            old(self).wf(),
        ensures
            final(self).wf(),
            final(self).data@ == old(self).data@,
            match res {
                Ok(v) => {
                    &&& old(self).offset + 8 <= old(self).data@.len()
                    &&& v == le64_at(old(self).data@, old(self).offset as int)
                    &&& final(self).offset == old(self).offset + 8
                },
                Err(e) => old(self).offset + 8 > old(self).data@.len() && malformed(
                    e,
                    read_error(old(self).offset as int, 8),
                ),
            },
    {
        let s = self.take(8)?;
        Ok(u64_from_le_bytes(s))
    }

    /// `Malformed` unless every byte has been read.
    pub fn finish(&self) -> (res: Result<(), TransferError>)
        ensures
            match res {
                Ok(_) => self.offset == self.data@.len(),
                Err(e) => self.offset != self.data@.len() && malformed(e, "trailing bytes"@),
            },
    {
        if self.offset == self.data.len() {
            Ok(())
        } else {
            Err(TransferError::Malformed("trailing bytes"))
        }
    }
}

fn array32(s: &[u8]) -> (res: [u8; 32])
    requires
        s@.len() == 32,
    ensures
        res@ == s@,
{
    let mut out: [u8; 32] = [0u8; 32];
    let mut i: usize = 0;
    while i < 32
        invariant
            0 <= i <= 32,
            s@.len() == 32,
            forall|j: int| 0 <= j < i ==> out@[j] == s@[j],
        decreases 32 - i,
    {
        out[i] = s[i];
        i = i + 1;
    }
    assert(out@ =~= s@);
    out
}

/// Parses name and content type that follow the two length bytes.
fn read_texts(cursor: &mut SliceCursor, name_len: usize, ct_len: usize) -> (res: Result<(String, String), TransferError>)
    requires
        old(cursor).wf(),
        old(cursor).offset + name_len + ct_len <= usize::MAX,
    ensures
        final(cursor).wf(),
        final(cursor).data@ == old(cursor).data@,
        ({
            let b = old(cursor).data@;
            let at = old(cursor).offset as int;
            match res {
                Ok((name, ct)) => {
                    &&& at + name_len + ct_len <= b.len()
                    &&& valid_utf8(b.subrange(at, at + name_len))
                    &&& valid_utf8(b.subrange(at + name_len, at + name_len + ct_len))
                    &&& name@ == safe_name_spec(decode_utf8(b.subrange(at, at + name_len)))
                    &&& ct@ == decode_utf8(b.subrange(at + name_len, at + name_len + ct_len))
                    &&& final(cursor).offset == at + name_len + ct_len
                },
                Err(e) => {
                    &&& texts_error(b, at, name_len as int, ct_len as int) is Some
                    &&& malformed(e, texts_error(b, at, name_len as int, ct_len as int)->Some_0)
                },
            }
        }),
{
    let name_bytes = cursor.take(name_len)?;
    let name = match str_from_utf8(name_bytes) {
        Some(n) => n,
        None => {
            return Err(TransferError::Malformed("file name is not UTF-8"));
        },
    };
    let ct_bytes = cursor.take(ct_len)?;
    let content_type = match str_from_utf8(ct_bytes) {
        Some(c) => c,
        None => {
            return Err(TransferError::Malformed("content type is not UTF-8"));
        },
    };
    Ok((safe_file_name(name), content_type.to_owned()))
}

/// The packet held by `data`; `Malformed` exactly when `data` is not a
/// well-formed packet, with the reason that `packet_error` gives: the first
/// field that is missing or wrong.
pub fn decode_packet(data: &[u8]) -> (res: Result<Packet, TransferError>)
    ensures
        match res {
            Ok(p) => parse_packet(data@) == Some(p@),
            Err(e) => parse_packet(data@) is None && malformed(e, packet_error(data@)),
        },
{
    let b = Ghost(data@);
    let mut cursor = SliceCursor::new(data);
    let magic = cursor.take(4)?;
    let expected: [u8; 4] = [0x41, 0x53, 0x4e, 0x44];
    assert(expected@ =~= magic_spec());
    if !crate::bytes::bytes_equal(magic, &expected) {
        return Err(TransferError::Malformed("bad magic"));
    }
    if cursor.u8()? != VERSION {
        return Err(TransferError::Malformed("unsupported version"));
    }
    let kind = cursor.u8()?;
    let id = cursor.u64()?;
    assert(cursor.offset == 14);
    if kind == TYPE_MANIFEST {
        let compression = Compression::from_byte(cursor.u8()?)?;
        let original_size = cursor.u64()?;
        let encoded_size = cursor.u64()?;
        let digest = cursor.take(32)?;
        let sha256 = array32(digest);
        let shard_size = cursor.u16()?;
        let data_shards = cursor.u8()?;
        let parity_shards = cursor.u8()?;
        let (want_data, want_parity) = shard_geometry(encoded_size);
        if shard_size != SHARD_SIZE as u16 || data_shards as usize != want_data
            || parity_shards as usize != want_parity {
            return Err(TransferError::Malformed("unsupported shard geometry"));
        }
        let group_count = cursor.u32()?;
        let expected_groups = div_ceil_u64(encoded_size, data_shards as u64 * SHARD_SIZE as u64);
        if group_count == 0 || group_count as u64 != expected_groups {
            return Err(TransferError::Malformed("invalid group count"));
        }
        let name_len = cursor.u8()?;
        let ct_len = cursor.u8()?;
        assert(cursor.offset == 73);
        let (name, content_type) = read_texts(&mut cursor, name_len as usize, ct_len as usize)?;
        cursor.finish()?;
        let metadata = TransferMetadata {
            id,
            name,
            content_type,
            original_size,
            encoded_size,
            sha256,
            compression,
            group_count,
        };
        assert(metadata@ == metadata_at(b@, compression, 73, group_count));
        Ok(Packet::Manifest(metadata))
    } else if kind == TYPE_SHARD {
        let group = cursor.u32()?;
        let index = cursor.u8()?;
        let shard = cursor.take(SHARD_SIZE)?;
        let shard_data = copy_bytes(shard);
        cursor.finish()?;
        Ok(Packet::Shard { id, group, index, data: shard_data })
    } else if kind == TYPE_END {
        let digest = cursor.take(32)?;
        let sha256 = array32(digest);
        cursor.finish()?;
        Ok(Packet::End { id, sha256 })
    } else if kind == TYPE_INLINE {
        let compression = Compression::from_byte(cursor.u8()?)?;
        let original_size = cursor.u64()?;
        let encoded_size = cursor.u64()?;
        let digest = cursor.take(32)?;
        let sha256 = array32(digest);
        let name_len = cursor.u8()?;
        let ct_len = cursor.u8()?;
        assert(cursor.offset == 65);
        let (name, content_type) = read_texts(&mut cursor, name_len as usize, ct_len as usize)?;
        if encoded_size > usize::MAX as u64 {
            return Err(TransferError::Malformed("encoded size overflow"));
        }
        let encoded = cursor.take(encoded_size as usize)?;
        let encoded_data = copy_bytes(encoded);
        cursor.finish()?;
        let metadata = TransferMetadata {
            id,
            name,
            content_type,
            original_size,
            encoded_size,
            sha256,
            compression,
            group_count: 0,
        };
        assert(metadata@ == metadata_at(b@, compression, 65, 0));
        Ok(Packet::Inline { metadata, encoded: encoded_data })
    } else if kind == TYPE_HANDSHAKE_REQ {
        cursor.finish()?;
        Ok(Packet::HandshakeReq { id })
    } else if kind == TYPE_HANDSHAKE_ACK {
        cursor.finish()?;
        Ok(Packet::HandshakeAck { id })
    } else if kind == TYPE_END_ACK {
        cursor.finish()?;
        Ok(Packet::EndAck { id })
    } else {
        Err(TransferError::Malformed("unknown packet type"))
    }
}


/// `m` as a receiver sees it: the name sanitised.
pub open spec fn received_metadata(m: MetadataModel, group_count: u32) -> MetadataModel {
    MetadataModel { name: safe_name_spec(m.name), group_count, ..m }
}

/// The group count a manifest for `encoded_size` bytes must carry.
pub open spec fn valid_group_count(encoded_size: u64, group_count: u32) -> bool {
    group_count != 0 && group_count as int == ceil_div(
        encoded_size as int,
        geometry_spec(encoded_size).0 as int * SHARD_SIZE as int,
    )
}

proof fn lemma_le_bytes()
    ensures
        forall|x: u64| #![trigger spec_u64_to_le_bytes(x)]
            spec_u64_to_le_bytes(x).len() == 8 && spec_u64_from_le_bytes(spec_u64_to_le_bytes(x))
                == x,
        forall|x: u32| #![trigger spec_u32_to_le_bytes(x)]
            spec_u32_to_le_bytes(x).len() == 4 && spec_u32_from_le_bytes(spec_u32_to_le_bytes(x))
                == x,
        forall|x: u16| #![trigger spec_u16_to_le_bytes(x)]
            spec_u16_to_le_bytes(x).len() == 2 && spec_u16_from_le_bytes(spec_u16_to_le_bytes(x))
                == x,
{
    lemma_auto_spec_u64_to_from_le_bytes();
    lemma_auto_spec_u32_to_from_le_bytes();
    lemma_auto_spec_u16_to_from_le_bytes();
}

proof fn lemma_common_fields(b: Seq<u8>, kind: u8, id: u64, rest: Seq<u8>)
    requires
        b == common_spec(kind, id) + rest,
    ensures
        b.len() == COMMON_HEADER + rest.len(),
        b.subrange(0, 4) == magic_spec(),
        b[4] == VERSION,
        b[5] == kind,
        le64_at(b, 6) == id,
        b.subrange(14, b.len() as int) == rest,
{
    lemma_le_bytes();
    assert(b.subrange(0, 4) =~= magic_spec());
    assert(b.subrange(6, 14) =~= spec_u64_to_le_bytes(id));
    assert(b.subrange(14, b.len() as int) =~= rest);
}

/// Parsing the manifest packet of `m` gives back `m`, with its name
/// sanitised, whenever the manifest fits and its group count is the one its
/// size calls for.
pub proof fn lemma_manifest_roundtrip(m: MetadataModel)
    requires
        manifest_fits(m),
        m.sha256.len() == 32,
        valid_group_count(m.encoded_size, m.group_count),
    ensures
        parse_packet(manifest_spec(m)) == Some(
            PacketModel::Manifest(received_metadata(m, m.group_count)),
        ),
{
    lemma_le_bytes();
    let b = manifest_spec(m);
    let (d, p) = geometry_spec(m.encoded_size);
    let name = utf8(m.name);
    let ct = utf8(m.content_type);
    let rest = sizes_spec(m) + spec_u16_to_le_bytes(SHARD_SIZE as u16) + seq![d as u8, p as u8]
        + spec_u32_to_le_bytes(m.group_count) + seq![name.len() as u8, ct.len() as u8] + name + ct;
    assert(b =~= common_spec(TYPE_MANIFEST, m.id) + rest);
    lemma_common_fields(b, TYPE_MANIFEST, m.id, rest);
    assert(b[14] == compression_byte(m.compression));
    assert(b.subrange(15, 23) =~= spec_u64_to_le_bytes(m.original_size));
    assert(b.subrange(23, 31) =~= spec_u64_to_le_bytes(m.encoded_size));
    assert(b.subrange(31, 63) =~= m.sha256);
    assert(b.subrange(63, 65) =~= spec_u16_to_le_bytes(SHARD_SIZE as u16));
    assert(b[65] == d as u8);
    assert(b[66] == p as u8);
    assert(b.subrange(67, 71) =~= spec_u32_to_le_bytes(m.group_count));
    assert(b[71] == name.len() as u8);
    assert(b[72] == ct.len() as u8);
    let nl = name.len() as int;
    let cl = ct.len() as int;
    assert(b.subrange(73, 73 + nl) =~= name);
    assert(b.subrange(73 + nl, 73 + nl + cl) =~= ct);
    assert(compression_of_byte(compression_byte(m.compression)) == Some(m.compression));
    assert(metadata_at(b, m.compression, 73, m.group_count) == received_metadata(m, m.group_count));
}

/// Parsing a shard packet gives back its fields.
pub proof fn lemma_shard_roundtrip(id: u64, group: u32, index: u8, data: Seq<u8>)
    requires
        data.len() == SHARD_SIZE,
    ensures
        parse_packet(shard_spec(id, group, index, data)) == Some(
            PacketModel::Shard { id, group, index, data },
        ),
{
    lemma_le_bytes();
    let b = shard_spec(id, group, index, data);
    let rest = spec_u32_to_le_bytes(group) + seq![index] + data;
    assert(b =~= common_spec(TYPE_SHARD, id) + rest);
    lemma_common_fields(b, TYPE_SHARD, id, rest);
    assert(b.subrange(14, 18) =~= spec_u32_to_le_bytes(group));
    assert(b[18] == index);
    assert(b.subrange(19, b.len() as int) =~= data);
}

/// Parsing an end packet gives back its fields.
pub proof fn lemma_end_roundtrip(id: u64, sha256: Seq<u8>)
    requires
        sha256.len() == 32,
    ensures
        parse_packet(end_spec(id, sha256)) == Some(PacketModel::End { id, sha256 }),
{
    let b = end_spec(id, sha256);
    lemma_common_fields(b, TYPE_END, id, sha256);
}

/// Parsing an inline packet gives back the metadata (name sanitised, no
/// groups) and the encoded bytes, whenever it fits and declares their size.
pub proof fn lemma_inline_roundtrip(m: MetadataModel, encoded: Seq<u8>)
    requires
        inline_fits(m, encoded),
        m.encoded_size == encoded.len(),
        m.sha256.len() == 32,
    ensures
        parse_packet(inline_spec(m, encoded)) == Some(
            PacketModel::Inline { metadata: received_metadata(m, 0), encoded },
        ),
{
    lemma_le_bytes();
    let b = inline_spec(m, encoded);
    let name = utf8(m.name);
    let ct = utf8(m.content_type);
    let rest = sizes_spec(m) + seq![name.len() as u8, ct.len() as u8] + name + ct + encoded;
    assert(b =~= common_spec(TYPE_INLINE, m.id) + rest);
    lemma_common_fields(b, TYPE_INLINE, m.id, rest);
    assert(b[14] == compression_byte(m.compression));
    assert(b.subrange(15, 23) =~= spec_u64_to_le_bytes(m.original_size));
    assert(b.subrange(23, 31) =~= spec_u64_to_le_bytes(m.encoded_size));
    assert(b.subrange(31, 63) =~= m.sha256);
    assert(b[63] == name.len() as u8);
    assert(b[64] == ct.len() as u8);
    let nl = name.len() as int;
    let cl = ct.len() as int;
    assert(b.subrange(65, 65 + nl) =~= name);
    assert(b.subrange(65 + nl, 65 + nl + cl) =~= ct);
    assert(b.subrange(65 + nl + cl, b.len() as int) =~= encoded);
    assert(compression_of_byte(compression_byte(m.compression)) == Some(m.compression));
    assert(metadata_at(b, m.compression, 65, 0) == received_metadata(m, 0));
}

/// Parsing the three handshake packets gives back their kind and id.
pub proof fn lemma_handshake_roundtrip(id: u64)
    ensures
        parse_packet(common_spec(TYPE_HANDSHAKE_REQ, id)) == Some(PacketModel::HandshakeReq { id }),
        parse_packet(common_spec(TYPE_HANDSHAKE_ACK, id)) == Some(PacketModel::HandshakeAck { id }),
        parse_packet(common_spec(TYPE_END_ACK, id)) == Some(PacketModel::EndAck { id }),
{
    let e = Seq::<u8>::empty();
    assert(common_spec(TYPE_HANDSHAKE_REQ, id) + e =~= common_spec(TYPE_HANDSHAKE_REQ, id));
    assert(common_spec(TYPE_HANDSHAKE_ACK, id) + e =~= common_spec(TYPE_HANDSHAKE_ACK, id));
    assert(common_spec(TYPE_END_ACK, id) + e =~= common_spec(TYPE_END_ACK, id));
    lemma_common_fields(common_spec(TYPE_HANDSHAKE_REQ, id), TYPE_HANDSHAKE_REQ, id, e);
    lemma_common_fields(common_spec(TYPE_HANDSHAKE_ACK, id), TYPE_HANDSHAKE_ACK, id, e);
    lemma_common_fields(common_spec(TYPE_END_ACK, id), TYPE_END_ACK, id, e);
}

/// No strict prefix of a well-formed packet is a packet: every kind fixes
/// its whole length in its first bytes, so a cut-off packet is refused.
pub proof fn lemma_no_prefix_parses(b: Seq<u8>, k: int)
    requires
        parse_packet(b) is Some,
        0 <= k < b.len(),
    ensures
        parse_packet(b.subrange(0, k)) is None,
{
    let q = b.subrange(0, k);
    if q.len() >= COMMON_HEADER {
        assert(q.subrange(0, 4) =~= b.subrange(0, 4));
        assert(q[4] == b[4] && q[5] == b[5]);
        if b[5] == TYPE_MANIFEST && q.len() >= MANIFEST_FIXED {
            assert(q[71] == b[71] && q[72] == b[72]);
        } else if b[5] == TYPE_INLINE && q.len() >= INLINE_FIXED {
            assert(q[63] == b[63] && q[64] == b[64]);
            assert(q.subrange(23, 31) =~= b.subrange(23, 31));
        }
    }
}

/// The lengths of the packets that describe a transfer.
pub proof fn lemma_packet_lengths(m: MetadataModel, encoded: Seq<u8>)
    requires
        m.sha256.len() == 32,
    ensures
        manifest_spec(m).len() == MANIFEST_FIXED + utf8(m.name).len() + utf8(m.content_type).len(),
        inline_spec(m, encoded).len() == INLINE_FIXED + utf8(m.name).len() + utf8(
            m.content_type,
        ).len() + encoded.len(),
        end_spec(m.id, m.sha256).len() == COMMON_HEADER + 32,
{
    lemma_le_bytes();
    assert(common_spec(TYPE_MANIFEST, m.id).len() == COMMON_HEADER);
    assert(common_spec(TYPE_INLINE, m.id).len() == COMMON_HEADER);
    assert(common_spec(TYPE_END, m.id).len() == COMMON_HEADER);
}

/// The length of a shard packet.
pub proof fn lemma_shard_length(id: u64, group: u32, index: u8, data: Seq<u8>)
    ensures
        shard_spec(id, group, index, data).len() == COMMON_HEADER + 5 + data.len(),
{
    lemma_le_bytes();
    assert(common_spec(TYPE_SHARD, id).len() == COMMON_HEADER);
}

/// Kind of a transfer packet, read from its header alone.
#[derive(Debug, Clone, Copy, PartialEq, Eq, Structural)]
pub enum TransferPacketKind {
    Manifest,
    Shard,
    End,
    Inline,
    HandshakeReq,
    HandshakeAck,
    EndAck,
}

/// The kind that the header of `b` names, or `None` when `b` has no
/// transfer packet header or an unknown type.
pub open spec fn classify_spec(b: Seq<u8>) -> Option<TransferPacketKind> {
    if b.len() < COMMON_HEADER || b.subrange(0, 4) != magic_spec() || b[4] != VERSION {
        None
    } else if b[5] == TYPE_MANIFEST {
        Some(TransferPacketKind::Manifest)
    } else if b[5] == TYPE_SHARD {
        Some(TransferPacketKind::Shard)
    } else if b[5] == TYPE_END {
        Some(TransferPacketKind::End)
    } else if b[5] == TYPE_INLINE {
        Some(TransferPacketKind::Inline)
    } else if b[5] == TYPE_HANDSHAKE_REQ {
        Some(TransferPacketKind::HandshakeReq)
    } else if b[5] == TYPE_HANDSHAKE_ACK {
        Some(TransferPacketKind::HandshakeAck)
    } else if b[5] == TYPE_END_ACK {
        Some(TransferPacketKind::EndAck)
    } else {
        None
    }
}

/// The kind of a parsed packet.
pub open spec fn kind_of(p: PacketModel) -> TransferPacketKind {
    match p {
        PacketModel::Manifest(_) => TransferPacketKind::Manifest,
        PacketModel::Shard { .. } => TransferPacketKind::Shard,
        PacketModel::End { .. } => TransferPacketKind::End,
        PacketModel::Inline { .. } => TransferPacketKind::Inline,
        PacketModel::HandshakeReq { .. } => TransferPacketKind::HandshakeReq,
        PacketModel::HandshakeAck { .. } => TransferPacketKind::HandshakeAck,
        PacketModel::EndAck { .. } => TransferPacketKind::EndAck,
    }
}

/// The kind of a packet, from its header alone.
pub fn classify_packet(packet: &[u8]) -> (res: Option<TransferPacketKind>)
    ensures
        res == classify_spec(packet@),
{
    if packet.len() < COMMON_HEADER || packet[0] != 0x41 || packet[1] != 0x53 || packet[2] != 0x4e
        || packet[3] != 0x44 || packet[4] != VERSION {
        proof {
            if packet@.len() >= COMMON_HEADER && packet@.subrange(0, 4) == magic_spec() {
                assert(packet@[0] == packet@.subrange(0, 4)[0]);
                assert(packet@[1] == packet@.subrange(0, 4)[1]);
                assert(packet@[2] == packet@.subrange(0, 4)[2]);
                assert(packet@[3] == packet@.subrange(0, 4)[3]);
            }
        }
        return None;
    }
    proof {
        assert(packet@.subrange(0, 4) =~= magic_spec());
    }
    match packet[5] {
        1 => Some(TransferPacketKind::Manifest),
        2 => Some(TransferPacketKind::Shard),
        3 => Some(TransferPacketKind::End),
        4 => Some(TransferPacketKind::Inline),
        5 => Some(TransferPacketKind::HandshakeReq),
        6 => Some(TransferPacketKind::HandshakeAck),
        7 => Some(TransferPacketKind::EndAck),
        _ => None,
    }
}

/// The header names the kind of every well-formed packet.
pub proof fn lemma_classify_parsed(b: Seq<u8>)
    requires
        parse_packet(b) is Some,
    ensures
        classify_spec(b) == Some(kind_of(parse_packet(b)->0)),
{
    let kind = b[5];
    if kind == TYPE_MANIFEST {
        if parse_manifest(b) is Some {
            assert(parse_manifest(b)->0 is Manifest);
        }
    } else if kind == TYPE_INLINE {
        if parse_inline(b) is Some {
            assert(parse_inline(b)->0 is Inline);
        }
    }
}

} // verus!
