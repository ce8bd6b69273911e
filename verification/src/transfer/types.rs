//! Transfer metadata, events and errors.

use vstd::prelude::*;
use crate::text::append_str;

verus! {

#[derive(Debug, Clone, Copy, PartialEq, Eq, Structural)]
pub enum Compression {
    Raw,
    Zstd,
}

/// Wire byte of a compression scheme.
pub open spec fn compression_byte(c: Compression) -> u8 {
    match c {
        Compression::Raw => 0,
        Compression::Zstd => 1,
    }
}

/// Compression scheme of a wire byte, if the byte names one.
pub open spec fn compression_of_byte(b: u8) -> Option<Compression> {
    if b == 0 {
        Some(Compression::Raw)
    } else if b == 1 {
        Some(Compression::Zstd)
    } else {
        None
    }
}

impl Compression {
    pub fn to_byte(self) -> (res: u8)
        ensures
            res == compression_byte(self),
    {
        match self {
            Compression::Raw => 0,
            Compression::Zstd => 1,
        }
    }

    pub fn from_byte(value: u8) -> (res: Result<Compression, TransferError>)
        ensures
            match res {
                Ok(c) => compression_of_byte(value) == Some(c),
                Err(e) => compression_of_byte(value) is None && malformed(e, "unknown compression"@),
            },
    {
        match value {
            0 => Ok(Compression::Raw),
            1 => Ok(Compression::Zstd),
            _ => Err(TransferError::Malformed("unknown compression")),
        }
    }
}

/// Mathematical model of [`TransferMetadata`].
pub struct MetadataModel {
    pub id: u64,
    pub name: Seq<char>,
    pub content_type: Seq<char>,
    pub original_size: u64,
    pub encoded_size: u64,
    pub sha256: Seq<u8>,
    pub compression: Compression,
    pub group_count: u32,
}

#[derive(Debug)]
pub struct TransferMetadata {
    pub id: u64,
    pub name: String,
    pub content_type: String,
    pub original_size: u64,
    pub encoded_size: u64,
    pub sha256: [u8; 32],
    pub compression: Compression,
    pub group_count: u32,
}

impl View for TransferMetadata {
    type V = MetadataModel;

    open spec fn view(&self) -> MetadataModel {
        MetadataModel {
            id: self.id,
            name: self.name@,
            content_type: self.content_type@,
            original_size: self.original_size,
            encoded_size: self.encoded_size,
            sha256: self.sha256@,
            compression: self.compression,
            group_count: self.group_count,
        }
    }
}

/// A copy of `m` with the same model.
pub fn clone_metadata(m: &TransferMetadata) -> (res: TransferMetadata)
    ensures
        res@ == m@,
{
    TransferMetadata {
        id: m.id,
        name: m.name.clone(),
        content_type: m.content_type.clone(),
        original_size: m.original_size,
        encoded_size: m.encoded_size,
        sha256: m.sha256,
        compression: m.compression,
        group_count: m.group_count,
    }
}

/// Whether two metadata records are equal field by field.
pub fn metadata_equal(a: &TransferMetadata, b: &TransferMetadata) -> (res: bool)
    ensures
        res == (a@ == b@),
{
    let mut same_digest = true;
    let mut i: usize = 0;
    while i < 32
        invariant
            0 <= i <= 32,
            same_digest == forall|j: int| 0 <= j < i ==> a.sha256@[j] == b.sha256@[j],
        decreases 32 - i,
    {
        if a.sha256[i] != b.sha256[i] {
            same_digest = false;
        }
        i = i + 1;
    }
    proof {
        if same_digest {
            assert(a.sha256@ =~= b.sha256@);
        }
    }
    a.id == b.id && a.name == b.name && a.content_type == b.content_type && a.original_size
        == b.original_size && a.encoded_size == b.encoded_size && same_digest && a.compression
        == b.compression && a.group_count == b.group_count
}

/// A transfer split into link packets.
#[derive(Debug)]
pub struct TransferPlan {
    pub metadata: TransferMetadata,
    pub packets: Vec<Vec<u8>>,
}

/// What a receiver reports while it assembles transfers.
#[derive(Debug)]
pub enum TransferEvent {
    Started(TransferMetadata),
    Progress { id: u64, completed_groups: u32, total_groups: u32 },
    Completed { metadata: TransferMetadata, data: Vec<u8> },
    Failed { id: u64, reason: String },
}

/// Mathematical model of [`TransferEvent`].
pub enum EventModel {
    Started(MetadataModel),
    Progress { id: u64, completed_groups: u32, total_groups: u32 },
    Completed { metadata: MetadataModel, data: Seq<u8> },
    Failed { id: u64, reason: FailReason },
}

/// Why a transfer failed, as its reason text says.
pub enum FailReason {
    /// The end packet carried another digest than the manifest.
    DigestMismatch,
    /// The groups held fewer bytes than the manifest's encoded size.
    InvalidSize,
    /// The content had another size or SHA-256 than announced.
    Verification,
    /// The zstd stream could not be decompressed.
    Decompression,
    /// Any other text.
    Other,
}

/// The reason that a failure's text gives.
pub open spec fn fail_reason(text: Seq<char>) -> FailReason {
    if text == "end digest does not match manifest"@ {
        FailReason::DigestMismatch
    } else if text == "encoded size is invalid"@ {
        FailReason::InvalidSize
    } else if text == "SHA-256 verification failed"@ {
        FailReason::Verification
    } else if text.len() >= 27 && text.subrange(0, 27) == "zstd decompression failed: "@ {
        FailReason::Decompression
    } else {
        FailReason::Other
    }
}

impl View for TransferEvent {
    type V = EventModel;

    open spec fn view(&self) -> EventModel {
        match self {
            TransferEvent::Started(m) => EventModel::Started(m@),
            TransferEvent::Progress { id, completed_groups, total_groups } => EventModel::Progress {
                id: *id,
                completed_groups: *completed_groups,
                total_groups: *total_groups,
            },
            TransferEvent::Completed { metadata, data } => EventModel::Completed {
                metadata: metadata@,
                data: data@,
            },
            TransferEvent::Failed { id, reason } => EventModel::Failed {
                id: *id,
                reason: fail_reason(reason@),
            },
        }
    }
}

/// The models of a list of events.
pub open spec fn events_view(events: Seq<TransferEvent>) -> Seq<EventModel> {
    events.map_values(|e: TransferEvent| e@)
}

#[verifier::external_type_specification]
#[verifier::external_body]
pub struct ExIoError(std::io::Error);

#[derive(Debug)]
pub enum TransferError {
    TooLarge,
    MetadataTooLarge,
    Malformed(&'static str),
    Compression(std::io::Error),
    Fec,
}

/// `e` is `Malformed` with the reason `reason`.
pub open spec fn malformed(e: TransferError, reason: Seq<char>) -> bool {
    e matches TransferError::Malformed(r) && r@ == reason
}

/// The text that std's `Display` writes for `error` (`error.to_string()`).
/// Nothing is claimed of the text.
#[verifier::external_body]
pub(crate) fn io_error_text(error: &std::io::Error) -> String {
    error.to_string()
}

impl TransferError {
    /// Human-readable description of the error; a malformed packet's reason
    /// and a compression error's own text follow a colon.
    pub fn message(&self) -> (res: String)
        ensures
            match self {
                TransferError::TooLarge => res@ == "transfer is too large"@,
                TransferError::MetadataTooLarge => res@ == "file name or content type is too long"@,
                TransferError::Malformed(reason) => res@ == "malformed transfer packet: "@ + reason@,
                TransferError::Compression(_) => exists|detail: Seq<char>|
                    res@ == "compression error: "@ + detail,
                TransferError::Fec => res@ == "outer FEC operation failed"@,
            },
    {
        match self {
            TransferError::TooLarge => "transfer is too large".to_owned(),
            TransferError::MetadataTooLarge => "file name or content type is too long".to_owned(),
            TransferError::Malformed(reason) => {
                let mut text = "malformed transfer packet: ".to_owned();
                append_str(&mut text, reason);
                text
            },
            TransferError::Compression(error) => {
                let mut text = "compression error: ".to_owned();
                let detail = io_error_text(error);
                append_str(&mut text, detail.as_str());
                text
            },
            TransferError::Fec => "outer FEC operation failed".to_owned(),
        }
    }
}

} // verus!
