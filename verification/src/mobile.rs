//! The events that the mobile front end receives for transfer events.

use vstd::prelude::*;
use crate::bytes::copy_bytes;
use crate::text::{chars_contain, chars_of, chars_start_with, occurs_at, string_from_utf8};
use crate::transfer::metadata::{is_chat_content_type, is_chat_spec};
use crate::transfer::types::{MetadataModel, TransferMetadata};

verus! {

/// One event for the mobile front end.
pub struct MobileReceiveEvent {
    pub kind: String,
    pub id: String,
    pub name: Option<String>,
    pub content_type: Option<String>,
    pub path: Option<String>,
    pub text: Option<String>,
    pub message: Option<String>,
    pub original_size: Option<u64>,
    pub completed_groups: Option<u32>,
    pub total_groups: Option<u32>,
}

/// The model of an optional string.
pub open spec fn opt_view(s: Option<String>) -> Option<Seq<char>> {
    match s {
        Some(v) => Some(v@),
        None => None,
    }
}

/// The lowercase hexadecimal digit of `v` (below 16).
pub open spec fn hex_digit(v: u64) -> char {
    if v < 10 {
        (('0' as u64) + v) as char
    } else {
        (('a' as u64) + v - 10) as char
    }
}

/// `id` as 16 lowercase hexadecimal digits, most significant first.
pub open spec fn hex_id_spec(id: u64) -> Seq<char> {
    Seq::new(16, |k: int| hex_digit((id >> ((60 - 4 * k) as u64)) & 0xfu64))
}

/// `id` as 16 lowercase hexadecimal digits, most significant first.
pub fn hex_id(id: u64) -> (res: String)
    ensures
        res@ == hex_id_spec(id),
{
    let mut digits: Vec<char> = Vec::new();
    let mut k: u64 = 0;
    while k < 16
        invariant
            k <= 16,
            digits@ == hex_id_spec(id).subrange(0, k as int),
        decreases 16 - k,
    {
        let shift: u64 = 60 - 4 * k;
        let v = (id >> shift) & 0xf;
        proof {
            assert(v < 16) by (bit_vector)
                requires
                    v == (id >> shift) & 0xf,
            ;
        }
        let c = if v < 10 {
            ((48 + v) as u8) as char
        } else {
            ((87 + v) as u8) as char
        };
        proof {
            assert(c == hex_digit(v));
        }
        digits.push(c);
        k = k + 1;
        proof {
            assert(digits@ =~= hex_id_spec(id).subrange(0, k as int));
        }
    }
    proof {
        assert(digits@ =~= hex_id_spec(id));
    }
    crate::text::string_from_chars(&digits)
}

/// A content type whose data is shown as text: `text/`,
/// `application/json` or `application/xml` types, and `+json` or `+xml`
/// suffixed ones.
pub open spec fn is_text_spec(ct: Seq<char>) -> bool {
    ||| ct.len() >= 5 && ct.subrange(0, 5) == "text/"@
    ||| ct.len() >= 16 && ct.subrange(0, 16) == "application/json"@
    ||| (exists|i: int| #[trigger] occurs_at(ct, "+json"@, i))
    ||| ct.len() >= 15 && ct.subrange(0, 15) == "application/xml"@
    ||| (exists|i: int| #[trigger] occurs_at(ct, "+xml"@, i))
}

/// Which content types are shown as text, whatever follows the marker:
/// every type that begins with `text/`, `application/json` or
/// `application/xml`, and every type that holds `+json` or `+xml`
/// anywhere.
pub proof fn lemma_text_types(before: Seq<char>, rest: Seq<char>)
    ensures
        is_text_spec("text/"@ + rest),
        is_text_spec("application/json"@ + rest),
        is_text_spec("application/xml"@ + rest),
        is_text_spec(before + "+json"@ + rest),
        is_text_spec(before + "+xml"@ + rest),
{
    reveal_strlit("text/");
    reveal_strlit("application/json");
    reveal_strlit("application/xml");
    reveal_strlit("+json");
    reveal_strlit("+xml");
    assert(("text/"@ + rest).subrange(0, 5) =~= "text/"@);
    assert(("application/json"@ + rest).subrange(0, 16) =~= "application/json"@);
    assert(("application/xml"@ + rest).subrange(0, 15) =~= "application/xml"@);
    let j = before + "+json"@ + rest;
    assert(j.subrange(before.len() as int, before.len() as int + 5) =~= "+json"@);
    assert(occurs_at(j, "+json"@, before.len() as int));
    let x = before + "+xml"@ + rest;
    assert(x.subrange(before.len() as int, before.len() as int + 4) =~= "+xml"@);
    assert(occurs_at(x, "+xml"@, before.len() as int));
}

/// Whether data of `content_type` is shown as text.
pub fn is_text(content_type: &str) -> (res: bool)
    ensures
        res == is_text_spec(content_type@),
{
    let ct = chars_of(content_type);
    let text = chars_of("text/");
    let json = chars_of("application/json");
    let json_suffix = chars_of("+json");
    let xml = chars_of("application/xml");
    let xml_suffix = chars_of("+xml");
    proof {
        reveal_strlit("text/");
        reveal_strlit("application/json");
        reveal_strlit("+json");
        reveal_strlit("application/xml");
        reveal_strlit("+xml");
    }
    chars_start_with(&ct, &text) || chars_start_with(&ct, &json) || chars_contain(&ct, &json_suffix)
        || chars_start_with(&ct, &xml) || chars_contain(&ct, &xml_suffix)
}

/// The event of a failed transfer.
pub fn failed_event(id: u64, reason: String) -> (res: MobileReceiveEvent)
    ensures
        res.kind@ == "failed"@,
        res.id@ == hex_id_spec(id),
        opt_view(res.message) == Some(reason@),
        res.name is None && res.content_type is None && res.path is None && res.text is None,
        res.original_size is None && res.completed_groups is None && res.total_groups is None,
{
    MobileReceiveEvent {
        kind: "failed".to_owned(),
        id: hex_id(id),
        name: None,
        content_type: None,
        path: None,
        text: None,
        message: Some(reason),
        original_size: None,
        completed_groups: None,
        total_groups: None,
    }
}

/// The event of a started transfer.
pub fn started_event(metadata: TransferMetadata) -> (res: MobileReceiveEvent)
    ensures
        res.kind@ == "started"@,
        res.id@ == hex_id_spec(metadata.id),
        opt_view(res.name) == Some(metadata.name@),
        opt_view(res.content_type) == Some(metadata.content_type@),
        res.path is None && res.text is None && res.message is None,
        res.original_size == Some(metadata.original_size),
        res.completed_groups == Some(0u32),
        res.total_groups == Some(metadata.group_count),
{
    MobileReceiveEvent {
        kind: "started".to_owned(),
        id: hex_id(metadata.id),
        name: Some(metadata.name),
        content_type: Some(metadata.content_type),
        path: None,
        text: None,
        message: None,
        original_size: Some(metadata.original_size),
        completed_groups: Some(0),
        total_groups: Some(metadata.group_count),
    }
}

/// The event of a finished group.
pub fn progress_event(id: u64, completed_groups: u32, total_groups: u32) -> (res: MobileReceiveEvent)
    ensures
        res.kind@ == "progress"@,
        res.id@ == hex_id_spec(id),
        res.name is None && res.content_type is None && res.path is None && res.text is None,
        res.message is None && res.original_size is None,
        res.completed_groups == Some(completed_groups),
        res.total_groups == Some(total_groups),
{
    MobileReceiveEvent {
        kind: "progress".to_owned(),
        id: hex_id(id),
        name: None,
        content_type: None,
        path: None,
        text: None,
        message: None,
        original_size: None,
        completed_groups: Some(completed_groups),
        total_groups: Some(total_groups),
    }
}

/// A completed transfer is kept as a file unless it is a chat message.
pub fn needs_saving(metadata: &TransferMetadata) -> (res: bool)
    ensures
        res == !is_chat_spec(metadata.content_type@),
{
    !is_chat_content_type(metadata.content_type.as_str())
}

/// The event of a completed transfer, saved at `path` when it was saved:
/// the data as text when its type is textual and it is valid UTF-8.
pub fn completed_event(metadata: TransferMetadata, data: &[u8], path: Option<String>) -> (res: MobileReceiveEvent)
    ensures
        res.kind@ == "completed"@,
        res.id@ == hex_id_spec(metadata.id),
        opt_view(res.name) == Some(metadata.name@),
        opt_view(res.content_type) == Some(metadata.content_type@),
        opt_view(res.path) == opt_view(path),
        opt_view(res.text) == if is_text_spec(metadata.content_type@) && vstd::utf8::valid_utf8(
            data@,
        ) {
            Some(vstd::utf8::decode_utf8(data@))
        } else {
            None
        },
        opt_view(res.message) == Some("SHA-256 verified"@),
        res.original_size == Some(metadata.original_size),
        res.completed_groups == Some(metadata.group_count),
        res.total_groups == Some(metadata.group_count),
{
    let text = if is_text(metadata.content_type.as_str()) {
        string_from_utf8(data)
    } else {
        None
    };
    MobileReceiveEvent {
        kind: "completed".to_owned(),
        id: hex_id(metadata.id),
        name: Some(metadata.name),
        content_type: Some(metadata.content_type),
        path,
        text,
        message: Some("SHA-256 verified".to_owned()),
        original_size: Some(metadata.original_size),
        completed_groups: Some(metadata.group_count),
        total_groups: Some(metadata.group_count),
    }
}

} // verus!
