//! Content types and safe file names of transfers.

use vstd::prelude::*;
use crate::text::{
    chars_of, string_from_chars, char_utf8_len, char_width, is_control, is_control_spec,
    trim_bounds, trim_spec, eq_ignore_ascii_case, eq_ignore_ascii_case_spec, utf8_len,
    lemma_encode_utf8_concat,
};
use crate::transfer::digest::{sha256, sha256_spec};

verus! {

/// The characters of `s` before its first `';'` (all of `s` without one).
pub open spec fn before_semicolon(s: Seq<char>) -> Seq<char>
    decreases s.len(),
{
    if s.len() == 0 {
        s
    } else if s[0] == ';' {
        Seq::empty()
    } else {
        seq![s[0]] + before_semicolon(s.drop_first())
    }
}

/// Whether a content type names a chat message: its media type (before any
/// `;` parameters, trimmed) is `text/x-sonic-chat`, ignoring ASCII case.
pub open spec fn is_chat_spec(content_type: Seq<char>) -> bool {
    eq_ignore_ascii_case_spec(trim_spec(before_semicolon(content_type)), "text/x-sonic-chat"@)
}

fn semicolon_index(chars: &[char], from: usize) -> (res: usize)
    requires
        from <= chars@.len(),
    ensures
        from <= res <= chars@.len(),
        chars@.subrange(from as int, res as int) == before_semicolon(
            chars@.subrange(from as int, chars@.len() as int),
        ),
    decreases chars@.len() - from,
{
    let rest = Ghost(chars@.subrange(from as int, chars@.len() as int));
    if from == chars.len() {
        return from;
    }
    if chars[from] == ';' {
        return from;
    }
    let r = semicolon_index(chars, from + 1);
    assert(rest@.drop_first() =~= chars@.subrange(from + 1, chars@.len() as int));
    assert(chars@.subrange(from as int, r as int) =~= seq![chars@[from as int]]
        + chars@.subrange(from + 1, r as int));
    r
}

/// Whether `content_type` marks a chat message.
pub fn is_chat_content_type(content_type: &str) -> (res: bool)
    ensures
        res == is_chat_spec(content_type@),
{
    let chars = chars_of(content_type);
    let end = semicolon_index(&chars, 0);
    assert(chars@.subrange(0, chars@.len() as int) =~= chars@);
    let mut piece: Vec<char> = Vec::new();
    let mut i: usize = 0;
    while i < end
        invariant
            0 <= i <= end <= chars@.len(),
            piece@ == chars@.subrange(0, i as int),
        decreases end - i,
    {
        piece.push(chars[i]);
        i = i + 1;
        assert(piece@ =~= chars@.subrange(0, i as int));
    }
    let (start, stop) = trim_bounds(&piece);
    let mut trimmed: Vec<char> = Vec::new();
    let mut j: usize = start;
    while j < stop
        invariant
            start <= j <= stop <= piece@.len(),
            trimmed@ == piece@.subrange(start as int, j as int),
        decreases stop - j,
    {
        trimmed.push(piece[j]);
        j = j + 1;
        assert(trimmed@ =~= piece@.subrange(start as int, j as int));
    }
    let expected = chars_of("text/x-sonic-chat");
    eq_ignore_ascii_case(&trimmed, &expected)
}

/// Index of the last `'/'` of `s`, or -1.
pub open spec fn last_slash(s: Seq<char>) -> int
    decreases s.len(),
{
    if s.len() == 0 {
        -1
    } else if s.last() == '/' {
        s.len() - 1
    } else {
        last_slash(s.drop_last())
    }
}

pub proof fn lemma_last_slash(s: Seq<char>)
    ensures
        -1 <= last_slash(s) < s.len(),
        last_slash(s) >= 0 ==> s[last_slash(s)] == '/',
        forall|i: int| last_slash(s) < i < s.len() ==> s[i] != '/',
    decreases s.len(),
{
    if s.len() > 0 && s.last() != '/' {
        lemma_last_slash(s.drop_last());
        assert forall|i: int| last_slash(s) < i < s.len() implies s[i] != '/' by {
            if i < s.len() - 1 {
                assert(s.drop_last()[i] == s[i]);
            }
        }
    }
}

/// The final component of a Unix path (std's `Path::file_name`): empty and
/// `.` components are skipped, and a final `..` or no component gives `None`.
pub open spec fn file_name_spec(s: Seq<char>) -> Option<Seq<char>>
    decreases s.len(),
{
    if s.len() == 0 {
        None
    } else {
        let k = last_slash(s);
        let seg = s.subrange(k + 1, s.len() as int);
        if seg.len() == 0 || seg == seq!['.'] {
            if k < 0 {
                None
            } else {
                proof {
                    lemma_last_slash(s);
                }
                file_name_spec(s.subrange(0, k))
            }
        } else if seg == seq!['.', '.'] {
            None
        } else {
            Some(seg)
        }
    }
}

fn last_slash_before(chars: &[char], end: usize) -> (res: Option<usize>)
    requires
        end <= chars@.len(),
    ensures
        match res {
            Some(k) => k < end && last_slash(chars@.subrange(0, end as int)) == k,
            None => last_slash(chars@.subrange(0, end as int)) == -1,
        },
    decreases end,
{
    if end == 0 {
        return None;
    }
    assert(chars@.subrange(0, end as int).drop_last() =~= chars@.subrange(0, end - 1));
    if chars[end - 1] == '/' {
        Some(end - 1)
    } else {
        last_slash_before(chars, end - 1)
    }
}

/// Bounds of the final path component of `chars`.
fn file_name_bounds(chars: &[char]) -> (res: Option<(usize, usize)>)
    ensures
        match res {
            Some((a, b)) => a <= b <= chars@.len() && file_name_spec(chars@) == Some(
                chars@.subrange(a as int, b as int),
            ),
            None => file_name_spec(chars@) is None,
        },
{
    let mut end: usize = chars.len();
    assert(chars@.subrange(0, end as int) =~= chars@);
    loop
        invariant
            end <= chars@.len(),
            file_name_spec(chars@.subrange(0, end as int)) == file_name_spec(chars@),
        decreases end,
    {
        let ghost s = chars@.subrange(0, end as int);
        if end == 0 {
            return None;
        }
        let slash = last_slash_before(chars, end);
        let start: usize = match slash {
            Some(k) => k + 1,
            None => 0,
        };
        let ghost seg = s.subrange(last_slash(s) + 1, s.len() as int);
        assert(seg =~= chars@.subrange(start as int, end as int));
        let len = end - start;
        if len == 0 || (len == 1 && chars[start] == '.') {
            assert(len == 1 ==> seg =~= seq!['.']);
            match slash {
                None => {
                    return None;
                },
                Some(k) => {
                    assert(s.subrange(0, k as int) =~= chars@.subrange(0, k as int));
                    end = k;
                },
            }
        } else if len == 2 && chars[start] == '.' && chars[start + 1] == '.' {
            assert(seg =~= seq!['.', '.']);
            return None;
        } else {
            if len == 1 {
                assert(seg[0] != '.');
                assert(seg != seq!['.']);
            }
            if len == 2 {
                assert(seg[0] != '.' || seg[1] != '.');
                assert(seg != seq!['.', '.']);
            }
            return Some((start, end));
        }
    }
}

/// The character that replaces `c` in a sanitised file name.
pub open spec fn clean_char(c: char) -> char {
    if is_control_spec(c) || c == '/' || c == '\\' || c == ':' {
        '_'
    } else {
        c
    }
}

/// Every character of `s` is a dot or a space.
pub open spec fn only_dots_and_spaces(s: Seq<char>) -> bool {
    forall|i: int| 0 <= i < s.len() ==> s[i] == '.' || s[i] == ' '
}

/// Number of leading characters of `s` whose UTF-8 encoding fits in `budget`
/// bytes.
pub open spec fn fit_chars(s: Seq<char>, budget: int) -> nat
    decreases s.len(),
{
    if s.len() == 0 {
        0
    } else if char_width(s[0]) > budget {
        0
    } else {
        1 + fit_chars(s.drop_first(), budget - char_width(s[0]))
    }
}

/// The longest prefix of `s` whose UTF-8 encoding has at most `max_bytes`
/// bytes.
pub open spec fn truncate_spec(s: Seq<char>, max_bytes: int) -> Seq<char> {
    s.take(fit_chars(s, max_bytes) as int)
}

/// A character that cannot stand in a saved file name: a path separator
/// (`/`, `\\`, `:`) or a control character.
pub open spec fn is_path_char(c: char) -> bool {
    c == '/' || c == '\\' || c == ':' || is_control_spec(c)
}

/// A prefix that is cut for a byte budget keeps at least a character per
/// four bytes.
proof fn lemma_fit_chars_lower(s: Seq<char>, budget: int)
    requires
        budget >= 0,
    ensures
        fit_chars(s, budget) <= s.len(),
        fit_chars(s, budget) >= s.len() || fit_chars(s, budget) >= budget / 4,
    decreases s.len(),
{
    if s.len() > 0 && char_width(s[0]) <= budget {
        lemma_fit_chars_lower(s.drop_first(), budget - char_width(s[0]));
        assert(char_width(s[0]) <= 4);
    }
}

/// The sanitised form of a received or sent file name.
pub open spec fn safe_name_spec(name: Seq<char>) -> Seq<char> {
    let base = match file_name_spec(name) {
        Some(b) => b,
        None => "received.bin"@,
    };
    let cleaned = base.map_values(|c: char| clean_char(c));
    if only_dots_and_spaces(cleaned) {
        "received.bin"@
    } else {
        truncate_spec(cleaned, 96)
    }
}

proof fn lemma_fit_chars_bound(s: Seq<char>, budget: int)
    ensures
        fit_chars(s, budget) <= s.len(),
    decreases s.len(),
{
    if s.len() > 0 && char_width(s[0]) <= budget {
        lemma_fit_chars_bound(s.drop_first(), budget - char_width(s[0]));
    }
}

/// Number of leading characters of `chars` that fit in `max_bytes` bytes.
fn fit_count(chars: &[char], max_bytes: usize) -> (res: usize)
    ensures
        res == fit_chars(chars@, max_bytes as int),
        res <= chars@.len(),
{
    let mut i: usize = 0;
    let mut budget: usize = max_bytes;
    assert(chars@.skip(0) =~= chars@);
    while i < chars.len() && char_utf8_len(chars[i]) <= budget
        invariant
            0 <= i <= chars@.len(),
            budget <= max_bytes,
            fit_chars(chars@, max_bytes as int) == i + fit_chars(chars@.skip(i as int), budget as int),
        decreases chars@.len() - i,
    {
        let w = char_utf8_len(chars[i]);
        assert(chars@.skip(i as int).drop_first() =~= chars@.skip(i + 1));
        budget = budget - w;
        i = i + 1;
    }
    proof {
        lemma_fit_chars_bound(chars@, max_bytes as int);
    }
    i
}

/// `value` cut to at most `max_bytes` UTF-8 bytes at a character boundary.
pub fn truncate_utf8(value: &str, max_bytes: usize) -> (res: String)
    ensures
        res@ == truncate_spec(value@, max_bytes as int),
{
    let chars = chars_of(value);
    let n = fit_count(&chars, max_bytes);
    let mut kept: Vec<char> = Vec::new();
    let mut i: usize = 0;
    while i < n
        invariant
            0 <= i <= n <= chars@.len(),
            kept@ == chars@.subrange(0, i as int),
        decreases n - i,
    {
        kept.push(chars[i]);
        i = i + 1;
        assert(kept@ =~= chars@.subrange(0, i as int));
    }
    string_from_chars(&kept)
}

fn clean_char_exec(c: char) -> (res: char)
    ensures
        res == clean_char(c),
{
    if is_control(c) || c == '/' || c == '\\' || c == ':' {
        '_'
    } else {
        c
    }
}

/// A safe local file name for `name`: its final path component, with
/// control characters and path separators replaced by `_`, at most 96 UTF-8
/// bytes long, and `received.bin` when nothing usable is left.
pub fn safe_file_name(name: &str) -> (res: String)
    ensures
        res@ == safe_name_spec(name@),
{
    let chars = chars_of(name);
    let fallback = chars_of("received.bin");
    let mut base: Vec<char> = Vec::new();
    match file_name_bounds(&chars) {
        Some((a, b)) => {
            let mut i: usize = a;
            while i < b
                invariant
                    a <= i <= b <= chars@.len(),
                    base@ == chars@.subrange(a as int, i as int),
                decreases b - i,
            {
                base.push(chars[i]);
                i = i + 1;
                assert(base@ =~= chars@.subrange(a as int, i as int));
            }
        },
        None => {
            base = fallback.clone();
            assert(base@ =~= fallback@);
        },
    }
    let ghost base_model = match file_name_spec(name@) {
        Some(b) => b,
        None => "received.bin"@,
    };
    assert(base@ == base_model);
    let mut cleaned: Vec<char> = Vec::new();
    let mut all_dots = true;
    let mut i: usize = 0;
    while i < base.len()
        invariant
            0 <= i <= base@.len(),
            cleaned@ == base@.subrange(0, i as int).map_values(|c: char| clean_char(c)),
            all_dots == only_dots_and_spaces(cleaned@),
        decreases base@.len() - i,
    {
        let c = clean_char_exec(base[i]);
        let ghost before = cleaned@;
        cleaned.push(c);
        if c != '.' && c != ' ' {
            all_dots = false;
        }
        proof {
            assert(cleaned@ == before.push(c));
            if only_dots_and_spaces(cleaned@) {
                assert forall|j: int| 0 <= j < before.len() implies before[j] == '.' || before[j]
                    == ' ' by {
                    assert(cleaned@[j] == before[j]);
                }
                assert(cleaned@[before.len() as int] == c);
            }
        }
        i = i + 1;
        assert(cleaned@ =~= base@.subrange(0, i as int).map_values(|c: char| clean_char(c)));
    }
    assert(base@.subrange(0, base@.len() as int) =~= base@);
    if all_dots {
        return string_from_chars(&fallback);
    }
    let n = fit_count(&cleaned, 96);
    let mut kept: Vec<char> = Vec::new();
    let mut k: usize = 0;
    while k < n
        invariant
            0 <= k <= n <= cleaned@.len(),
            kept@ == cleaned@.subrange(0, k as int),
        decreases n - k,
    {
        kept.push(cleaned[k]);
        k = k + 1;
        assert(kept@ =~= cleaned@.subrange(0, k as int));
    }
    string_from_chars(&kept)
}

/// The MIME type that `infer` detects from the leading bytes of `data`.
pub uninterp spec fn infer_mime_spec(data: Seq<u8>) -> Option<Seq<char>>;

/// The first MIME type that `mime_guess` maps the extension of `name` to.
pub uninterp spec fn guess_mime_spec(name: Seq<char>) -> Option<Seq<char>>;

/// MIME type detected from the content (`infer::get(..).mime_type()`);
/// claimed: the result is `infer_mime_spec` of the bytes.
#[verifier::external_body]
fn infer_mime(data: &[u8]) -> (res: Option<String>)
    ensures
        res matches Some(s) ==> infer_mime_spec(data@) == Some(s@),
        res is None ==> infer_mime_spec(data@) is None,
{
    infer::get(data).map(|kind| kind.mime_type().to_owned())
}

/// MIME type guessed from the file extension
/// (`mime_guess::from_path(..).first_raw()`); claimed: the result is
/// `guess_mime_spec` of the name.
#[verifier::external_body]
fn guess_mime(name: &str) -> (res: Option<String>)
    ensures
        res matches Some(s) ==> guess_mime_spec(name@) == Some(s@),
        res is None ==> guess_mime_spec(name@) is None,
{
    mime_guess::from_path(name).first_raw().map(|value| value.to_owned())
}

/// Content type of a file: detected from its bytes, else guessed from its
/// name, else `application/octet-stream`.
pub open spec fn content_type_spec(name: Seq<char>, data: Seq<u8>) -> Seq<char> {
    match infer_mime_spec(data) {
        Some(m) => m,
        None => match guess_mime_spec(name) {
            Some(m) => m,
            None => "application/octet-stream"@,
        },
    }
}

/// Content type of a file named `name` holding `data`.
pub fn detect_content_type(name: &str, data: &[u8]) -> (res: String)
    ensures
        res@ == content_type_spec(name@, data@),
{
    match infer_mime(data) {
        Some(m) => m,
        None => match guess_mime(name) {
            Some(m) => m,
            None => "application/octet-stream".to_owned(),
        },
    }
}

/// Nanoseconds since the Unix epoch (`SystemTime::now()`), 0 when the clock
/// reads before the epoch. Nothing is claimed of the value.
#[verifier::external_body]
pub(crate) fn unix_nanos() -> u128 {
    std::time::SystemTime::now().duration_since(std::time::UNIX_EPOCH).unwrap_or_default().as_nanos()
}

/// Transfer id derived from a content digest and a clock reading: the first
/// eight bytes, little endian, of SHA-256 over the digest and the 16-byte
/// little-endian reading.
pub open spec fn transfer_id_spec(hash: Seq<u8>, nanos: u128) -> u64 {
    vstd::bytes::spec_u64_from_le_bytes(
        sha256_spec(hash + vstd::bytes::spec_u128_to_le_bytes(nanos)).subrange(0, 8),
    )
}

/// Transfer id for a clock reading taken by the caller.
pub fn transfer_id_at(hash: &[u8; 32], nanos: u128) -> (res: u64)
    ensures
        res == transfer_id_spec(hash@, nanos),
{
    let mut input: Vec<u8> = Vec::new();
    crate::bytes::append_bytes(&mut input, hash);
    let stamp = vstd::bytes::u128_to_le_bytes(nanos);
    crate::bytes::append_bytes(&mut input, stamp.as_slice());
    let digest = sha256(input.as_slice());
    let head = crate::bytes::copy_range(&digest, 0, 8);
    vstd::bytes::u64_from_le_bytes(head.as_slice())
}

/// Fresh transfer id for a content digest: the id for the current clock
/// reading, whatever that reading is.
pub fn transfer_id(hash: &[u8; 32]) -> (res: u64)
    ensures
        exists|nanos: u128| res == transfer_id_spec(hash@, nanos),
{
    let nanos = unix_nanos();
    transfer_id_at(hash, nanos)
}

/// A sanitised name is never empty, `.` or `..`, and holds no path
/// separator and no control character: saved under it, a received file
/// stays in the output directory.
pub proof fn lemma_safe_name(name: Seq<char>)
    ensures
        safe_name_spec(name).len() > 0,
        safe_name_spec(name) != seq!['.'],
        safe_name_spec(name) != seq!['.', '.'],
        forall|i: int| 0 <= i < safe_name_spec(name).len() ==> !is_path_char(
            #[trigger] safe_name_spec(name)[i],
        ),
{
    let base = match file_name_spec(name) {
        Some(b) => b,
        None => "received.bin"@,
    };
    let cleaned = base.map_values(|c: char| clean_char(c));
    let fallback = "received.bin"@;
    reveal_strlit("received.bin");
    assert(fallback.len() == 12);
    assert forall|i: int| 0 <= i < fallback.len() implies !is_path_char(#[trigger] fallback[i]) by {
        assert(fallback == seq!['r', 'e', 'c', 'e', 'i', 'v', 'e', 'd', '.', 'b', 'i', 'n']);
    }
    if !only_dots_and_spaces(cleaned) {
        let k = fit_chars(cleaned, 96);
        lemma_fit_chars_lower(cleaned, 96);
        let result = truncate_spec(cleaned, 96);
        assert(result == cleaned.take(k as int));
        assert forall|i: int| 0 <= i < result.len() implies !is_path_char(#[trigger] result[i]) by {
            assert(result[i] == clean_char(base[i]));
        }
        if k < cleaned.len() {
            assert(result.len() >= 24);
        } else {
            assert(result =~= cleaned);
            let j = choose|j: int| 0 <= j < cleaned.len() && !(cleaned[j] == '.' || cleaned[j] == ' ');
            if result == seq!['.'] || result == seq!['.', '.'] {
                assert(result[j] == '.');
            }
        }
    }
}

/// A string whose UTF-8 encoding fits in `budget` bytes is kept whole by
/// the cut.
proof fn lemma_fit_all(s: Seq<char>, budget: int)
    requires
        utf8_len(s) <= budget,
    ensures
        fit_chars(s, budget) == s.len(),
    decreases s.len(),
{
    if s.len() > 0 {
        let first = seq![s[0]];
        assert(first + s.drop_first() =~= s);
        lemma_encode_utf8_concat(first, s.drop_first());
        assert(first.drop_first() =~= Seq::<char>::empty());
        assert(vstd::utf8::encode_utf8(Seq::<char>::empty()) =~= Seq::<u8>::empty());
        assert(vstd::utf8::encode_utf8(first) =~= vstd::utf8::encode_scalar(s[0] as u32));
        assert(utf8_len(s) == char_width(s[0]) + utf8_len(s.drop_first()));
        lemma_fit_all(s.drop_first(), budget - char_width(s[0]));
    }
}

/// A received name keeps its final component: when that component, with
/// each control character, `/`, `\\` and `:` replaced by `_`, holds some
/// character other than a dot or a space and fits in 96 UTF-8 bytes, the
/// sanitised name is exactly that cleaned component. Only a component of
/// dots and spaces alone falls back to `received.bin`.
pub proof fn lemma_component_kept(name: Seq<char>, base: Seq<char>, cleaned: Seq<char>)
    requires
        file_name_spec(name) == Some(base),
        cleaned.len() == base.len(),
        forall|i: int|
            0 <= i < base.len() ==> #[trigger] cleaned[i] == if is_path_char(base[i]) {
                '_'
            } else {
                base[i]
            },
        exists|i: int| 0 <= i < cleaned.len() && cleaned[i] != '.' && cleaned[i] != ' ',
        utf8_len(cleaned) <= 96,
    ensures
        safe_name_spec(name) == cleaned,
{
    let mapped = base.map_values(|c: char| clean_char(c));
    assert(mapped =~= cleaned);
    let j = choose|i: int| 0 <= i < cleaned.len() && cleaned[i] != '.' && cleaned[i] != ' ';
    assert(!(cleaned[j] == '.' || cleaned[j] == ' '));
    assert(!only_dots_and_spaces(cleaned));
    lemma_fit_all(cleaned, 96);
    assert(cleaned.take(cleaned.len() as int) =~= cleaned);
}

/// A plain name is kept unchanged: one with no `/`, `\\`, `:` or control
/// character, some character other than a dot or a space, and at most 96
/// UTF-8 bytes (such as `My Photo.jpg`).
pub proof fn lemma_plain_name_kept(name: Seq<char>)
    requires
        forall|i: int| 0 <= i < name.len() ==> !is_path_char(#[trigger] name[i]),
        exists|i: int| 0 <= i < name.len() && name[i] != '.' && name[i] != ' ',
        utf8_len(name) <= 96,
    ensures
        safe_name_spec(name) == name,
{
    let j = choose|i: int| 0 <= i < name.len() && name[i] != '.' && name[i] != ' ';
    lemma_last_slash(name);
    if last_slash(name) >= 0 {
        assert(!is_path_char(name[last_slash(name)]));
    }
    assert(name.subrange(last_slash(name) + 1, name.len() as int) =~= name);
    if name == seq!['.'] || name == seq!['.', '.'] {
        assert(name[j] == '.');
    }
    assert(file_name_spec(name) == Some(name));
    lemma_component_kept(name, name, name);
}

} // verus!
