//! Names under which a completed transfer is written: the temporary name of
//! the partial file, and the numbered alternatives to a name already taken.

use vstd::prelude::*;
use crate::mobile::{hex_id, hex_id_spec};
use crate::text::{chars_of, string_from_chars};

verus! {

/// The decimal digits of `n`.
pub open spec fn decimal_spec(n: u64) -> Seq<char>
    decreases n,
{
    if n < 10 {
        seq![(('0' as u64) + n) as char]
    } else {
        decimal_spec(n / 10).push((('0' as u64) + n % 10) as char)
    }
}

/// The decimal digits of `n`, most significant first.
pub fn decimal(n: u64) -> (res: Vec<char>)
    ensures
        res@ == decimal_spec(n),
    decreases n,
{
    if n < 10 {
        let mut digits: Vec<char> = Vec::new();
        digits.push(((48 + n) as u8) as char);
        digits
    } else {
        let mut digits = decimal(n / 10);
        digits.push(((48 + n % 10) as u8) as char);
        digits
    }
}

/// Index of the last `.` in `name`, or -1.
pub open spec fn last_dot(name: Seq<char>) -> int
    decreases name.len(),
{
    if name.len() == 0 {
        -1
    } else if name.last() == '.' {
        name.len() - 1
    } else {
        last_dot(name.drop_last())
    }
}

proof fn lemma_last_dot(name: Seq<char>)
    ensures
        -1 <= last_dot(name) < name.len(),
        last_dot(name) >= 0 ==> name[last_dot(name)] == '.',
        forall|j: int| last_dot(name) < j < name.len() ==> name[j] != '.',
    decreases name.len(),
{
    if name.len() > 0 && name.last() != '.' {
        lemma_last_dot(name.drop_last());
        assert forall|j: int| last_dot(name) < j < name.len() implies name[j] != '.' by {
            if j < name.len() - 1 {
                assert(name.drop_last()[j] == name[j]);
            }
        }
    }
}

/// Stem and extension of a file name, split at its last `.` unless that dot
/// starts the name.
pub open spec fn split_extension(name: Seq<char>) -> (Seq<char>, Option<Seq<char>>) {
    let dot = last_dot(name);
    if dot <= 0 {
        (name, None)
    } else {
        (name.subrange(0, dot), Some(name.subrange(dot + 1, name.len() as int)))
    }
}

/// The alternative `index` to a file name that is taken: `stem-index.ext`,
/// or `stem-index` when there is no extension.
pub open spec fn candidate_spec(name: Seq<char>, index: u32) -> Seq<char> {
    let (stem, extension) = split_extension(name);
    match extension {
        Some(e) => stem + seq!['-'] + decimal_spec(index as u64) + seq!['.'] + e,
        None => stem + seq!['-'] + decimal_spec(index as u64),
    }
}

fn last_dot_exec(chars: &Vec<char>) -> (res: Option<usize>)
    ensures
        match res {
            Some(i) => i == last_dot(chars@),
            None => last_dot(chars@) == -1,
        },
{
    let mut i: usize = chars.len();
    proof {
        assert(chars@.subrange(0, i as int) =~= chars@);
    }
    while i > 0
        invariant
            i <= chars@.len(),
            last_dot(chars@) == last_dot(chars@.subrange(0, i as int)),
        decreases i,
    {
        let ghost prefix = chars@.subrange(0, i as int);
        proof {
            assert(prefix.drop_last() =~= chars@.subrange(0, i - 1));
        }
        if chars[i - 1] == '.' {
            return Some(i - 1);
        }
        i = i - 1;
    }
    None
}

fn push_all(out: &mut Vec<char>, src: &Vec<char>, start: usize, end: usize)
    requires
        start <= end <= src@.len(),
    ensures
        final(out)@ == old(out)@ + src@.subrange(start as int, end as int),
{
    let ghost before = out@;
    let mut i: usize = start;
    while i < end
        invariant
            start <= i <= end <= src@.len(),
            out@ == before + src@.subrange(start as int, i as int),
        decreases end - i,
    {
        out.push(src[i]);
        i = i + 1;
        proof {
            assert(out@ =~= before + src@.subrange(start as int, i as int));
        }
    }
}

/// The alternative `index` to the file name `name`.
pub fn candidate_name(name: &str, index: u32) -> (res: String)
    ensures
        res@ == candidate_spec(name@, index),
{
    let chars = chars_of(name);
    let n = chars.len();
    let digits = decimal(index as u64);
    let mut out: Vec<char> = Vec::new();
    proof {
        lemma_last_dot(chars@);
    }
    match last_dot_exec(&chars) {
        Some(dot) if dot > 0 => {
            push_all(&mut out, &chars, 0, dot);
            out.push('-');
            push_all(&mut out, &digits, 0, digits.len());
            out.push('.');
            push_all(&mut out, &chars, dot + 1, n);
            proof {
                assert(digits@.subrange(0, digits@.len() as int) =~= digits@);
                assert(out@ =~= candidate_spec(name@, index));
            }
        },
        _ => {
            push_all(&mut out, &chars, 0, chars.len());
            out.push('-');
            push_all(&mut out, &digits, 0, digits.len());
            proof {
                assert(digits@.subrange(0, digits@.len() as int) =~= digits@);
                assert(chars@.subrange(0, chars@.len() as int) =~= chars@);
                assert(out@ =~= candidate_spec(name@, index));
            }
        },
    }
    string_from_chars(&out)
}

/// The temporary name under which a transfer is written before it is
/// renamed: `.name.<id in 16 hex digits>.partial`.
pub open spec fn partial_spec(name: Seq<char>, id: u64) -> Seq<char> {
    seq!['.'] + name + seq!['.'] + hex_id_spec(id) + ".partial"@
}

/// The temporary name of the partial file of transfer `id` named `name`.
pub fn partial_name(name: &str, id: u64) -> (res: String)
    ensures
        res@ == partial_spec(name@, id),
{
    let chars = chars_of(name);
    let hex = chars_of(hex_id(id).as_str());
    let suffix = chars_of(".partial");
    let mut out: Vec<char> = Vec::new();
    out.push('.');
    push_all(&mut out, &chars, 0, chars.len());
    out.push('.');
    push_all(&mut out, &hex, 0, hex.len());
    push_all(&mut out, &suffix, 0, suffix.len());
    proof {
        assert(chars@.subrange(0, chars@.len() as int) =~= chars@);
        assert(hex@.subrange(0, hex@.len() as int) =~= hex@);
        assert(suffix@.subrange(0, suffix@.len() as int) =~= suffix@);
        assert(out@ =~= partial_spec(name@, id));
    }
    string_from_chars(&out)
}

} // verus!
