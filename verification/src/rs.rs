//! Reed-Solomon block coding of acoustic frames. The data is cut into
//! RS(255, 223) codewords whose bytes are interleaved, so that a burst of
//! noise is spread over every codeword instead of one.

use vstd::prelude::*;
use crate::bytes::{append_bytes, copy_range};

verus! {

/// Parity bytes appended to every codeword.
pub const ECC_BYTES: usize = 32;
/// Largest number of data bytes in one codeword.
pub const MAX_DATA_BYTES: usize = 255 - ECC_BYTES;

/// The data could not be recovered: wrong length, or too many errors.
#[derive(Debug, Clone, Copy, PartialEq, Eq, Structural)]
pub struct DecodeError;

#[verifier::external_type_specification]
#[verifier::external_body]
pub struct ExRsDecoderError(reed_solomon::DecoderError);

/// The codeword that `reed_solomon::Encoder` (32 parity bytes) makes of `data`.
pub uninterp spec fn rs_encode_spec(data: Seq<u8>) -> Seq<u8>;

/// What `reed_solomon::Decoder::correct_err_count` (32 parity bytes, no
/// erasures) makes of `block`: the corrected data bytes and the number of
/// corrected bytes, or `None` when it reports too many errors.
pub uninterp spec fn rs_correct_spec(block: Seq<u8>) -> Option<(Seq<u8>, usize)>;

/// `reed_solomon::Encoder::new(ECC_BYTES).encode(data)`, as a vector.
/// Claimed, from the crate's source: the codeword is `data` followed by 32
/// parity bytes, and the crate's decoder finds no error in it, so that it
/// gives `data` back with no byte corrected. The parity bytes themselves are
/// only named.
#[verifier::external_body]
fn rs_encode_block(data: &[u8]) -> (res: Vec<u8>)
    requires
        data@.len() <= MAX_DATA_BYTES,
    ensures
        res@ == rs_encode_spec(data@),
        res@.len() == data@.len() + ECC_BYTES,
        res@.subrange(0, data@.len() as int) == data@,
        rs_correct_spec(res@) == Some((data@, 0usize)),
{
    reed_solomon::Encoder::new(ECC_BYTES).encode(data).to_vec()
}

/// `reed_solomon::Decoder::new(ECC_BYTES).correct_err_count(block, None)`,
/// with the corrected data bytes copied out. Claimed: the outcome is
/// `rs_correct_spec` of the block; a success holds the block's length less
/// the parity bytes, and at most half as many corrections as parity bytes
/// (the crate refuses more).
#[verifier::external_body]
fn rs_correct_block(block: &[u8]) -> (res: Result<(Vec<u8>, usize), reed_solomon::DecoderError>)
    requires
        ECC_BYTES <= block@.len() < 256,
    ensures
        match res {
            Ok((data, count)) => {
                &&& rs_correct_spec(block@) == Some((data@, count))
                &&& data@.len() == block@.len() - ECC_BYTES
                &&& count <= ECC_BYTES / 2
            },
            Err(_) => rs_correct_spec(block@) is None,
        },
{
    match reed_solomon::Decoder::new(ECC_BYTES).correct_err_count(block, None) {
        Ok((buffer, count)) => Ok((buffer.data().to_vec(), count)),
        Err(e) => Err(e),
    }
}

/// Number of codewords for `n` data bytes.
pub open spec fn block_count(n: int) -> int {
    (n + MAX_DATA_BYTES - 1) / (MAX_DATA_BYTES as int)
}

/// Data bytes in codeword `k`.
pub open spec fn chunk_len(n: int, k: int) -> int {
    if n - k * MAX_DATA_BYTES < MAX_DATA_BYTES {
        n - k * MAX_DATA_BYTES
    } else {
        MAX_DATA_BYTES as int
    }
}

/// The data bytes that codeword `k` carries.
pub open spec fn chunk(data: Seq<u8>, k: int) -> Seq<u8> {
    data.subrange(k * MAX_DATA_BYTES, k * MAX_DATA_BYTES + chunk_len(data.len() as int, k))
}

/// Length of codeword `k`.
pub open spec fn codeword_len(n: int, k: int) -> int {
    chunk_len(n, k) + ECC_BYTES
}

/// Length of the last (and shortest) codeword.
pub open spec fn last_len(n: int) -> int {
    codeword_len(n, block_count(n) - 1)
}

/// Stream position of byte `r` of the first codeword: every codeword still
/// long enough gives one byte to each earlier row.
pub open spec fn row_start(n: int, r: int) -> int {
    let b = block_count(n);
    let l = last_len(n);
    if r <= l {
        r * b
    } else {
        l * b + (r - l) * (b - 1)
    }
}

/// Stream position of byte `i` of codeword `k`.
pub open spec fn slot(n: int, k: int, i: int) -> int {
    row_start(n, i) + k
}

/// The codeword whose byte stands at stream position `t`.
pub open spec fn slot_block(n: int, t: int) -> int {
    let b = block_count(n);
    let l = last_len(n);
    if t < l * b {
        t % b
    } else {
        (t - l * b) % (b - 1)
    }
}

/// The byte of that codeword that stands at stream position `t`.
pub open spec fn slot_index(n: int, t: int) -> int {
    let b = block_count(n);
    let l = last_len(n);
    if t < l * b {
        t / b
    } else {
        l + (t - l * b) / (b - 1)
    }
}

/// Length of the interleaved stream for `n` data bytes.
pub open spec fn encoded_len_spec(n: int) -> int {
    if n == 0 {
        0
    } else {
        n + block_count(n) * ECC_BYTES
    }
}

/// The stream made for `data` is as long as `encoded_len` says for its
/// length: the data bytes and 32 check bytes for every started block of 223.
pub proof fn lemma_encoded_length(data: Seq<u8>)
    ensures
        interleave_spec(data).len() == encoded_len_spec(data.len() as int),
        encoded_len_spec(data.len() as int) == if data.len() == 0 {
            0
        } else {
            data.len() + 32 * ((data.len() + 222) / 223)
        },
{
}

/// With at most one block's worth of data the stream is the lone codeword,
/// which begins with the data.
proof fn lemma_single_block_prefix(data: Seq<u8>)
    requires
        1 <= data.len() <= MAX_DATA_BYTES,
        codeword(data, 0).len() == codeword_len(data.len() as int, 0),
        codeword(data, 0).subrange(0, chunk_len(data.len() as int, 0)) == chunk(data, 0),
    ensures
        interleave_spec(data).subrange(0, data.len() as int) == data,
{
    let n = data.len() as int;
    assert(block_count(n) == 1);
    assert(chunk_len(n, 0) == n);
    assert(chunk(data, 0) =~= data);
    assert(last_len(n) == n + ECC_BYTES);
    assert forall|t: int| 0 <= t < n implies interleave_spec(data)[t] == data[t] by {
        assert(slot_block(n, t) == 0);
        assert(slot_index(n, t) == t);
        assert(codeword(data, 0).subrange(0, n)[t] == codeword(data, 0)[t]);
    }
    assert(interleave_spec(data).subrange(0, n) =~= data);
}

/// Codeword `k` of `data`.
pub open spec fn codeword(data: Seq<u8>, k: int) -> Seq<u8> {
    rs_encode_spec(chunk(data, k))
}

/// The interleaved codewords of `data`: position `t` holds byte
/// `slot_index` of codeword `slot_block`.
pub open spec fn interleave_spec(data: Seq<u8>) -> Seq<u8> {
    let n = data.len() as int;
    Seq::new(
        encoded_len_spec(n) as nat,
        |t: int| codeword(data, slot_block(n, t))[slot_index(n, t)],
    )
}

/// Codeword `k` as read back from an interleaved stream for `n` data bytes.
pub open spec fn deinterleave(encoded: Seq<u8>, n: int, k: int) -> Seq<u8> {
    Seq::new(codeword_len(n, k) as nat, |i: int| encoded[slot(n, k, i)])
}

/// The decoder corrects every codeword of the stream.
pub open spec fn blocks_correctable(encoded: Seq<u8>, n: int) -> bool {
    forall|k: int|
        0 <= k < block_count(n) ==> (#[trigger] rs_correct_spec(deinterleave(encoded, n, k))) is Some
}

/// The corrected data of the first `m` codewords, in order.
pub open spec fn corrected_data(encoded: Seq<u8>, n: int, m: int) -> Seq<u8>
    decreases m,
{
    if m <= 0 {
        Seq::empty()
    } else {
        corrected_data(encoded, n, m - 1) + match rs_correct_spec(deinterleave(encoded, n, m - 1)) {
            Some((d, _)) => d,
            None => Seq::empty(),
        }
    }
}

/// The corrections made in the first `m` codewords.
pub open spec fn corrected_count(encoded: Seq<u8>, n: int, m: int) -> int
    decreases m,
{
    if m <= 0 {
        0
    } else {
        corrected_count(encoded, n, m - 1) + match rs_correct_spec(deinterleave(encoded, n, m - 1)) {
            Some((_, c)) => c as int,
            None => 0,
        }
    }
}

/// `encoded` is a stream from which decoding gives back `data` exactly,
/// with nothing corrected.
pub open spec fn decodes_to(encoded: Seq<u8>, data: Seq<u8>) -> bool {
    let n = data.len() as int;
    &&& encoded.len() == encoded_len_spec(n)
    &&& blocks_correctable(encoded, n)
    &&& corrected_data(encoded, n, block_count(n)) == data
    &&& corrected_count(encoded, n, block_count(n)) == 0
}

/// Every codeword but the last carries a full chunk; the last carries the rest.
proof fn lemma_chunks(n: int, k: int)
    requires
        n >= 1,
        0 <= k < block_count(n),
    ensures
        block_count(n) >= 1,
        (block_count(n) - 1) * MAX_DATA_BYTES < n <= block_count(n) * MAX_DATA_BYTES,
        k * MAX_DATA_BYTES + chunk_len(n, k) <= n,
        1 <= chunk_len(n, k) <= MAX_DATA_BYTES,
        k < block_count(n) - 1 ==> chunk_len(n, k) == MAX_DATA_BYTES,
        k == block_count(n) - 1 ==> chunk_len(n, k) == n - k * MAX_DATA_BYTES,
        codeword_len(n, k) <= codeword_len(n, 0),
        block_count(n) >= 2 ==> codeword_len(n, 0) == 255,
        block_count(n) == 1 ==> codeword_len(n, 0) == last_len(n),
        ECC_BYTES < last_len(n) <= 255,
{
    let b = block_count(n);
    assert((b - 1) * 223 < n <= b * 223 && b >= 1) by (nonlinear_arith)
        requires
            n >= 1,
            b == (n + 222) / 223,
    ;
    assert(k * 223 <= (b - 1) * 223) by (nonlinear_arith)
        requires
            k <= b - 1,
    ;
    if k < b - 1 {
        assert((k + 1) * 223 <= (b - 1) * 223) by (nonlinear_arith)
            requires
                k + 1 <= b - 1,
        ;
    }
    if b >= 2 {
        assert(223 <= (b - 1) * 223) by (nonlinear_arith)
            requires
                b >= 2,
        ;
    }
}

/// Going from row `r` to row `r + 1` passes one byte of every codeword
/// still long enough.
proof fn lemma_row_step(n: int, r: int)
    requires
        n >= 1,
        r >= 0,
    ensures
        row_start(n, r + 1) == row_start(n, r) + if r < last_len(n) {
            block_count(n)
        } else {
            block_count(n) - 1
        },
{
    let b = block_count(n);
    let l = last_len(n);
    if r < l {
        assert((r + 1) * b == r * b + b) by (nonlinear_arith);
    } else {
        assert((r + 1 - l) * (b - 1) == (r - l) * (b - 1) + (b - 1)) by (nonlinear_arith);
        if r == l {
            assert((r - l) * (b - 1) == 0) by (nonlinear_arith)
                requires
                    r == l,
            ;
        }
    }
}

/// Stream position and codeword byte determine each other.
proof fn lemma_slot_inverse(n: int, k: int, i: int)
    requires
        n >= 1,
        0 <= k < block_count(n),
        0 <= i < codeword_len(n, k),
    ensures
        slot_block(n, slot(n, k, i)) == k,
        slot_index(n, slot(n, k, i)) == i,
        0 <= slot(n, k, i) < encoded_len_spec(n),
{
    lemma_chunks(n, k);
    lemma_chunks(n, block_count(n) - 1);
    let b = block_count(n);
    let l = last_len(n);
    let t = slot(n, k, i);
    let total = encoded_len_spec(n);
    lemma_total(n);
    if i < l {
        assert(t == i * b + k);
        assert(0 <= t < l * b && l * b <= total) by (nonlinear_arith)
            requires
                t == i * b + k,
                0 <= k < b,
                0 <= i < l,
                l <= codeword_len(n, 0),
                b >= 1,
                total == if b == 1 { l } else { l * b + (255 - l) * (b - 1) },
                b >= 2 ==> l <= 255,
        ;
        vstd::arithmetic::div_mod::lemma_fundamental_div_mod_converse(t, b, i, k);
    } else {
        assert(k < b - 1);
        let u = t - l * b;
        if i == l {
            assert((i - l) * (b - 1) == 0) by (nonlinear_arith)
                requires
                    i == l,
            ;
        }
        assert(u == (i - l) * (b - 1) + k);
        assert(0 <= u && t < total) by (nonlinear_arith)
            requires
                u == (i - l) * (b - 1) + k,
                t == u + l * b,
                0 <= k < b - 1,
                l <= i < 255,
                total == l * b + (255 - l) * (b - 1),
        ;
        vstd::arithmetic::div_mod::lemma_fundamental_div_mod_converse(u, b - 1, i - l, k);
    }
}

/// The rows of the longest codeword cover the whole stream.
proof fn lemma_total(n: int)
    requires
        n >= 1,
    ensures
        encoded_len_spec(n) == if block_count(n) == 1 {
            last_len(n)
        } else {
            last_len(n) * block_count(n) + (255 - last_len(n)) * (block_count(n) - 1)
        },
        row_start(n, codeword_len(n, 0)) == encoded_len_spec(n),
{
    assert(block_count(n) >= 1) by (nonlinear_arith)
        requires
            n >= 1,
            block_count(n) == (n + 222) / 223,
    ;
    lemma_chunks(n, block_count(n) - 1);
    lemma_chunks(n, 0);
    let b = block_count(n);
    let l = last_len(n);
    assert(l == n - (b - 1) * 223 + 32);
    if b == 1 {
        assert(row_start(n, l) == l * 1);
    } else {
        assert(l * b + (255 - l) * (b - 1) == n + b * 32) by (nonlinear_arith)
            requires
                l == n - (b - 1) * 223 + 32,
        ;
    }
}

/// When every codeword decodes to its own chunk with nothing corrected, the
/// first `m` codewords give back the first `m` chunks of the data.
proof fn lemma_corrected_prefix(encoded: Seq<u8>, data: Seq<u8>, m: int)
    requires
        data.len() >= 1,
        0 <= m <= block_count(data.len() as int),
        forall|k: int|
            0 <= k < block_count(data.len() as int) ==> #[trigger] rs_correct_spec(
                deinterleave(encoded, data.len() as int, k),
            ) == Some((chunk(data, k), 0usize)),
    ensures
        corrected_data(encoded, data.len() as int, m) == data.subrange(
            0,
            if m < block_count(data.len() as int) {
                m * MAX_DATA_BYTES
            } else {
                data.len() as int
            },
        ),
        corrected_count(encoded, data.len() as int, m) == 0,
    decreases m,
{
    let n = data.len() as int;
    if m > 0 {
        lemma_corrected_prefix(encoded, data, m - 1);
        lemma_chunks(n, m - 1);
        assert(rs_correct_spec(deinterleave(encoded, n, m - 1)) == Some((chunk(data, m - 1), 0usize)));
        let prev = (m - 1) * MAX_DATA_BYTES;
        let end = prev + chunk_len(n, m - 1);
        assert(data.subrange(0, prev) + data.subrange(prev, end) =~= data.subrange(0, end));
    } else {
        assert(data.subrange(0, 0) =~= Seq::<u8>::empty());
    }
}

/// Number of codewords for `n` data bytes.
fn blocks_for(n: usize) -> (res: usize)
    ensures
        res == block_count(n as int),
        res * MAX_DATA_BYTES >= n,
        res > 0 ==> (res - 1) * MAX_DATA_BYTES < n,
        n == 0 <==> res == 0,
{
    let q = n / MAX_DATA_BYTES;
    let r = n % MAX_DATA_BYTES;
    proof {
        assert(n == 223 * q + r && 0 <= r < 223) by (nonlinear_arith)
            requires
                q == n / 223,
                r == n % 223,
        ;
        assert(block_count(n as int) == q + if r != 0 { 1int } else { 0int }) by (nonlinear_arith)
            requires
                n == 223 * q + r,
                0 <= r < 223,
        ;
    }
    if r != 0 {
        q + 1
    } else {
        q
    }
}

/// Length of the interleaved stream for `data_len` data bytes.
pub fn encoded_len(data_len: usize) -> (res: usize)
    requires
        encoded_len_spec(data_len as int) <= usize::MAX,
    ensures
        res == encoded_len_spec(data_len as int),
{
    if data_len == 0 {
        0
    } else {
        let b = blocks_for(data_len);
        data_len + b * ECC_BYTES
    }
}

/// Cuts `data` into codewords and interleaves them. Decoding the result
/// with the data's length gives `data` back with nothing corrected.
pub fn encode_blocks(data: &[u8]) -> (res: Vec<u8>)
    requires
        encoded_len_spec(data@.len() as int) <= usize::MAX,
    ensures
        res@ == interleave_spec(data@),
        res@.len() == encoded_len_spec(data@.len() as int),
        decodes_to(res@, data@),
        data@.len() <= MAX_DATA_BYTES ==> res@.subrange(0, data@.len() as int) == data@,
{
    let n = data.len();
    let count = blocks_for(n);
    let ghost nn = n as int;
    let mut blocks: Vec<Vec<u8>> = Vec::new();
    let mut k: usize = 0;
    while k < count
        invariant
            n == data@.len(),
            nn == n,
            count == block_count(nn),
            k <= count,
            blocks@.len() == k,
            forall|j: int|
                0 <= j < k ==> {
                    &&& (#[trigger] blocks@[j])@ == codeword(data@, j)
                    &&& blocks@[j]@.len() == codeword_len(nn, j)
                    &&& rs_correct_spec(blocks@[j]@) == Some((chunk(data@, j), 0usize))
                    &&& blocks@[j]@.subrange(0, chunk_len(nn, j)) == chunk(data@, j)
                },
        decreases count - k,
    {
        proof {
            lemma_chunks(nn, k as int);
        }
        let start = k * MAX_DATA_BYTES;
        let end = if n - start < MAX_DATA_BYTES {
            n
        } else {
            start + MAX_DATA_BYTES
        };
        let piece = copy_range(data, start, end);
        proof {
            assert(piece@ =~= chunk(data@, k as int));
        }
        let block = rs_encode_block(piece.as_slice());
        blocks.push(block);
        k = k + 1;
    }
    let mut out: Vec<u8> = Vec::new();
    if count == 0 {
        proof {
            assert(out@ =~= interleave_spec(data@));
            assert(data@ =~= Seq::<u8>::empty());
            assert(corrected_data(out@, nn, 0) =~= Seq::<u8>::empty());
            assert(out@.subrange(0, 0) =~= data@);
        }
        return out;
    }
    proof {
        lemma_chunks(nn, 0);
    }
    let max_len = blocks[0].len();
    let mut index: usize = 0;
    while index < max_len
        invariant
            n == data@.len(),
            nn == n,
            nn >= 1,
            count == block_count(nn),
            count >= 1,
            blocks@.len() == count,
            forall|j: int|
                0 <= j < count ==> {
                    &&& (#[trigger] blocks@[j])@ == codeword(data@, j)
                    &&& blocks@[j]@.len() == codeword_len(nn, j)
                    &&& rs_correct_spec(blocks@[j]@) == Some((chunk(data@, j), 0usize))
                    &&& blocks@[j]@.subrange(0, chunk_len(nn, j)) == chunk(data@, j)
                },
            max_len == codeword_len(nn, 0),
            index <= max_len,
            out@.len() == row_start(nn, index as int),
            forall|t: int| 0 <= t < out@.len() ==> out@[t] == interleave_spec(data@)[t],
        decreases max_len - index,
    {
        let mut k: usize = 0;
        while k < blocks.len()
            invariant
                n == data@.len(),
                nn == n,
                nn >= 1,
                count == block_count(nn),
                count >= 1,
                blocks@.len() == count,
                forall|j: int|
                    0 <= j < count ==> {
                        &&& (#[trigger] blocks@[j])@ == codeword(data@, j)
                        &&& blocks@[j]@.len() == codeword_len(nn, j)
                        &&& rs_correct_spec(blocks@[j]@) == Some((chunk(data@, j), 0usize))
                        &&& blocks@[j]@.subrange(0, chunk_len(nn, j)) == chunk(data@, j)
                    &&& blocks@[j]@.subrange(0, chunk_len(nn, j)) == chunk(data@, j)
                    },
                max_len == codeword_len(nn, 0),
                index < max_len,
                k <= count,
                out@.len() == row_start(nn, index as int) + if (index as int) < last_len(nn)
                    || k < count {
                    k as int
                } else {
                    count - 1
                },
                forall|t: int| 0 <= t < out@.len() ==> out@[t] == interleave_spec(data@)[t],
            decreases count - k,
        {
            proof {
                lemma_chunks(nn, k as int);
                lemma_chunks(nn, count - 1);
            }
            if index < blocks[k].len() {
                proof {
                    lemma_slot_inverse(nn, k as int, index as int);
                    if index as int >= last_len(nn) {
                        assert(k < count - 1);
                    }
                    assert(out@.len() == slot(nn, k as int, index as int));
                }
                out.push(blocks[k][index]);
            } else {
                proof {
                    if count >= 2 {
                        assert(k == count - 1);
                    }
                }
            }
            k = k + 1;
        }
        proof {
            lemma_row_step(nn, index as int);
        }
        index = index + 1;
    }
    proof {
        lemma_total(nn);
        assert(out@ =~= interleave_spec(data@));
        assert forall|j: int| 0 <= j < count implies #[trigger] rs_correct_spec(
            deinterleave(out@, nn, j),
        ) == Some((chunk(data@, j), 0usize)) by {
            assert forall|i: int| 0 <= i < codeword_len(nn, j) implies out@[slot(nn, j, i)]
                == blocks@[j]@[i] by {
                lemma_slot_inverse(nn, j, i);
            }
            assert(deinterleave(out@, nn, j) =~= blocks@[j]@);
        }
        lemma_corrected_prefix(out@, data@, count as int);
        assert(data@.subrange(0, nn) =~= data@);
        if nn <= MAX_DATA_BYTES {
            lemma_single_block_prefix(data@);
        }
    }
    out
}

/// Codeword `k` read back from an interleaved stream of the right length.
fn read_codeword(encoded: &[u8], n: usize, count: usize, last: usize, k: usize, len_k: usize) -> (res: Vec<u8>)
    requires
        n >= 1,
        encoded@.len() == encoded_len_spec(n as int),
        count == block_count(n as int),
        last == last_len(n as int),
        k < count,
        len_k == codeword_len(n as int, k as int),
    ensures
        res@ == deinterleave(encoded@, n as int, k as int),
{
    let ghost nn = n as int;
    let stream_len = encoded.len();
    let mut out: Vec<u8> = Vec::new();
    let mut i: usize = 0;
    while i < len_k
        invariant
            stream_len == encoded@.len(),
            n >= 1,
            nn == n,
            encoded@.len() == encoded_len_spec(nn),
            count == block_count(nn),
            last == last_len(nn),
            k < count,
            len_k == codeword_len(nn, k as int),
            i <= len_k,
            out@ == deinterleave(encoded@, nn, k as int).subrange(0, i as int),
        decreases len_k - i,
    {
        proof {
            lemma_slot_inverse(nn, k as int, i as int);
            lemma_chunks(nn, k as int);
        }
        let ghost t = slot(nn, k as int, i as int);
        let pos = if i <= last {
            proof {
                assert(t == i * count + k);
            }
            i * count + k
        } else {
            proof {
                assert(t == last * count + (i - last) * (count - 1) + k);
                assert(last * count <= t && (i - last) * (count - 1) <= t) by (nonlinear_arith)
                    requires
                        t == last * count + (i - last) * (count - 1) + k,
                        i > last,
                        count >= 1,
                ;
            }
            last * count + (i - last) * (count - 1) + k
        };
        out.push(encoded[pos]);
        i = i + 1;
        proof {
            assert(out@ =~= deinterleave(encoded@, nn, k as int).subrange(0, i as int));
        }
    }
    proof {
        assert(out@ =~= deinterleave(encoded@, nn, k as int));
    }
    out
}

/// Reads the codewords for `data_len` data bytes back out of an interleaved
/// stream and corrects each. Gives the data and the number of corrected
/// bytes; fails when the stream has the wrong length or a codeword has too
/// many errors.
pub fn decode_blocks(encoded: &[u8], data_len: usize) -> (res: Result<(Vec<u8>, usize), DecodeError>)
    ensures
        res is Ok <==> (encoded@.len() == encoded_len_spec(data_len as int) && blocks_correctable(
            encoded@,
            data_len as int,
        )),
        res matches Ok((data, corrected)) ==> {
            &&& data@ == corrected_data(encoded@, data_len as int, block_count(data_len as int))
            &&& data@.len() == data_len
            &&& corrected == corrected_count(
                encoded@,
                data_len as int,
                block_count(data_len as int),
            )
        },
{
    let ghost n = data_len as int;
    let stream_len = encoded.len();
    let count = blocks_for(data_len);
    let total = match count.checked_mul(ECC_BYTES) {
        Some(parity) => match data_len.checked_add(parity) {
            Some(total) => total,
            None => {
                proof {
                    assert(stream_len < encoded_len_spec(n));
                }
                return Err(DecodeError);
            },
        },
        None => {
            proof {
                assert(count * 32 <= data_len + count * 32);
            }
            return Err(DecodeError);
        },
    };
    if encoded.len() != total {
        return Err(DecodeError);
    }
    if count == 0 {
        return Ok((Vec::new(), 0));
    }
    proof {
        lemma_chunks(n, count - 1);
    }
    let last = (data_len - (count - 1) * MAX_DATA_BYTES) + ECC_BYTES;
    let mut out: Vec<u8> = Vec::new();
    let mut corrected: usize = 0;
    let mut k: usize = 0;
    while k < count
        invariant
            n == data_len,
            n >= 1,
            count == block_count(n),
            total == encoded_len_spec(n),
            encoded@.len() == total,
            last == last_len(n),
            k <= count,
            out@ == corrected_data(encoded@, n, k as int),
            out@.len() == if k == count {
                n
            } else {
                k * MAX_DATA_BYTES
            },
            corrected == corrected_count(encoded@, n, k as int),
            corrected <= k * (ECC_BYTES / 2),
            forall|j: int|
                0 <= j < k ==> (#[trigger] rs_correct_spec(deinterleave(encoded@, n, j))) is Some,
        decreases count - k,
    {
        proof {
            lemma_chunks(n, k as int);
        }
        let start = k * MAX_DATA_BYTES;
        let len_k = if data_len - start < MAX_DATA_BYTES {
            data_len - start
        } else {
            MAX_DATA_BYTES
        } + ECC_BYTES;
        let block = read_codeword(encoded, data_len, count, last, k, len_k);
        match rs_correct_block(block.as_slice()) {
            Ok((data, fixed)) => {
                proof {
                    assert((k + 1) * 16 <= count * 32) by (nonlinear_arith)
                        requires
                            k < count,
                    ;
                }
                assert(block@.len() == codeword_len(n, k as int));
                assert(data@.len() == chunk_len(n, k as int));
                append_bytes(&mut out, data.as_slice());
                corrected = corrected + fixed;
                proof {
                    if k + 1 == count {
                        assert(k * MAX_DATA_BYTES + chunk_len(n, k as int) == n);
                    } else {
                        assert(chunk_len(n, k as int) == MAX_DATA_BYTES);
                        assert(k * MAX_DATA_BYTES + MAX_DATA_BYTES == (k + 1) * MAX_DATA_BYTES)
                            by (nonlinear_arith);
                    }
                    assert(out@.len() == if k + 1 == count {
                        n
                    } else {
                        (k + 1) * MAX_DATA_BYTES
                    });
                }
            },
            Err(_) => {
                return Err(DecodeError);
            },
        }
        k = k + 1;
    }
    Ok((out, corrected))
}

} // verus!
