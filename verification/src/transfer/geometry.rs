//! Shard geometry of the outer erasure code.

use vstd::prelude::*;

verus! {

/// Bytes in every shard.
pub const SHARD_SIZE: usize = 192;
/// Largest number of data shards in one group.
pub const MAX_DATA_SHARDS: usize = 8;
/// Largest number of parity shards in one group.
pub const MAX_PARITY_SHARDS: usize = 4;

/// `a / b` rounded up.
pub open spec fn ceil_div(a: int, b: int) -> int {
    (a + b - 1) / b
}

/// `(data shards, parity shards)` for a transfer of `encoded_size` bytes.
pub open spec fn geometry_spec(encoded_size: u64) -> (usize, usize) {
    let shards = ceil_div(encoded_size as int, SHARD_SIZE as int);
    if shards <= 1 {
        (1, 2)
    } else if shards == 2 {
        (2, 2)
    } else if shards <= 4 {
        (4, 3)
    } else {
        (MAX_DATA_SHARDS, MAX_PARITY_SHARDS)
    }
}

/// `a / b` rounded up, for `b > 0`.
pub fn div_ceil_u64(a: u64, b: u64) -> (res: u64)
    requires
        b > 0,
    ensures
        res == ceil_div(a as int, b as int),
{
    let q = a / b;
    let r = a % b;
    proof {
        assert(a == b * q + r) by (nonlinear_arith)
            requires
                b > 0,
                q == a / b,
                r == a % b,
        ;
        assert(ceil_div(a as int, b as int) == q + if r != 0 { 1int } else { 0int }) by (
        nonlinear_arith)
            requires
                b > 0,
                a == b * q + r,
                0 <= r < b,
        ;
        assert(q + 1 <= a + 1);
        assert(q <= a) by (nonlinear_arith)
            requires
                b > 0,
                a == b * q + r,
                0 <= r,
        ;
    }
    if r != 0 {
        if q == u64::MAX {
            proof {
                assert(b * q + r > 0xffff_ffff_ffff_ffffu64) by (nonlinear_arith)
                    requires
                        b >= 1,
                        q == 0xffff_ffff_ffff_ffffu64,
                        r >= 1,
                ;
            }
        }
        q + 1
    } else {
        q
    }
}

/// `(data shards, parity shards)` for a transfer of `encoded_size` bytes.
pub fn shard_geometry(encoded_size: u64) -> (res: (usize, usize))
    ensures
        res == geometry_spec(encoded_size),
        1 <= res.0 <= MAX_DATA_SHARDS,
        2 <= res.1 <= MAX_PARITY_SHARDS,
{
    let shards = div_ceil_u64(encoded_size, SHARD_SIZE as u64);
    if shards <= 1 {
        (1, 2)
    } else if shards == 2 {
        (2, 2)
    } else if shards <= 4 {
        (4, 3)
    } else {
        (MAX_DATA_SHARDS, MAX_PARITY_SHARDS)
    }
}

} // verus!
