//! Aligned address blocks (CIDR prefixes) and the decomposition of an
//! interval into the largest such blocks.

use vstd::arithmetic::div_mod::lemma_mod_mod;
use vstd::arithmetic::power2::{
    lemma2_to64, lemma_pow2_adds, lemma_pow2_pos, lemma_pow2_strictly_increases, lemma_pow2_unfold,
    pow2,
};
use vstd::prelude::*;

verus! {

/// `start` is a multiple of the block size `2^host`.
pub open spec fn aligned(start: int, host: nat) -> bool {
    start % (pow2(host) as int) == 0
}

/// The last address of the block of `2^host` addresses that begins at `start`.
pub open spec fn block_last(start: int, host: nat) -> int {
    start + pow2(host) - 1
}

/// The block of `2^host` addresses at `start` is aligned and ends at or
/// before `end`.
pub open spec fn fits(start: int, end: int, host: nat) -> bool {
    aligned(start, host) && block_last(start, host) <= end
}

/// The largest host size, at most `host`, whose block at `start` fits below
/// `end`.
pub open spec fn largest_fit(start: int, end: int, host: nat) -> nat
    decreases host,
{
    if host == 0 || fits(start, end, host) {
        host
    } else {
        largest_fit(start, end, (host - 1) as nat)
    }
}

/// The blocks, as pairs of first address and host size, into which the
/// interval `start..=end` falls when each block is taken as large as it can
/// be: the decomposition that the text form of an address set lists.
pub open spec fn interval_blocks(start: int, end: int, bits: nat) -> Seq<(int, nat)>
    decreases end - start,
{
    if start > end || start < 0 {
        seq![]
    } else {
        let host = largest_fit(start, end, bits);
        let last = block_last(start, host);
        if last >= end || last < start {
            seq![(start, host)]
        } else {
            seq![(start, host)] + interval_blocks(last + 1, end, bits)
        }
    }
}

pub proof fn lemma_pow2_128()
    ensures
        pow2(128) == 0x1_0000_0000_0000_0000_0000_0000_0000_0000,
        pow2(127) == 0x8000_0000_0000_0000_0000_0000_0000_0000,
        pow2(32) == 0x1_0000_0000,
{
    lemma2_to64();
    lemma_pow2_adds(64, 64);
    lemma_pow2_adds(63, 64);
    lemma_pow2_adds(32, 31);
    assert(pow2(31) == 0x8000_0000);
    assert(pow2(63) == 0x8000_0000_0000_0000) by {
        lemma_pow2_adds(32, 31);
    }
}

/// Alignment to a larger block implies alignment to every smaller one.
pub proof fn lemma_aligned_smaller(start: int, big: nat, small: nat)
    requires
        small <= big,
        aligned(start, big),
    ensures
        aligned(start, small),
{
    lemma_pow2_adds(small, (big - small) as nat);
    lemma_pow2_pos(small);
    lemma_pow2_pos((big - small) as nat);
    assert((small + (big - small)) as nat == big);
    lemma_mod_mod(start, pow2(small) as int, pow2((big - small) as nat) as int);
}

/// An aligned block that begins below `2^bits` also ends below it.
pub proof fn lemma_aligned_block_inside(start: int, host: nat, bits: nat)
    requires
        0 <= start < pow2(bits),
        host <= bits,
        aligned(start, host),
    ensures
        block_last(start, host) < pow2(bits),
{
    let p = pow2(host) as int;
    let r = pow2((bits - host) as nat) as int;
    lemma_pow2_adds(host, (bits - host) as nat);
    assert((host + (bits - host)) as nat == bits);
    lemma_pow2_pos(host);
    lemma_pow2_pos((bits - host) as nat);
    let q = start / p;
    assert(start == p * q) by (nonlinear_arith)
        requires
            p > 0,
            start % p == 0,
            q == start / p,
    ;
    assert(q + 1 <= r) by (nonlinear_arith)
        requires
            p > 0,
            start == p * q,
            start < p * r,
            start >= 0,
    ;
    assert(start + p <= p * r) by (nonlinear_arith)
        requires
            p > 0,
            start == p * q,
            q + 1 <= r,
    ;
}

/// Once the block at `host` fits and no larger one up to `top` does, the
/// search settles on `host`.
pub proof fn lemma_largest_fit_is(start: int, end: int, host: nat, top: nat)
    requires
        host <= top,
        fits(start, end, host),
        forall|h: nat| host < h <= top ==> !fits(start, end, h),
    ensures
        largest_fit(start, end, top) == host,
    decreases top,
{
    if top > host {
        lemma_largest_fit_is(start, end, host, (top - 1) as nat);
    }
}

/// The size found by the search is at most where it started, and the block
/// at `start` of that size fits whenever `start <= end`.
pub proof fn lemma_largest_fit_fits(start: int, end: int, top: nat)
    requires
        0 <= start <= end,
    ensures
        largest_fit(start, end, top) <= top,
        fits(start, end, largest_fit(start, end, top)),
    decreases top,
{
    if top > 0 && !fits(start, end, top) {
        lemma_largest_fit_fits(start, end, (top - 1) as nat);
    }
    if top == 0 {
        assert(pow2(0) == 1) by {
            lemma2_to64();
        }
    }
}

/// `2^host` as a `u128`, for `host < 128`.
pub fn pow2_u128(host: u8) -> (p: u128)
    requires
        host < 128,
    ensures
        p == pow2(host as nat),
{
    let mut p: u128 = 1;
    let mut i: u8 = 0;
    proof {
        lemma2_to64();
    }
    while i < host
        invariant
            0 <= i <= host < 128,
            p == pow2(i as nat),
        decreases host - i,
    {
        proof {
            lemma_pow2_unfold((i + 1) as nat);
            lemma_pow2_128();
            if i + 1 < 127 {
                lemma_pow2_strictly_increases((i + 1) as nat, 127);
            }
        }
        p = p * 2;
        i = i + 1;
    }
    p
}

/// Whether `start` is a multiple of `2^host`, for `host <= 128` and an address
/// that fits in 128 bits.
pub fn is_aligned(start: u128, host: u8) -> (res: bool)
    requires
        host <= 128,
    ensures
        res == aligned(start as int, host as nat),
{
    if host == 128 {
        proof {
            lemma_pow2_128();
            lemma_pow2_pos(128);
        }
        start == 0
    } else {
        let p = pow2_u128(host);
        proof {
            lemma_pow2_pos(host as nat);
        }
        start % p == 0
    }
}

/// The last address of the block of `2^host_bits` addresses at `start`;
/// with 128 host bits, the last address of the whole space.
pub fn block_end(start: u128, host_bits: u8) -> (end: u128)
    requires
        host_bits <= 128,
        host_bits == 128 || block_last(start as int, host_bits as nat) <= u128::MAX,
    ensures
        end == (if host_bits == 128 {
            u128::MAX as int
        } else {
            block_last(start as int, host_bits as nat)
        }),
        aligned(start as int, host_bits as nat) ==> end == block_last(start as int, host_bits as nat),
{
    proof {
        lemma_pow2_128();
        if aligned(start as int, host_bits as nat) {
            lemma_aligned_block_inside(start as int, host_bits as nat, 128);
        }
    }
    if host_bits == 128 {
        proof {
            lemma_pow2_pos(128);
        }
        u128::MAX
    } else {
        let p = pow2_u128(host_bits);
        proof {
            lemma_pow2_pos(host_bits as nat);
        }
        start + (p - 1)
    }
}

/// The host size of the first block in the decomposition of
/// `start..=end`: the largest aligned block at `start` that ends by `end`.
pub fn largest_block(start: u128, end: u128, bits: u8) -> (host: u8)
    requires
        start <= end,
        bits <= 128,
        end < pow2(bits as nat),
    ensures
        host as nat == largest_fit(start as int, end as int, bits as nat),
        host <= bits,
{
    let mut host: u8 = 0;
    proof {
        lemma2_to64();
        assert(aligned(start as int, 0));
    }
    while host < bits && is_aligned(start, host + 1)
        invariant
            0 <= host <= bits <= 128,
            aligned(start as int, host as nat),
        decreases bits - host,
    {
        host = host + 1;
    }
    proof {
        assert forall|h: nat| host < h <= bits implies !aligned(start as int, h) by {
            if aligned(start as int, h) {
                lemma_aligned_smaller(start as int, h, (host + 1) as nat);
            }
        }
    }
    proof {
        lemma_pow2_128();
        lemma_aligned_block_inside(start as int, host as nat, 128);
    }
    let mut last = block_end(start, host);
    while last > end
        invariant
            0 <= host <= bits <= 128,
            start <= end,
            aligned(start as int, host as nat),
            last == block_last(start as int, host as nat),
            forall|h: nat| host < h <= bits ==> !fits(start as int, end as int, h),
        decreases host,
    {
        proof {
            if host == 0 {
                lemma2_to64();
            }
            lemma_aligned_smaller(start as int, host as nat, (host - 1) as nat);
            lemma_pow2_128();
            lemma_aligned_block_inside(start as int, (host - 1) as nat, 128);
        }
        host = host - 1;
        last = block_end(start, host);
    }
    proof {
        lemma_largest_fit_is(start as int, end as int, host as nat, bits as nat);
    }
    host
}

} // verus!
