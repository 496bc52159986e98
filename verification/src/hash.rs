//! Hash function for addresses.
use vstd::arithmetic::power2::{lemma_pow2_adds, lemma_pow2_pos, pow2};
use vstd::prelude::*;

verus! {

/// The multiplier on machines with 64 bit addresses.
pub const MULTIPLIER_64: u64 = 0x9E37_79B9_7F4A_7C15;

/// The multiplier on machines with 32 bit addresses.
pub const MULTIPLIER_32: u32 = 0x9E37_79B9;

/// The multiplier for addresses of this machine.
pub open spec fn multiplier() -> nat {
    if usize::BITS == 64 {
        MULTIPLIER_64 as nat
    } else {
        MULTIPLIER_32 as nat
    }
}

/// The top `bits` bits of the low word of the product of `key` and the multiplier.
pub open spec fn hash_of(key: usize, bits: u32) -> int {
    ((key * multiplier()) % (pow2(usize::BITS as nat) as int)) / (pow2(
        (usize::BITS - bits) as nat,
    ) as int)
}

/// The hash of an address, a number below `2^bits`.
pub fn hash(key: usize, bits: u32) -> (hash: usize)
    requires
        1 <= bits <= usize::BITS,
    ensures
        hash == hash_of(key, bits),
        hash < pow2(bits as nat),
{
    proof {
        lemma_hash_in_range(key, bits);
    }
    if usize::BITS == 64 {
        let product = (key as u64).wrapping_mul(MULTIPLIER_64);
        let hash: u64 = product >> ((64 - bits) as u64);
        proof {
            vstd::arithmetic::power2::lemma2_to64_rest();
            vstd::bits::lemma_u64_shr_is_div(product, (64 - bits) as u64);
        }
        hash as usize
    } else {
        let product = (key as u32).wrapping_mul(MULTIPLIER_32);
        let hash: u32 = product >> (32 - bits);
        proof {
            vstd::arithmetic::power2::lemma2_to64();
            vstd::bits::lemma_u32_shr_is_div(product, (32 - bits) as u32);
        }
        hash as usize
    }
}

pub proof fn lemma_hash_in_range(key: usize, bits: u32)
    requires
        1 <= bits <= usize::BITS,
    ensures
        0 <= hash_of(key, bits) < pow2(bits as nat),
{
    let whole = pow2(usize::BITS as nat) as int;
    let low = pow2((usize::BITS - bits) as nat) as int;
    let high = pow2(bits as nat) as int;
    lemma_pow2_pos(usize::BITS as nat);
    lemma_pow2_pos((usize::BITS - bits) as nat);
    lemma_pow2_adds(bits as nat, (usize::BITS - bits) as nat);
    let word = (key * multiplier()) % whole;
    assert(0 <= word < whole);
    assert(0 <= word / low < high) by (nonlinear_arith)
        requires
            0 <= word < whole,
            whole == high * low,
            low > 0,
    ;
}

} // verus!
