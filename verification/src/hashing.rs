//! Hash-index derivation: the double-hashing technique.
//!
//! Two base hashes of an item's bytes are computed with the standard
//! library's `DefaultHasher` — once over the bytes alone, once with a fixed
//! eight-byte seed written first — and the `i`-th bit position is
//! `(h1 + i * h2) mod m`. The seed is a fixed constant, so the derived
//! positions depend on the item's bytes alone: the same item always maps
//! to the same positions, within a process and across runs.

use std::collections::hash_map::DefaultHasher;
use std::hash::Hasher;
use vstd::prelude::*;
use vstd::std_specs::hash::DefaultHasherAdditionalSpecFns;

verus! {

/// The fixed seed written to the second hasher before the item's bytes:
/// the little-endian bytes of 0x517cc1b727220a95.
pub open spec fn seed_bytes() -> Seq<u8> {
    seq![0x95u8, 0x0au8, 0x22u8, 0x27u8, 0xb7u8, 0xc1u8, 0x7cu8, 0x51u8]
}

/// The first base hash of an item: `DefaultHasher` over the bytes alone.
pub open spec fn spec_hash1(item: Seq<u8>) -> u64 {
    DefaultHasher::spec_finish(seq![item])
}

/// The second base hash of an item: `DefaultHasher` over the seed, then
/// the bytes.
pub open spec fn spec_hash2(item: Seq<u8>) -> u64 {
    DefaultHasher::spec_finish(seq![seed_bytes(), item])
}

/// The `i`-th derived bit position for an item in a filter of `m` bits.
pub open spec fn spec_position(item: Seq<u8>, i: int, m: nat) -> int {
    (spec_hash1(item) + i * spec_hash2(item)) % (m as int)
}

/// Every derived position lands inside the bit array.
pub proof fn lemma_position_in_range(item: Seq<u8>, i: int, m: nat)
    requires
        m >= 1,
        i >= 0,
    ensures
        0 <= spec_position(item, i, m) < m,
{
    let h1 = spec_hash1(item) as int;
    let h2 = spec_hash2(item) as int;
    assert(i * h2 >= 0) by (nonlinear_arith)
        requires
            i >= 0,
            h2 >= 0;
    vstd::arithmetic::div_mod::lemma_mod_division_less_than_divisor(h1 + i * h2, m as int);
}

/// The first base hash, computed exactly as [`spec_hash1`] says.
pub fn hash1(item: &[u8]) -> (h: u64)
    ensures
        h == spec_hash1(item@),
{
    let mut hasher = DefaultHasher::new();
    hasher.write(item);
    proof {
        assert(hasher@ =~= seq![item@]);
    }
    hasher.finish()
}

/// The second base hash, computed exactly as [`spec_hash2`] says.
pub fn hash2(item: &[u8]) -> (h: u64)
    ensures
        h == spec_hash2(item@),
{
    let mut seed: Vec<u8> = Vec::new();
    seed.push(0x95u8);
    seed.push(0x0au8);
    seed.push(0x22u8);
    seed.push(0x27u8);
    seed.push(0xb7u8);
    seed.push(0xc1u8);
    seed.push(0x7cu8);
    seed.push(0x51u8);
    proof {
        assert(seed@ =~= seed_bytes());
    }
    let mut hasher = DefaultHasher::new();
    hasher.write(seed.as_slice());
    hasher.write(item);
    proof {
        assert(hasher@ =~= seq![seed_bytes(), item@]);
    }
    hasher.finish()
}

/// The `i`-th derived position, computed from the two base hashes in
/// 128-bit arithmetic so that no wrap-around occurs.
pub fn nth_position(h1: u64, h2: u64, i: usize, m: usize) -> (p: usize)
    requires
        m >= 1,
    ensures
        p == (h1 + i * h2) % (m as int),
        p < m,
{
    proof {
        vstd::arithmetic::mul::lemma_mul_upper_bound(
            i as int,
            u64::MAX as int,
            h2 as int,
            u64::MAX as int,
        );
    }
    let wide: u128 = (h1 as u128) + (i as u128) * (h2 as u128);
    let p: usize = (wide % (m as u128)) as usize;
    proof {
        vstd::arithmetic::div_mod::lemma_mod_division_less_than_divisor(wide as int, m as int);
    }
    p
}

} // verus!
