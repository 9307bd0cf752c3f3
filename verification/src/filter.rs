//! The filter: a fixed-size bit array, a hash count, and the operations
//! `new`, `insert`, `might_contain`, `bit_count` and `hash_count`.
//!
//! An item is any byte string; callers hash arbitrary values by handing in
//! their bytes. The view of a filter is the sequence of its bits, and every
//! operation's contract is stated over that sequence and the derived
//! positions of [`crate::hashing::spec_position`].

use vstd::prelude::*;

use crate::bits::{bit_seq, BitArray};
use crate::hashing::{hash1, hash2, lemma_position_in_range, nth_position, spec_position};
use crate::sizing::{num_bits_for, num_hashes_for, spec_num_bits, spec_num_hashes};

verus! {

/// The one failure of the library: construction refused a degenerate
/// capacity or rate.
#[derive(Debug, Clone, Copy, PartialEq, Eq, Structural)]
pub enum FilterError {
    InvalidArgument,
}

/// Whether every position derived for `item` is set in `bits`.
pub open spec fn all_positions_set(bits: Seq<bool>, item: Seq<u8>, k: nat) -> bool {
    forall|i: int| 0 <= i < k ==> bits[spec_position(item, i, bits.len())]
}

/// `bits` with every position derived for `item` set; all other bits
/// keep their value, and the length does not change.
pub open spec fn with_item_set(bits: Seq<bool>, item: Seq<u8>, k: nat) -> Seq<bool> {
    Seq::new(
        bits.len(),
        |j: int|
            bits[j] || exists|i: int| 0 <= i < k && spec_position(item, i, bits.len()) == j,
    )
}

/// The bits after inserting a whole sequence of items, first item first.
pub open spec fn with_items_set(bits: Seq<bool>, items: Seq<Seq<u8>>, k: nat) -> Seq<bool>
    decreases items.len(),
{
    if items.len() == 0 {
        bits
    } else {
        with_items_set(with_item_set(bits, items[0], k), items.drop_first(), k)
    }
}

pub struct BloomFilter {
    /// The backing bit array.
    pub bit_array: BitArray,
    /// The number of positions derived per operation, fixed at construction.
    pub num_hashes: usize,
    /// The expected element count the filter was sized for.
    pub capacity: usize,
}

impl View for BloomFilter {
    type V = Seq<bool>;

    open spec fn view(&self) -> Seq<bool> {
        bit_seq(self.bit_array)
    }
}

impl BloomFilter {
    /// Well-formed: at least one bit and one derived position, and a
    /// positive capacity.
    pub open spec fn wf(&self) -> bool {
        &&& self@.len() >= 1
        &&& self.num_hashes >= 1
        &&& self.capacity >= 1
    }

    /// Create a filter for `capacity` expected elements and a target
    /// false-positive rate of `rate_num / rate_den`.
    ///
    /// Fails with [`FilterError::InvalidArgument`] exactly when the
    /// capacity is zero or the rate is not a probability strictly between
    /// zero and one (a rate at or above one, at or below zero, or with a
    /// zero denominator is degenerate). The capacity bound is a machine
    /// limit: it keeps the derived bit-array length inside the address
    /// space on any word size.
    pub fn new(capacity: usize, rate_num: u64, rate_den: u64) -> (r: Result<
        BloomFilter,
        FilterError,
    >)
        requires
            capacity as nat <= usize::MAX as nat / 1024,
        ensures
            r is Err <==> (capacity == 0 || rate_num == 0 || rate_den == 0 || rate_num
                >= rate_den),
            r is Err ==> r == Err::<BloomFilter, FilterError>(FilterError::InvalidArgument),
            r matches Ok(f) ==> {
                &&& f.wf()
                &&& f.capacity == capacity
                &&& f@ =~= Seq::new(
                    spec_num_bits(capacity as nat, rate_num as nat, rate_den as nat),
                    |i: int| false,
                )
                &&& f.num_hashes == spec_num_hashes(
                    spec_num_bits(capacity as nat, rate_num as nat, rate_den as nat),
                    capacity as nat,
                )
            },
    {
        if capacity == 0 || rate_num == 0 || rate_den == 0 || rate_num >= rate_den {
            return Err(FilterError::InvalidArgument);
        }
        let m = num_bits_for(capacity, rate_num, rate_den);
        let k = num_hashes_for(m, capacity);
        Ok(BloomFilter { bit_array: BitArray::repeat_false(m), num_hashes: k, capacity })
    }

    /// Add an item: set every one of its derived bit positions. Bits
    /// already set stay set; nothing else changes.
    pub fn insert(&mut self, item: &[u8])
        requires
            old(self).wf(),
        ensures
            final(self).wf(),
            final(self).num_hashes == old(self).num_hashes,
            final(self).capacity == old(self).capacity,
            final(self)@ == with_item_set(old(self)@, item@, old(self).num_hashes as nat),
            final(self)@.len() == old(self)@.len(),
    {
        let m = self.bit_array.len();
        let h1 = hash1(item);
        let h2 = hash2(item);
        let k = self.num_hashes;
        let ghost orig: Seq<bool> = self@;
        let ghost cap: usize = self.capacity;
        let mut j: usize = 0;
        while j < k
            invariant
                j <= k,
                m >= 1,
                m as nat == orig.len(),
                self.num_hashes == k,
                self.capacity == cap,
                h1 == crate::hashing::spec_hash1(item@),
                h2 == crate::hashing::spec_hash2(item@),
                self@ == with_item_set(orig, item@, j as nat),
            decreases k - j,
        {
            let p = nth_position(h1, h2, j, m);
            proof {
                assert(self@.len() == orig.len());
                assert(spec_position(item@, j as int, orig.len()) == p as int);
            }
            self.bit_array.set_true(p);
            proof {
                let prev = with_item_set(orig, item@, j as nat);
                let next = with_item_set(orig, item@, (j + 1) as nat);
                assert forall|q: int| 0 <= q < orig.len() implies prev.update(p as int, true)[q]
                    == next[q] by {
                    if q == p as int {
                        assert(spec_position(item@, j as int, orig.len()) == q);
                        assert(next[q]);
                    } else {
                        if next[q] && !orig[q] {
                            let w = choose|i: int|
                                0 <= i < j + 1 && spec_position(item@, i, orig.len()) == q;
                            assert(w < j);
                            assert(prev[q]);
                        }
                        if prev[q] && !orig[q] {
                            let w = choose|i: int|
                                0 <= i < j && spec_position(item@, i, orig.len()) == q;
                            assert(0 <= w < j + 1 && spec_position(item@, w, orig.len()) == q);
                        }
                    }
                }
                assert(prev.update(p as int, true) =~= next);
            }
            j = j + 1;
        }
    }

    /// Whether the item might be in the filter: true exactly when every
    /// one of its derived bit positions is set. False means the item was
    /// never inserted; true may be a false positive.
    pub fn might_contain(&self, item: &[u8]) -> (b: bool)
        requires
            self.wf(),
        ensures
            b == all_positions_set(self@, item@, self.num_hashes as nat),
    {
        let m = self.bit_array.len();
        let h1 = hash1(item);
        let h2 = hash2(item);
        let k = self.num_hashes;
        let mut j: usize = 0;
        while j < k
            invariant
                j <= k,
                m >= 1,
                m as nat == self@.len(),
                self.num_hashes == k,
                h1 == crate::hashing::spec_hash1(item@),
                h2 == crate::hashing::spec_hash2(item@),
                forall|i: int| 0 <= i < j ==> self@[spec_position(item@, i, self@.len())],
            decreases k - j,
        {
            let p = nth_position(h1, h2, j, m);
            if !self.bit_array.get(p) {
                proof {
                    assert(spec_position(item@, j as int, self@.len()) == p as int);
                    assert(!self@[spec_position(item@, j as int, self@.len())]);
                }
                return false;
            }
            j = j + 1;
        }
        true
    }

    /// The number of bits in the filter.
    pub fn bit_count(&self) -> (n: usize)
        ensures
            n as nat == self@.len(),
    {
        self.bit_array.len()
    }

    /// The number of hash-derived positions per operation.
    pub fn hash_count(&self) -> (k: usize)
        ensures
            k == self.num_hashes,
    {
        self.num_hashes
    }
}

/// No false negatives: immediately after an item's positions are set,
/// a membership test for that item finds every one of them set.
pub proof fn lemma_no_false_negatives(bits: Seq<bool>, item: Seq<u8>, k: nat)
    requires
        bits.len() >= 1,
    ensures
        all_positions_set(with_item_set(bits, item, k), item, k),
{
    let after = with_item_set(bits, item, k);
    assert forall|i: int| 0 <= i < k implies after[spec_position(item, i, after.len())] by {
        lemma_position_in_range(item, i, bits.len());
        assert(spec_position(item, i, bits.len()) == spec_position(item, i, after.len()));
    }
}

/// Membership is monotonic: once a membership test succeeds for an item,
/// it still succeeds after any other item is inserted — bits are only
/// ever set, never cleared.
pub proof fn lemma_membership_monotonic(bits: Seq<bool>, item: Seq<u8>, other: Seq<u8>, k: nat)
    requires
        bits.len() >= 1,
        all_positions_set(bits, item, k),
    ensures
        all_positions_set(with_item_set(bits, other, k), item, k),
{
    let after = with_item_set(bits, other, k);
    assert forall|i: int| 0 <= i < k implies after[spec_position(item, i, after.len())] by {
        lemma_position_in_range(item, i, bits.len());
        assert(bits[spec_position(item, i, bits.len())]);
    }
}

/// A fresh filter answers false for every item: with all bits clear and
/// at least one derived position, some tested position is clear.
pub proof fn lemma_empty_filter_contains_nothing(item: Seq<u8>, m: nat, k: nat)
    requires
        m >= 1,
        k >= 1,
    ensures
        !all_positions_set(Seq::new(m, |i: int| false), item, k),
{
    let bits = Seq::new(m, |i: int| false);
    lemma_position_in_range(item, 0, m);
    assert(!bits[spec_position(item, 0, bits.len())]);
}

/// Inserting an item again changes nothing: every position it would set
/// is already set.
pub proof fn lemma_insert_idempotent(bits: Seq<bool>, item: Seq<u8>, k: nat)
    ensures
        with_item_set(with_item_set(bits, item, k), item, k) == with_item_set(bits, item, k),
{
    let once = with_item_set(bits, item, k);
    let twice = with_item_set(once, item, k);
    assert forall|q: int| 0 <= q < bits.len() implies twice[q] == once[q] by {
        if twice[q] && !once[q] {
            let w = choose|i: int| 0 <= i < k && spec_position(item, i, once.len()) == q;
            assert(spec_position(item, w, bits.len()) == q);
            assert(once[q]);
        }
    }
    assert(twice =~= once);
}

/// Inserting items never changes the length of the bit sequence.
pub proof fn lemma_insert_sequence_keeps_length(bits: Seq<bool>, items: Seq<Seq<u8>>, k: nat)
    ensures
        with_items_set(bits, items, k).len() == bits.len(),
    decreases items.len(),
{
    if items.len() > 0 {
        lemma_insert_sequence_keeps_length(
            with_item_set(bits, items[0], k),
            items.drop_first(),
            k,
        );
    }
}

/// Once a membership test succeeds for an item, it still succeeds after
/// any further sequence of inserts.
pub proof fn lemma_membership_survives_sequence(
    bits: Seq<bool>,
    items: Seq<Seq<u8>>,
    item: Seq<u8>,
    k: nat,
)
    requires
        bits.len() >= 1,
        all_positions_set(bits, item, k),
    ensures
        all_positions_set(with_items_set(bits, items, k), item, k),
    decreases items.len(),
{
    if items.len() > 0 {
        lemma_membership_monotonic(bits, item, items[0], k);
        lemma_membership_survives_sequence(
            with_item_set(bits, items[0], k),
            items.drop_first(),
            item,
            k,
        );
    }
}

/// No false negatives, in full: if an item appears anywhere in a sequence
/// of inserts, the membership test on the resulting bits succeeds for it,
/// however many other items followed.
pub proof fn lemma_no_false_negatives_in_sequence(
    bits: Seq<bool>,
    items: Seq<Seq<u8>>,
    idx: int,
    k: nat,
)
    requires
        bits.len() >= 1,
        0 <= idx < items.len(),
    ensures
        all_positions_set(with_items_set(bits, items, k), items[idx], k),
    decreases items.len(),
{
    let first = with_item_set(bits, items[0], k);
    if idx == 0 {
        lemma_no_false_negatives(bits, items[0], k);
        lemma_membership_survives_sequence(first, items.drop_first(), items[0], k);
    } else {
        lemma_no_false_negatives_in_sequence(first, items.drop_first(), idx - 1, k);
        assert(items.drop_first()[idx - 1] == items[idx]);
    }
}

/// Determinism: two filters built with the same parameters and fed the
/// same items bit for bit agree on every query. The bits, and so every
/// answer, are a function of the construction parameters and the item
/// sequence alone.
pub proof fn lemma_deterministic(
    m: nat,
    k: nat,
    items: Seq<Seq<u8>>,
    bits1: Seq<bool>,
    bits2: Seq<bool>,
    query: Seq<u8>,
)
    requires
        bits1 == with_items_set(Seq::new(m, |i: int| false), items, k),
        bits2 == with_items_set(Seq::new(m, |i: int| false), items, k),
    ensures
        bits1 == bits2,
        all_positions_set(bits1, query, k) == all_positions_set(bits2, query, k),
{
}

} // verus!
