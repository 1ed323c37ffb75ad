use crate::bits::{bits_from_elem, bits_index, bits_of, bits_set};
use crate::error::TrieError;
use crate::hashing::{gx_digest, hasher_finish, hasher_with_seed, hasher_write, written};
use bit_vec::BitVec;
use vstd::prelude::*;
use vstd::string::*;

verus! {

/// Seed of every hash that the filter computes.
pub const SEED: i64 = 1846279233212321312;

/// The salt that tells the `i`-th hash function from the others: `i` as one byte.
pub open spec fn salt(i: int) -> u8 {
    (i % 256) as u8
}

/// The `i`-th hash of an item: the digest, under `SEED`, of the item's UTF-8
/// bytes followed by the one-byte salt.
pub open spec fn item_hash(item: Seq<char>, i: int) -> u64 {
    gx_digest(SEED, seq![vstd::utf8::encode_utf8(item), seq![salt(i)]])
}

/// The first `k` hashes of an item.
pub open spec fn item_hashes(item: Seq<char>, k: nat) -> Seq<u64> {
    Seq::new(k, |i: int| item_hash(item, i))
}

/// Whether the bit of every hash, reduced modulo the length, is set.
pub open spec fn all_set(bits: Seq<bool>, hashes: Seq<u64>) -> bool {
    forall|i: int| 0 <= i < hashes.len() ==> bits[#[trigger] hashes[i] as int % bits.len() as int]
}

/// Whether some hash falls on bit `j`.
pub open spec fn hit(hashes: Seq<u64>, m: nat, j: int) -> bool {
    exists|i: int| 0 <= i < hashes.len() && #[trigger] hashes[i] as int % m as int == j
}

/// The bits with those of the hashes set in addition.
pub open spec fn mark(bits: Seq<bool>, hashes: Seq<u64>) -> Seq<bool> {
    Seq::new(bits.len(), |j: int| bits[j] || hit(hashes, bits.len(), j))
}

/// The bits after the items have been recorded one after the other, each with
/// `k` hashes.
pub open spec fn after_items(bits: Seq<bool>, items: Seq<Seq<char>>, k: nat) -> Seq<bool>
    decreases items.len(),
{
    if items.len() == 0 {
        bits
    } else {
        mark(after_items(bits, items.drop_last(), k), item_hashes(items.last(), k))
    }
}

/// After marking, the bit of every marked hash is set.
pub proof fn lemma_mark_sets(bits: Seq<bool>, hashes: Seq<u64>)
    requires
        bits.len() > 0,
    ensures
        all_set(mark(bits, hashes), hashes),
{
    let m = bits.len();
    assert forall|i: int| 0 <= i < hashes.len() implies mark(bits, hashes)[#[trigger] hashes[i]
        as int % m as int] by {}
}

/// Marking clears no bit: hashes whose bits were set still have them set.
pub proof fn lemma_mark_keeps(bits: Seq<bool>, hashes: Seq<u64>, other: Seq<u64>)
    requires
        bits.len() > 0,
        all_set(bits, other),
    ensures
        all_set(mark(bits, hashes), other),
{
    let m = bits.len();
    assert forall|i: int| 0 <= i < other.len() implies mark(bits, hashes)[#[trigger] other[i]
        as int % m as int] by {}
}

/// Marking hashes whose bits are all set changes nothing.
pub proof fn lemma_mark_again(bits: Seq<bool>, hashes: Seq<u64>)
    requires
        bits.len() > 0,
        all_set(bits, hashes),
    ensures
        mark(bits, hashes) == bits,
{
}

/// No false negative: once items have been recorded, the bit of every hash of
/// each of them is set.
pub proof fn law_no_false_negative(bits: Seq<bool>, items: Seq<Seq<char>>, k: nat, i: int)
    requires
        bits.len() > 0,
        0 <= i < items.len(),
    ensures
        after_items(bits, items, k).len() == bits.len(),
        all_set(after_items(bits, items, k), item_hashes(items[i], k)),
    decreases items.len(),
{
    let earlier = after_items(bits, items.drop_last(), k);
    lemma_after_items_len(bits, items.drop_last(), k);
    if i == items.len() - 1 {
        lemma_mark_sets(earlier, item_hashes(items.last(), k));
    } else {
        law_no_false_negative(bits, items.drop_last(), k, i);
        lemma_mark_keeps(earlier, item_hashes(items.last(), k), item_hashes(items[i], k));
    }
}

/// Recording items keeps the number of bits.
pub proof fn lemma_after_items_len(bits: Seq<bool>, items: Seq<Seq<char>>, k: nat)
    ensures
        after_items(bits, items, k).len() == bits.len(),
    decreases items.len(),
{
    if items.len() > 0 {
        lemma_after_items_len(bits, items.drop_last(), k);
    }
}

pub struct BloomFilter {
    bit_array: BitVec,
    size: usize,
    num_hashes: usize,
}

impl BloomFilter {
    /// The bit array.
    pub closed spec fn bits(&self) -> Seq<bool> {
        bits_of(self.bit_array)
    }

    /// The number of bits.
    pub closed spec fn size(&self) -> nat {
        self.size as nat
    }

    /// The number of hash functions.
    pub closed spec fn num_hashes(&self) -> nat {
        self.num_hashes as nat
    }

    /// The filter has at least one bit and one hash function, and as many
    /// bits as it was made with.
    pub closed spec fn wf(&self) -> bool {
        &&& self.size > 0
        &&& self.num_hashes > 0
        &&& bits_of(self.bit_array).len() == self.size
    }

    /// The filter's answer for an item: `false` is "definitely absent", `true` is
    /// "possibly present".
    pub open spec fn may_contain(&self, item: Seq<char>) -> bool {
        all_set(self.bits(), item_hashes(item, self.num_hashes()))
    }

    /// What well-formedness says of the filter's parameters.
    pub proof fn lemma_wf(&self)
        requires
            self.wf(),
        ensures
            self.size() > 0,
            self.num_hashes() > 0,
            self.bits().len() == self.size(),
    {
    }

    /// A filter of `size` bits, all clear, with `num_hashes` hash functions.
    /// A zero for either is refused.
    pub fn new(size: usize, num_hashes: usize) -> (r: Result<BloomFilter, TrieError>)
        ensures
            (size == 0 || num_hashes == 0) <==> r == Err::<BloomFilter, TrieError>(
                TrieError::InvalidConfiguration,
            ),
            size > 0 && num_hashes > 0 ==> r is Ok,
            r matches Ok(f) ==> {
                &&& f.wf()
                &&& f.size() == size
                &&& f.num_hashes() == num_hashes
                &&& f.bits() == Seq::new(size as nat, |i: int| false)
            },
    {
        if size == 0 || num_hashes == 0 {
            return Err(TrieError::InvalidConfiguration);
        }
        let bit_array = bits_from_elem(size, false);
        Ok(BloomFilter { bit_array, size, num_hashes })
    }

    /// Sets the bit of each hash.
    pub fn insert_hashes(&mut self, hashes: &Vec<u64>)
        requires
            old(self).wf(),
        ensures
            final(self).wf(),
            final(self).size() == old(self).size(),
            final(self).num_hashes() == old(self).num_hashes(),
            final(self).bits() == mark(old(self).bits(), hashes@),
    {
        let n = hashes.len();
        let mut i: usize = 0;
        while i < n
            invariant
                i <= n,
                n == hashes.len(),
                self.wf(),
                self.size == old(self).size,
                self.num_hashes == old(self).num_hashes,
                self.bits() =~= mark(old(self).bits(), hashes@.take(i as int)),
            decreases n - i,
        {
            let pos = (hashes[i] % (self.size as u64)) as usize;
            bits_set(&mut self.bit_array, pos, true);
            proof {
                let m = old(self).bits().len();
                let h0 = hashes@.take(i as int);
                let h1 = hashes@.take(i + 1);
                assert(h1[i as int] == hashes@[i as int]);
                assert forall|j: int| 0 <= j < m implies hit(h1, m, j) == (hit(h0, m, j) || j
                    == pos) by {}
            }
            i += 1;
        }
        proof {
            assert(hashes@.take(n as int) =~= hashes@);
        }
    }

    /// Whether the bit of every hash is set. Stops at the first clear bit.
    pub fn contains_hashes(&self, hashes: &Vec<u64>) -> (r: bool)
        requires
            self.wf(),
        ensures
            r == all_set(self.bits(), hashes@),
    {
        let n = hashes.len();
        let mut i: usize = 0;
        while i < n
            invariant
                i <= n,
                n == hashes.len(),
                self.wf(),
                all_set(self.bits(), hashes@.take(i as int)),
            decreases n - i,
        {
            let pos = (hashes[i] % (self.size as u64)) as usize;
            if !bits_index(&self.bit_array, pos) {
                return false;
            }
            proof {
                let h1 = hashes@.take(i + 1);
                assert forall|t: int| 0 <= t < h1.len() implies self.bits()[#[trigger] h1[t] as int
                    % self.bits().len() as int] by {}
            }
            i += 1;
        }
        proof {
            assert(hashes@.take(n as int) =~= hashes@);
        }
        true
    }

    /// The hashes of an item, one for each hash function.
    pub fn hash_item(&self, item: &str) -> (hashes: Vec<u64>)
        ensures
            hashes@ == item_hashes(item@, self.num_hashes()),
    {
        let mut hashes: Vec<u64> = Vec::new();
        let mut i: usize = 0;
        while i < self.num_hashes
            invariant
                i <= self.num_hashes,
                hashes@ =~= item_hashes(item@, i as nat),
            decreases self.num_hashes - i,
        {
            let mut hasher = hasher_with_seed(SEED);
            let input = item.as_bytes();
            hasher_write(&mut hasher, input);
            let mut salt_bytes: Vec<u8> = Vec::new();
            salt_bytes.push((i % 256) as u8);
            hasher_write(&mut hasher, salt_bytes.as_slice());
            let hash = hasher_finish(&hasher);
            proof {
                assert(written(hasher) =~= seq![
                    vstd::utf8::encode_utf8(item@),
                    seq![salt(i as int)],
                ]);
            }
            hashes.push(hash);
            i += 1;
        }
        hashes
    }

    /// Records an item: the bit of each of its hashes is set.
    pub fn insert(&mut self, item: &str)
        requires
            old(self).wf(),
        ensures
            final(self).wf(),
            final(self).size() == old(self).size(),
            final(self).num_hashes() == old(self).num_hashes(),
            final(self).bits() == mark(
                old(self).bits(),
                item_hashes(item@, old(self).num_hashes()),
            ),
            final(self).may_contain(item@),
            forall|other: Seq<char>|
                old(self).may_contain(other) ==> #[trigger] final(self).may_contain(other),
    {
        let hashes = self.hash_item(item);
        self.insert_hashes(&hashes);
        proof {
            lemma_mark_sets(old(self).bits(), hashes@);
            assert forall|other: Seq<char>| old(self).may_contain(other) implies #[trigger]
                self.may_contain(other) by {
                lemma_mark_keeps(
                    old(self).bits(),
                    hashes@,
                    item_hashes(other, old(self).num_hashes()),
                );
            }
        }
    }

    /// `false`: the item was never inserted. `true`: it may have been.
    pub fn contains(&self, item: &str) -> (r: bool)
        requires
            self.wf(),
        ensures
            r == self.may_contain(item@),
    {
        let hashes = self.hash_item(item);
        self.contains_hashes(&hashes)
    }
}

} // verus!
