//! A fixed-size Bloom filter over 32-bit keys.
//!
//! Every table carries one; a negative answer proves the key absent from
//! the table, a positive answer means the table's block index must be
//! consulted.  Bits are set by double hashing from two seeds and are never
//! cleared.

use vstd::prelude::*;

use crate::BLOOM_CAPACITY;

verus! {

/// Number of hash functions consulted per key.
pub const BLOOM_HASHES: usize = 4;

/// First hash: a multiplicative hash of the key, reduced to a bit position.
pub open spec fn bloom_h1(key: i32) -> int {
    ((key as u32) as int * 0x9e3779b1) % (BLOOM_CAPACITY as int)
}

/// Second hash: an always-odd stride derived from a second seed.
pub open spec fn bloom_h2(key: i32) -> int {
    ((key as u32) as int * 0x85ebca6b) % (BLOOM_CAPACITY as int - 1) + 1
}

/// Bit position probed by the `i`-th hash function.
pub open spec fn bloom_index(key: i32, i: int) -> int {
    (bloom_h1(key) + i * bloom_h2(key)) % (BLOOM_CAPACITY as int)
}

/// Computes the `i`-th probe position of `key`.
#[verifier::rlimit(30)]
fn bloom_index_exec(key: i32, i: usize) -> (r: usize)
    requires
        i < BLOOM_HASHES,
    ensures
        r == bloom_index(key, i as int),
        r < BLOOM_CAPACITY,
{
    let ku: u64 = (#[verifier::truncate] (key as u32)) as u64;
    let h1: u64 = (ku * 0x9e3779b1) % (BLOOM_CAPACITY as u64);
    let h2: u64 = (ku * 0x85ebca6b) % (BLOOM_CAPACITY as u64 - 1) + 1;
    proof {
        assert((i as u64) * h2 <= 3 * 65535) by (nonlinear_arith)
            requires
                i as u64 <= 3,
                h2 <= 65535,
        ;
    }
    ((h1 + (i as u64) * h2) % (BLOOM_CAPACITY as u64)) as usize
}

/// A fixed-size bit array with no removal.
#[derive(Debug)]
pub struct Bloom {
    bits: Vec<bool>,
}

impl View for Bloom {
    type V = Seq<bool>;

    closed spec fn view(&self) -> Seq<bool> {
        self.bits@
    }
}

impl Bloom {
    pub open spec fn wf(&self) -> bool {
        self@.len() == BLOOM_CAPACITY
    }

    /// Whether every bit position of `key` is set: the filter's answer.
    pub open spec fn spec_has(&self, key: i32) -> bool {
        forall|i: int| 0 <= i < BLOOM_HASHES ==> self@[bloom_index(key, i)]
    }

    /// An empty filter of `capacity` bits.
    pub fn new(capacity: usize) -> (r: Self)
        ensures
            r@.len() == capacity,
            forall|j: int| 0 <= j < capacity ==> !r@[j],
    {
        let mut bits: Vec<bool> = Vec::new();
        let mut i: usize = 0;
        while i < capacity
            invariant
                i <= capacity,
                bits@.len() == i,
                forall|j: int| 0 <= j < i ==> !bits@[j],
            decreases capacity - i,
        {
            bits.push(false);
            i = i + 1;
        }
        Self { bits }
    }

    /// Records `key`: sets its probe positions and touches nothing else.
    pub fn put(&mut self, key: i32)
        requires
            old(self).wf(),
        ensures
            final(self).wf(),
            final(self).spec_has(key),
            forall|j: int|
                0 <= j < BLOOM_CAPACITY ==> final(self)@[j] == (old(self)@[j] || (exists|i: int|
                    0 <= i < BLOOM_HASHES && j == bloom_index(key, i))),
    {
        let mut i: usize = 0;
        while i < BLOOM_HASHES
            invariant
                i <= BLOOM_HASHES,
                self.wf(),
                forall|x: int| 0 <= x < i ==> self@[bloom_index(key, x)],
                forall|j: int|
                    0 <= j < BLOOM_CAPACITY ==> self@[j] == (old(self)@[j] || (exists|x: int|
                        0 <= x < i && j == bloom_index(key, x))),
            decreases BLOOM_HASHES - i,
        {
            let idx = bloom_index_exec(key, i);
            self.bits[idx] = true;
            i = i + 1;
        }
    }

    /// Whether `key` may be in the set the filter was fed: `false` proves
    /// the key was never `put`.
    pub fn maybe_contains(&self, key: i32) -> (r: bool)
        requires
            self.wf(),
        ensures
            r == self.spec_has(key),
    {
        let mut i: usize = 0;
        while i < BLOOM_HASHES
            invariant
                i <= BLOOM_HASHES,
                self.wf(),
                forall|x: int| 0 <= x < i ==> self@[bloom_index(key, x)],
            decreases BLOOM_HASHES - i,
        {
            let idx = bloom_index_exec(key, i);
            if !self.bits[idx] {
                return false;
            }
            i = i + 1;
        }
        true
    }
}

} // verus!
