//! The Bloom filter of a sorted table: `k` Murmur3 probes into a bit array.
use vstd::prelude::*;

use crate::bitvec::{bit_at, BitVec};
use crate::murmur3::{murmur3, murmur3_hash};

verus! {

/// The bit that probe `i` of `key` lands on in a filter of `m` bits.
pub open spec fn probe(i: u32, key: Seq<u8>, m: nat) -> nat {
    murmur3(i, key) as nat % m
}

/// Every probe of `key` finds its bit set.
pub open spec fn filter_contains(bits: Seq<u8>, k: u32, key: Seq<u8>) -> bool {
    forall|i: u32| i < k ==> #[trigger] bit_at(bits, probe(i, key, 8 * bits.len()))
}

/// `after` is `before` with the probe bits of `key` set, and nothing else changed.
pub open spec fn filter_added(before: Seq<u8>, after: Seq<u8>, k: u32, key: Seq<u8>) -> bool {
    &&& after.len() == before.len()
    &&& forall|j: nat| j < 8 * after.len() ==> #[trigger] bit_at(after, j) == (bit_at(before, j) || exists|i: u32| i < k && j == #[trigger] probe(i, key, 8 * after.len()))
}

pub struct SstFilter {
    pub bitvec: BitVec,
    pub num_functions: u32,
}

impl SstFilter {
    pub open spec fn wf(&self) -> bool {
        self.bitvec.wf() && (self.num_functions > 0 ==> self.bitvec.len > 0)
    }

    /// An empty filter of at least `bit_count` bits probed `num_functions` times.
    pub fn new(bit_count: usize, num_functions: u32) -> (r: Self)
        requires
            bit_count <= usize::MAX - 7,
            num_functions > 0 ==> bit_count > 0,
        ensures
            r.wf(),
            r.num_functions == num_functions,
            r.bitvec.data@.len() == (bit_count + 7) / 8,
            forall|i: int| 0 <= i < r.bitvec.data@.len() ==> r.bitvec.data@[i] == 0,
    {
        Self { bitvec: BitVec::new(bit_count), num_functions }
    }

    /// A filter over the stored bit array `data`, probed `num_functions` times.
    pub fn from_data(data: &[u8], num_functions: u32) -> (r: Self)
        requires
            8 * data@.len() <= usize::MAX,
            num_functions > 0 ==> data@.len() > 0,
        ensures
            r.wf(),
            r.bitvec.data@ == data@,
            r.num_functions == num_functions,
    {
        Self { bitvec: BitVec::from_data(data), num_functions }
    }

    /// Sets the probe bits of `key`.
    pub fn add(&mut self, key: &[u8])
        requires
            old(self).wf(),
        ensures
            final(self).wf(),
            final(self).num_functions == old(self).num_functions,
            final(self).bitvec.len == old(self).bitvec.len,
            filter_added(old(self).bitvec.data@, final(self).bitvec.data@, old(self).num_functions, key@),
    {
        let ghost before = self.bitvec.data@;
        let ghost m = 8 * before.len();
        let mut func_i: u32 = 0;
        while func_i < self.num_functions
            invariant
                self.wf(),
                self.num_functions == old(self).num_functions,
                self.bitvec.len == old(self).bitvec.len,
                before == old(self).bitvec.data@,
                m == 8 * before.len(),
                self.bitvec.data@.len() == before.len(),
                func_i <= self.num_functions,
                forall|j: nat| j < m ==> #[trigger] bit_at(self.bitvec.data@, j) == (bit_at(before, j) || exists|i: u32| i < func_i && j == #[trigger] probe(i, key@, m)),
            decreases self.num_functions - func_i,
        {
            let hash = murmur3_hash(func_i, key);
            let index = hash as usize % self.bitvec.len;
            let ghost mid = self.bitvec.data@;
            self.bitvec.set(index);
            proof {
                assert forall|j: nat| j < m implies #[trigger] bit_at(self.bitvec.data@, j) == (bit_at(before, j) || exists|i: u32| i < func_i + 1 && j == #[trigger] probe(i, key@, m)) by {
                    if j == index {
                        assert(j == probe(func_i, key@, m));
                    }
                    if exists|i: u32| i < func_i + 1 && j == probe(i, key@, m) {
                        let i = choose|i: u32| i < func_i + 1 && j == probe(i, key@, m);
                        if i == func_i {
                            assert(j == index);
                        } else {
                            assert(bit_at(mid, j));
                        }
                    }
                }
            }
            func_i = func_i + 1;
        }
    }

    /// Whether every probe bit of `key` is set; `false` means `key` was never added.
    pub fn may_contain(&self, key: &[u8]) -> (r: bool)
        requires
            self.wf(),
        ensures
            r == filter_contains(self.bitvec.data@, self.num_functions, key@),
    {
        let ghost bits = self.bitvec.data@;
        let ghost m = 8 * bits.len();
        let mut func_i: u32 = 0;
        while func_i < self.num_functions
            invariant
                self.wf(),
                bits == self.bitvec.data@,
                m == 8 * bits.len(),
                func_i <= self.num_functions,
                forall|i: u32| i < func_i ==> #[trigger] bit_at(bits, probe(i, key@, m)),
            decreases self.num_functions - func_i,
        {
            let hash = murmur3_hash(func_i, key);
            let index = hash as usize % self.bitvec.len;
            if !self.bitvec.get(index) {
                proof {
                    assert(index == probe(func_i, key@, m));
                    assert(!bit_at(bits, probe(func_i, key@, 8 * bits.len())));
                }
                return false;
            }
            func_i = func_i + 1;
        }
        true
    }
}

/// A filter never forgets a key: once added, the key is reported as possibly
/// present, and stays so through later additions.
pub proof fn lemma_no_false_negative(
    before: Seq<u8>,
    after: Seq<u8>,
    later: Seq<u8>,
    k: u32,
    key: Seq<u8>,
    other: Seq<u8>,
)
    requires
        filter_added(before, after, k, key),
        filter_added(after, later, k, other),
        k > 0 ==> before.len() > 0,
    ensures
        filter_contains(after, k, key),
        filter_contains(later, k, key),
{
    let m = 8 * after.len();
    assert forall|i: u32| i < k implies #[trigger] bit_at(after, probe(i, key, m)) by {
        let j = probe(i, key, m);
        assert(j < m);
        assert(exists|i2: u32| i2 < k && j == probe(i2, key, m));
    }
    assert forall|i: u32| i < k implies #[trigger] bit_at(later, probe(i, key, 8 * later.len())) by {
        let j = probe(i, key, m);
        assert(bit_at(after, j));
    }
}

/// Adding a key keeps every key the filter already reports, and reports the
/// new one.
pub proof fn lemma_filter_keeps(before: Seq<u8>, after: Seq<u8>, k: u32, key: Seq<u8>, other: Seq<u8>)
    requires
        filter_added(before, after, k, key),
        k > 0 ==> before.len() > 0,
    ensures
        filter_contains(before, k, other) ==> filter_contains(after, k, other),
        filter_contains(after, k, key),
{
    let m = 8 * after.len();
    if filter_contains(before, k, other) {
        assert forall|i: u32| i < k implies #[trigger] bit_at(after, probe(i, other, m)) by {
            assert(bit_at(before, probe(i, other, 8 * before.len())));
        }
    }
    assert forall|i: u32| i < k implies #[trigger] bit_at(after, probe(i, key, m)) by {
        let j = probe(i, key, m);
        assert(exists|i2: u32| i2 < k && j == probe(i2, key, m));
    }
}

/// After adding the keys `keys` one after another, each key in its turn
/// taking the filter from `states[i]` to `states[i + 1]`, the filter reports
/// every one of them: a Bloom filter has no false negatives.
pub proof fn lemma_filter_no_false_negatives(states: Seq<Seq<u8>>, k: u32, keys: Seq<Seq<u8>>)
    requires
        states.len() == keys.len() + 1,
        forall|i: int| 0 <= i < keys.len() ==> filter_added(#[trigger] states[i], states[i + 1], k, keys[i]),
        k > 0 ==> states[0].len() > 0,
    ensures
        forall|i: int| 0 <= i < keys.len() ==> filter_contains(states[keys.len() as int], k, #[trigger] keys[i]),
{
    lemma_filter_chain(states, k, keys, keys.len());
}

proof fn lemma_filter_chain(states: Seq<Seq<u8>>, k: u32, keys: Seq<Seq<u8>>, n: nat)
    requires
        states.len() == keys.len() + 1,
        forall|i: int| 0 <= i < keys.len() ==> filter_added(#[trigger] states[i], states[i + 1], k, keys[i]),
        k > 0 ==> states[0].len() > 0,
        n <= keys.len(),
    ensures
        states[n as int].len() == states[0].len(),
        forall|i: int| 0 <= i < n ==> filter_contains(states[n as int], k, #[trigger] keys[i]),
    decreases n,
{
    if n > 0 {
        let m = (n - 1) as int;
        lemma_filter_chain(states, k, keys, (n - 1) as nat);
        assert(filter_added(states[m], states[m + 1], k, keys[m]));
        assert forall|i: int| 0 <= i < n implies filter_contains(states[n as int], k, #[trigger] keys[i]) by {
            lemma_filter_keeps(states[m], states[m + 1], k, keys[m], keys[i]);
        }
    }
}

} // verus!
