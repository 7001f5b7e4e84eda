//! The 32-bit Murmur3 hash (x86 variant), fed incrementally.
use vstd::prelude::*;

use crate::fixedint::{le_value, lemma_le_value_bound, pow256};

verus! {

pub open spec fn wmul(a: u32, b: u32) -> u32 {
    vstd::wrapping::u32_specs::wrapping_mul(a, b)
}

pub open spec fn wadd(a: u32, b: u32) -> u32 {
    vstd::wrapping::u32_specs::wrapping_add(a, b)
}

/// Scrambles one 32-bit word of input.
pub open spec fn mix_k(k: u32) -> u32 {
    let k1 = wmul(k, 0xcc9e2d51u32);
    let k2 = (k1 << 15u32) | (k1 >> 17u32);
    wmul(k2, 0x1b873593u32)
}

/// Folds one scrambled word into the running hash.
pub open spec fn mix_h(h: u32, k: u32) -> u32 {
    let h1 = h ^ mix_k(k);
    let h2 = (h1 << 13u32) | (h1 >> 19u32);
    wadd(wmul(h2, 5u32), 0xe6546b64u32)
}

/// The final avalanche.
pub open spec fn fmix(h: u32) -> u32 {
    let h1 = h ^ (h >> 16u32);
    let h2 = wmul(h1, 0x85ebca6bu32);
    let h3 = h2 ^ (h2 >> 13u32);
    let h4 = wmul(h3, 0xc2b2ae35u32);
    h4 ^ (h4 >> 16u32)
}

/// The running hash after the four-byte blocks of `d`, whose length is a
/// multiple of four.
pub open spec fn hash_blocks(seed: u32, d: Seq<u8>) -> u32
    decreases d.len(),
{
    if d.len() < 4 {
        seed
    } else {
        mix_h(
            hash_blocks(seed, d.subrange(0, d.len() - 4)),
            le_value(d.subrange(d.len() - 4, d.len() as int)) as u32,
        )
    }
}

/// Murmur3 (32-bit) of `data` with `seed`.
pub open spec fn murmur3(seed: u32, data: Seq<u8>) -> u32 {
    let full = 4 * (data.len() / 4);
    let h = hash_blocks(seed, data.subrange(0, full as int));
    let tail = le_value(data.subrange(full as int, data.len() as int)) as u32;
    let h1 = if data.len() % 4 != 0 {
        h ^ mix_k(tail)
    } else {
        h
    };
    fmix(h1 ^ (data.len() as u32))
}

pub struct Murmur3Hasher {
    hash: u32,
    tail: u32,
    tail_len: usize,
    data_len: usize,
    seed: Ghost<u32>,
    data: Ghost<Seq<u8>>,
}

fn mix(h: u32, k: u32) -> (r: u32)
    ensures
        r == mix_h(h, k),
{
    let k1 = k.wrapping_mul(0xcc9e2d51u32);
    let k2 = (k1 << 15u32) | (k1 >> 17u32);
    let k3 = k2.wrapping_mul(0x1b873593u32);
    let h1 = h ^ k3;
    let h2 = (h1 << 13u32) | (h1 >> 19u32);
    h2.wrapping_mul(5u32).wrapping_add(0xe6546b64u32)
}

proof fn lemma_le_value_push(s: Seq<u8>, b: u8)
    ensures
        le_value(s.push(b)) == le_value(s) + b as nat * pow256(s.len()),
    decreases s.len(),
{
    let s2 = s.push(b);
    if s.len() == 0 {
        assert(s2.drop_first() =~= Seq::<u8>::empty());
        assert(le_value(Seq::<u8>::empty()) == 0);
        assert(s2[0] == b);
        assert(pow256(0) == 1);
        assert(b as nat * 1 == b as nat) by (nonlinear_arith);
        assert(le_value(s2) == b as nat + 256 * le_value(s2.drop_first()));
    } else {
        assert(s2.drop_first() =~= s.drop_first().push(b));
        lemma_le_value_push(s.drop_first(), b);
        let p = pow256((s.len() - 1) as nat);
        let v = le_value(s.drop_first());
        assert(s2[0] == s[0]);
        assert(pow256(s.len()) == 256 * p);
        assert(le_value(s2) == s[0] as nat + 256 * (v + b as nat * p));
        assert(256 * (v + b as nat * p) == 256 * v + b as nat * (256 * p)) by (nonlinear_arith);
    }
}

impl Murmur3Hasher {
    /// The seed the hasher was made with.
    pub closed spec fn seed(&self) -> u32 {
        self.seed@
    }

    /// All bytes fed so far.
    pub closed spec fn data(&self) -> Seq<u8> {
        self.data@
    }

    pub closed spec fn wf(&self) -> bool {
        let d = self.data@;
        let full = 4 * (d.len() / 4);
        &&& self.data_len == d.len()
        &&& self.tail_len == d.len() % 4
        &&& self.hash == hash_blocks(self.seed@, d.subrange(0, full as int))
        &&& self.tail as nat == le_value(d.subrange(full as int, d.len() as int))
    }

    pub fn new(seed: u32) -> (r: Self)
        ensures
            r.wf(),
            r.seed() == seed,
            r.data() == Seq::<u8>::empty(),
    {
        let r = Self {
            hash: seed,
            tail: 0,
            tail_len: 0,
            data_len: 0,
            seed: Ghost(seed),
            data: Ghost(Seq::empty()),
        };
        proof {
            assert(r.data@.subrange(0, 0) =~= Seq::<u8>::empty());
        }
        r
    }

    /// Feeds one byte.
    fn push_byte(&mut self, b: u8)
        requires
            old(self).wf(),
            old(self).data().len() < usize::MAX,
        ensures
            final(self).wf(),
            final(self).seed() == old(self).seed(),
            final(self).data() == old(self).data().push(b),
    {
        let ghost d = self.data@;
        let ghost d2 = d.push(b);
        let ghost full = 4 * (d.len() / 4);
        let mult: u32 = if self.tail_len == 0 {
            1
        } else if self.tail_len == 1 {
            256
        } else if self.tail_len == 2 {
            65536
        } else {
            16777216
        };
        proof {
            let t = d.subrange(full as int, d.len() as int);
            reveal_with_fuel(pow256, 5);
            lemma_le_value_bound(t);
            assert(mult as nat == pow256(t.len()));
            lemma_le_value_push(t, b);
            assert(d2.subrange(full as int, d2.len() as int) =~= t.push(b));
            assert(self.tail + b as nat * mult < 0x1_0000_0000) by (nonlinear_arith)
                requires
                    self.tail < mult,
                    mult <= 16777216,
                    b < 256,
            ;
        }
        self.tail = self.tail + (b as u32) * mult;
        self.tail_len = self.tail_len + 1;
        self.data_len = self.data_len + 1;
        self.data = Ghost(d2);
        if self.tail_len == 4 {
            proof {
                let n = d2.len();
                assert(n % 4 == 0 && 4 * (n / 4) == n);
                let blocks = d2.subrange(0, n as int);
                assert(blocks =~= d2);
                assert(d2.subrange(0, n - 4) =~= d.subrange(0, full as int));
                assert(d2.subrange(n - 4, n as int) =~= d2.subrange(full as int, d2.len() as int));
            }
            self.hash = mix(self.hash, self.tail);
            self.tail = 0;
            self.tail_len = 0;
            proof {
                let n = d2.len();
                assert(d2.subrange(n as int, n as int) =~= Seq::<u8>::empty());
            }
        } else {
            proof {
                assert(4 * (d2.len() / 4) == full);
                assert(d2.subrange(0, full as int) =~= d.subrange(0, full as int));
            }
        }
    }

    /// Feeds `data`.
    pub fn update(&mut self, data: &[u8])
        requires
            old(self).wf(),
            old(self).data().len() + data@.len() <= usize::MAX,
        ensures
            final(self).wf(),
            final(self).seed() == old(self).seed(),
            final(self).data() == old(self).data() + data@,
    {
        let ghost start = self.data@;
        let mut i: usize = 0;
        while i < data.len()
            invariant
                i <= data@.len(),
                self.wf(),
                self.seed() == old(self).seed(),
                start == old(self).data(),
                start.len() + data@.len() <= usize::MAX,
                self.data() == start + data@.subrange(0, i as int),
            decreases data@.len() - i,
        {
            self.push_byte(data[i]);
            assert(start + data@.subrange(0, i + 1) =~= (start + data@.subrange(0, i as int)).push(data@[i as int]));
            i = i + 1;
        }
        assert(data@.subrange(0, i as int) =~= data@);
    }

    /// The hash of all bytes fed.
    pub fn finalize(self) -> (r: u32)
        requires
            self.wf(),
        ensures
            r == murmur3(self.seed(), self.data()),
    {
        let mut h = self.hash;
        if self.tail_len > 0 {
            let k1 = self.tail.wrapping_mul(0xcc9e2d51u32);
            let k2 = (k1 << 15u32) | (k1 >> 17u32);
            let k3 = k2.wrapping_mul(0x1b873593u32);
            h = h ^ k3;
        }
        h = h ^ (self.data_len as u32);
        h = h ^ (h >> 16u32);
        h = h.wrapping_mul(0x85ebca6bu32);
        h = h ^ (h >> 13u32);
        h = h.wrapping_mul(0xc2b2ae35u32);
        h = h ^ (h >> 16u32);
        h
    }
}

/// Murmur3 of `data` with `seed`, in one call.
pub fn murmur3_hash(seed: u32, data: &[u8]) -> (r: u32)
    ensures
        r == murmur3(seed, data@),
{
    let mut hasher = Murmur3Hasher::new(seed);
    assert(data@.len() == data.len());
    hasher.update(data);
    assert(Seq::<u8>::empty() + data@ =~= data@);
    hasher.finalize()
}

} // verus!
