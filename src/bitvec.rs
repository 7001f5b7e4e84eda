//! A fixed-size array of bits stored eight to a byte, least significant bit first.
use vstd::prelude::*;

verus! {

/// Bit `i` of the bytes `data`.
pub open spec fn bit_at(data: Seq<u8>, i: nat) -> bool {
    (data[(i / 8) as int] >> ((i % 8) as u8)) & 1u8 == 1u8
}

pub struct BitVec {
    pub data: Vec<u8>,
    pub len: usize,
}

impl BitVec {
    pub open spec fn wf(&self) -> bool {
        self.len == 8 * self.data@.len()
    }

    /// A zeroed vector of at least `min_len` bits, rounded up to whole bytes.
    pub fn new(min_len: usize) -> (r: Self)
        requires
            min_len <= usize::MAX - 7,
        ensures
            r.wf(),
            r.data@.len() == (min_len + 7) / 8,
            forall|i: int| 0 <= i < r.data@.len() ==> r.data@[i] == 0,
    {
        let data_len: usize = if min_len % 8 == 0 {
            min_len / 8
        } else {
            min_len / 8 + 1
        };
        let data = vec![0u8; data_len];
        Self { data, len: data_len * 8 }
    }

    /// A vector holding the bits of `data`.
    pub fn from_data(data: &[u8]) -> (r: Self)
        requires
            8 * data@.len() <= usize::MAX,
        ensures
            r.wf(),
            r.data@ == data@,
    {
        let mut v: Vec<u8> = Vec::new();
        crate::bytes::extend_from_range(&mut v, data, 0, data.len());
        assert(v@ =~= data@);
        let len = data.len() * 8;
        Self { data: v, len }
    }

    /// Sets bit `index`.
    pub fn set(&mut self, index: usize)
        requires
            old(self).wf(),
            index < old(self).len,
        ensures
            final(self).wf(),
            final(self).len == old(self).len,
            final(self).data@.len() == old(self).data@.len(),
            forall|j: nat| j < final(self).len ==> bit_at(final(self).data@, j) == (j == index || bit_at(old(self).data@, j)),
    {
        let byte_index = index / 8;
        let bit_index = (index % 8) as u8;
        let byte = self.data[byte_index];
        let new_byte = byte | (1u8 << bit_index);
        self.data.set(byte_index, new_byte);
        proof {
            assert forall|j: nat| j < self.len implies bit_at(self.data@, j) == (j == index || bit_at(old(self).data@, j)) by {
                let bj = (j % 8) as u8;
                if j / 8 == byte_index {
                    assert(((byte | (1u8 << bit_index)) >> bj) & 1u8 == 1u8 <==> (bj == bit_index || (byte >> bj) & 1u8 == 1u8)) by (bit_vector)
                        requires
                            bit_index < 8,
                            bj < 8,
                    ;
                    if j != index {
                        assert(bj != bit_index);
                    }
                } else {
                    assert(self.data@[(j / 8) as int] == old(self).data@[(j / 8) as int]);
                }
            }
        }
    }

    /// Whether bit `index` is set.
    pub fn get(&self, index: usize) -> (r: bool)
        requires
            self.wf(),
            index < self.len,
        ensures
            r == bit_at(self.data@, index as nat),
    {
        let byte_index = index / 8;
        let bit_index = (index % 8) as u8;
        let byte = self.data[byte_index];
        (byte >> bit_index) & 1u8 == 1u8
    }
}

} // verus!
