//! 256-bit values: epoch keys, pre-hashes, nonces and digests.

use vstd::prelude::*;
use vstd::std_specs::cmp::PartialEqSpecImpl;

verus! {

/// A fixed-size 256-bit value, held as 32 bytes in the order they are written.
#[derive(Clone, Copy, Debug)]
pub struct H256(pub [u8; 32]);

/// Byte-wise comparison of two 32-byte arrays.
pub fn bytes_equal(a: &[u8; 32], b: &[u8; 32]) -> (same: bool)
    ensures
        same == (a@ == b@),
{
    let mut i: usize = 0;
    while i < 32
        invariant
            i <= 32,
            forall|j: int| 0 <= j < i ==> a@[j] == b@[j],
        decreases 32 - i,
    {
        if a[i] != b[i] {
            return false;
        }
        i += 1;
    }
    assert(a@ =~= b@);
    true
}

impl View for H256 {
    type V = Seq<u8>;

    open spec fn view(&self) -> Seq<u8> {
        self.0@
    }
}

impl H256 {
    /// The value whose 32 bytes are all zero.
    pub fn zero() -> (out: H256)
        ensures
            out@ == Seq::new(32, |i: int| 0u8),
    {
        let out = H256([0u8; 32]);
        assert(out@ =~= Seq::new(32, |i: int| 0u8));
        out
    }

    /// Wraps 32 bytes.
    pub fn from_bytes(bytes: [u8; 32]) -> (out: H256)
        ensures
            out.0 == bytes,
            out@ == bytes@,
    {
        H256(bytes)
    }

    /// The 32 bytes of the value.
    pub fn as_bytes(&self) -> (out: &[u8; 32])
        ensures
            out@ == self@,
            *out == self.0,
    {
        &self.0
    }
}

impl PartialEq for H256 {
    fn eq(&self, other: &H256) -> (same: bool) {
        bytes_equal(&self.0, &other.0)
    }
}

impl Eq for H256 {}

impl PartialEqSpecImpl for H256 {
    open spec fn obeys_eq_spec() -> bool {
        true
    }

    open spec fn eq_spec(&self, other: &H256) -> bool {
        self@ == other@
    }
}

} // verus!
