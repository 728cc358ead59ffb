//! The value that is hashed to test a proof of work, and its canonical bytes.
//!
//! The encoding is the three fields one after the other, each 32 bytes wide:
//! the pre-hash as it is, the difficulty as a little-endian 256-bit integer,
//! and the nonce as it is.

use vstd::prelude::*;
use vstd::bytes::{
    lemma_auto_spec_u64_to_from_le_bytes, spec_u64_to_le_bytes, u64_from_le_bytes, u64_to_le_bytes,
};
use vstd::slice::slice_subrange;
use vstd::std_specs::cmp::PartialEqSpecImpl;
use crate::hash::H256;

verus! {

/// The number of bytes of an encoded `Calculation`.
pub const ENCODED_LEN: usize = 96;

/// A 256-bit unsigned difficulty target, as four 64-bit limbs, the least
/// significant first.
#[derive(Clone, Copy, Debug)]
pub struct Difficulty(pub [u64; 4]);

impl Difficulty {
    /// The number that the limbs stand for.
    pub open spec fn value(&self) -> nat {
        (self.0@[0] as nat) + (self.0@[1] as nat) * 0x1_0000_0000_0000_0000 + (self.0@[2] as nat)
            * 0x1_0000_0000_0000_0000 * 0x1_0000_0000_0000_0000 + (self.0@[3] as nat)
            * 0x1_0000_0000_0000_0000 * 0x1_0000_0000_0000_0000 * 0x1_0000_0000_0000_0000
    }

    /// The 32 bytes of the difficulty, the least significant first.
    pub open spec fn le_bytes(&self) -> Seq<u8> {
        spec_u64_to_le_bytes(self.0@[0]) + spec_u64_to_le_bytes(self.0@[1]) + spec_u64_to_le_bytes(
            self.0@[2],
        ) + spec_u64_to_le_bytes(self.0@[3])
    }

    /// The difficulty zero.
    pub fn zero() -> (out: Difficulty)
        ensures
            out.0@ == seq![0u64, 0u64, 0u64, 0u64],
            out.value() == 0,
    {
        let out = Difficulty([0u64; 4]);
        assert(out.0@ =~= seq![0u64, 0u64, 0u64, 0u64]);
        out
    }

    /// The largest difficulty: every bit set.
    pub fn max_value() -> (out: Difficulty)
        ensures
            out.0@ == seq![u64::MAX, u64::MAX, u64::MAX, u64::MAX],
    {
        let out = Difficulty([u64::MAX; 4]);
        assert(out.0@ =~= seq![u64::MAX, u64::MAX, u64::MAX, u64::MAX]);
        out
    }

    /// The difficulty with the value of a 64-bit integer.
    pub fn from_u64(low: u64) -> (out: Difficulty)
        ensures
            out.0@ == seq![low, 0u64, 0u64, 0u64],
            out.value() == low,
    {
        let out = Difficulty([low, 0u64, 0u64, 0u64]);
        assert(out.0@ =~= seq![low, 0u64, 0u64, 0u64]);
        out
    }
}

impl PartialEq for Difficulty {
    fn eq(&self, other: &Difficulty) -> (same: bool) {
        let same = self.0[0] == other.0[0] && self.0[1] == other.0[1] && self.0[2] == other.0[2]
            && self.0[3] == other.0[3];
        proof {
            if same {
                assert(self.0@ =~= other.0@);
            }
        }
        same
    }
}

impl Eq for Difficulty {}

impl PartialEqSpecImpl for Difficulty {
    open spec fn obeys_eq_spec() -> bool {
        true
    }

    open spec fn eq_spec(&self, other: &Difficulty) -> bool {
        self.0@ == other.0@
    }
}

/// The value hashed in one proof-of-work attempt.
#[derive(Clone, Copy, Debug)]
pub struct Calculation {
    pub pre_hash: H256,
    pub difficulty: Difficulty,
    pub nonce: H256,
}

impl PartialEq for Calculation {
    fn eq(&self, other: &Calculation) -> (same: bool) {
        self.pre_hash == other.pre_hash && self.difficulty == other.difficulty && self.nonce
            == other.nonce
    }
}

impl Eq for Calculation {}

impl PartialEqSpecImpl for Calculation {
    open spec fn obeys_eq_spec() -> bool {
        true
    }

    open spec fn eq_spec(&self, other: &Calculation) -> bool {
        &&& self.pre_hash@ == other.pre_hash@
        &&& self.difficulty.0@ == other.difficulty.0@
        &&& self.nonce@ == other.nonce@
    }
}

/// The value that a sequence of bytes decodes to: the one whose encoding is
/// the first `ENCODED_LEN` bytes, and none for a shorter sequence.
pub open spec fn decoded(input: Seq<u8>) -> Option<Calculation> {
    if input.len() >= ENCODED_LEN {
        Some(choose|c: Calculation| c.encoding() == input.subrange(0, ENCODED_LEN as int))
    } else {
        None
    }
}

impl Calculation {
    /// The canonical bytes of the value.
    pub open spec fn encoding(&self) -> Seq<u8> {
        self.pre_hash@ + self.difficulty.le_bytes() + self.nonce@
    }

    /// Encodes the value as its `ENCODED_LEN` canonical bytes.
    pub fn encode(&self) -> (out: Vec<u8>)
        ensures
            out@ == self.encoding(),
            out@.len() == ENCODED_LEN,
    {
        let mut out: Vec<u8> = Vec::new();
        out.extend_from_slice(self.pre_hash.0.as_slice());
        let mut i: usize = 0;
        while i < 4
            invariant
                i <= 4,
                out@ == self.pre_hash@ + limb_bytes(self.difficulty, i as int),
            decreases 4 - i,
        {
            let limb = u64_to_le_bytes(self.difficulty.0[i]);
            out.extend_from_slice(limb.as_slice());
            proof {
                assert(out@ =~= self.pre_hash@ + limb_bytes(self.difficulty, i + 1));
            }
            i += 1;
        }
        out.extend_from_slice(self.nonce.0.as_slice());
        proof {
            lemma_limb_bytes(self.difficulty);
        }
        out
    }

    /// Decodes a value from the first `ENCODED_LEN` bytes of `input`; bytes
    /// after them are left aside. Fails exactly where `input` is shorter.
    pub fn decode(input: &[u8]) -> (out: Option<Calculation>)
        ensures
            out == decoded(input@),
            out is Some <==> input@.len() >= ENCODED_LEN,
            out matches Some(c) ==> c.encoding() == input@.subrange(0, ENCODED_LEN as int),
    {
        if input.len() < ENCODED_LEN {
            return None;
        }
        let pre_hash = read_hash(input, 0);
        let d0 = read_limb(input, 32);
        let d1 = read_limb(input, 40);
        let d2 = read_limb(input, 48);
        let d3 = read_limb(input, 56);
        let nonce = read_hash(input, 64);
        let c = Calculation { pre_hash, difficulty: Difficulty([d0, d1, d2, d3]), nonce };
        proof {
            assert(c.encoding() =~= input@.subrange(0, ENCODED_LEN as int));
            let other = decoded(input@).unwrap();
            lemma_encoding_injective(c, other);
        }
        Some(c)
    }
}

/// The bytes of the first `count` limbs of a difficulty.
pub open spec fn limb_bytes(difficulty: Difficulty, count: int) -> Seq<u8>
    decreases count,
{
    if count <= 0 {
        Seq::empty()
    } else {
        limb_bytes(difficulty, count - 1) + spec_u64_to_le_bytes(difficulty.0@[count - 1])
    }
}

/// The bytes of all four limbs are the little-endian bytes of the difficulty,
/// 32 in number.
pub proof fn lemma_limb_bytes(difficulty: Difficulty)
    ensures
        limb_bytes(difficulty, 4) == difficulty.le_bytes(),
        difficulty.le_bytes().len() == 32,
{
    lemma_auto_spec_u64_to_from_le_bytes();
    reveal_with_fuel(limb_bytes, 5);
    assert(limb_bytes(difficulty, 4) =~= difficulty.le_bytes());
}

/// Reads 32 bytes of `input`, from `start` on, as a 256-bit value.
fn read_hash(input: &[u8], start: usize) -> (out: H256)
    requires
        start + 32 <= input@.len(),
    ensures
        out@ == input@.subrange(start as int, start + 32),
{
    let len: usize = input.len();
    let mut bytes = [0u8; 32];
    let mut i: usize = 0;
    while i < 32
        invariant
            i <= 32,
            start + 32 <= input@.len() == len,
            forall|j: int| 0 <= j < i ==> bytes@[j] == input@[start + j],
        decreases 32 - i,
    {
        bytes[i] = input[start + i];
        i += 1;
    }
    assert(bytes@ =~= input@.subrange(start as int, start + 32));
    H256(bytes)
}

/// Reads 8 bytes of `input`, from `start` on, as a little-endian integer.
fn read_limb(input: &[u8], start: usize) -> (limb: u64)
    requires
        start + 8 <= input@.len(),
    ensures
        spec_u64_to_le_bytes(limb) == input@.subrange(start as int, start + 8),
{
    let len: usize = input.len();
    let part = slice_subrange(input, start, start + 8);
    proof {
        lemma_auto_spec_u64_to_from_le_bytes();
    }
    u64_from_le_bytes(part)
}

/// Two values with the same encoding are the same value.
pub proof fn lemma_encoding_injective(a: Calculation, b: Calculation)
    requires
        a.encoding() == b.encoding(),
    ensures
        a == b,
{
    lemma_auto_spec_u64_to_from_le_bytes();
    let ea = a.encoding();
    let eb = b.encoding();
    assert(ea.subrange(0, 32) =~= a.pre_hash@);
    assert(eb.subrange(0, 32) =~= b.pre_hash@);
    assert(ea.subrange(32, 40) =~= spec_u64_to_le_bytes(a.difficulty.0@[0]));
    assert(eb.subrange(32, 40) =~= spec_u64_to_le_bytes(b.difficulty.0@[0]));
    assert(ea.subrange(40, 48) =~= spec_u64_to_le_bytes(a.difficulty.0@[1]));
    assert(eb.subrange(40, 48) =~= spec_u64_to_le_bytes(b.difficulty.0@[1]));
    assert(ea.subrange(48, 56) =~= spec_u64_to_le_bytes(a.difficulty.0@[2]));
    assert(eb.subrange(48, 56) =~= spec_u64_to_le_bytes(b.difficulty.0@[2]));
    assert(ea.subrange(56, 64) =~= spec_u64_to_le_bytes(a.difficulty.0@[3]));
    assert(eb.subrange(56, 64) =~= spec_u64_to_le_bytes(b.difficulty.0@[3]));
    assert(ea.subrange(64, 96) =~= a.nonce@);
    assert(eb.subrange(64, 96) =~= b.nonce@);
    assert(a.pre_hash.0 =~= b.pre_hash.0);
    assert(a.nonce.0 =~= b.nonce.0);
    assert(a.difficulty.0 =~= b.difficulty.0);
}

/// Decoding what was encoded gives the value back, whatever its fields hold,
/// and also when other bytes follow the encoding.
pub proof fn lemma_decode_encode(c: Calculation, rest: Seq<u8>)
    ensures
        c.encoding().len() == ENCODED_LEN,
        decoded(c.encoding()) == Some(c),
        decoded(c.encoding() + rest) == Some(c),
{
    lemma_limb_bytes(c.difficulty);
    let input = c.encoding() + rest;
    assert(input.subrange(0, ENCODED_LEN as int) =~= c.encoding());
    assert(c.encoding().subrange(0, ENCODED_LEN as int) =~= c.encoding());
    lemma_encoding_injective(decoded(input).unwrap(), c);
    lemma_encoding_injective(decoded(c.encoding()).unwrap(), c);
}

} // verus!
