//! Fixed-width binary codewords stored as plain bytes.

use vstd::prelude::*;
use crate::bits::{hamming, hamming_upto, popcount_byte, lemma_hamming_upto_le};

verus! {

/// One entry of a codebook: a bit string of `width` bytes (`8 * width`
/// bits), owned by its position in the codebook.
#[derive(Clone)]
pub struct Codeword {
    bytes: Vec<u8>,
}

/// The word with the single bit `bit` of byte `byte` inverted.
pub open spec fn flip(w: Seq<u8>, byte: int, bit: u8) -> Seq<u8> {
    w.update(byte, w[byte] ^ (1u8 << bit))
}

impl View for Codeword {
    type V = Seq<u8>;

    closed spec fn view(&self) -> Seq<u8> {
        self.bytes@
    }
}

impl Codeword {
    /// A zero-valued codeword of `width` bytes.
    pub fn zeros(width: usize) -> (r: Codeword)
        ensures
            r@.len() == width,
            forall|i: int| 0 <= i < width ==> r@[i] == 0u8,
    {
        let mut bytes: Vec<u8> = Vec::new();
        let mut i: usize = 0;
        while i < width
            invariant
                i <= width,
                bytes@.len() == i,
                forall|j: int| 0 <= j < i ==> bytes@[j] == 0u8,
            decreases width - i,
        {
            bytes.push(0u8);
            i = i + 1;
        }
        Codeword { bytes }
    }

    /// A codeword owning the given bytes.
    pub fn from_bytes(bytes: Vec<u8>) -> (r: Codeword)
        ensures
            r@ == bytes@,
    {
        Codeword { bytes }
    }

    /// Width in bytes.
    pub fn width(&self) -> (r: usize)
        ensures
            r == self@.len(),
    {
        self.bytes.len()
    }

    /// The byte at position `i`.
    pub fn byte(&self, i: usize) -> (r: u8)
        requires
            i < self@.len(),
        ensures
            r == self@[i as int],
    {
        self.bytes[i]
    }

    /// Replace the byte at position `i`.
    pub fn set_byte(&mut self, i: usize, v: u8)
        requires
            i < old(self)@.len(),
        ensures
            final(self)@ == old(self)@.update(i as int, v),
    {
        self.bytes.set(i, v);
    }

    /// Invert one bit: bit `bit` of byte `byte`.
    pub fn flip_bit(&mut self, byte: usize, bit: u8)
        requires
            byte < old(self)@.len(),
            bit < 8,
        ensures
            final(self)@ == flip(old(self)@, byte as int, bit),
            final(self)@.len() == old(self)@.len(),
    {
        let m: u8 = 1u8 << bit;
        let b = self.bytes[byte];
        self.bytes.set(byte, b ^ m);
    }

    /// An independent copy: mutating it leaves `self` untouched.
    pub fn duplicate(&self) -> (r: Codeword)
        ensures
            r@ == self@,
    {
        let mut bytes: Vec<u8> = Vec::new();
        let mut i: usize = 0;
        while i < self.bytes.len()
            invariant
                i <= self@.len(),
                bytes@.len() == i,
                forall|j: int| 0 <= j < i ==> bytes@[j] == self@[j],
            decreases self@.len() - i,
        {
            bytes.push(self.bytes[i]);
            i = i + 1;
        }
        proof {
            assert(bytes@ =~= self@);
        }
        Codeword { bytes }
    }

    /// Whether both words hold the same bytes.
    pub fn same_bytes(&self, other: &Codeword) -> (r: bool)
        ensures
            r == (self@ == other@),
    {
        if self.bytes.len() != other.bytes.len() {
            proof {
                assert(self@ != other@);
            }
            return false;
        }
        let mut i: usize = 0;
        while i < self.bytes.len()
            invariant
                i <= self@.len(),
                self@.len() == other@.len(),
                forall|j: int| 0 <= j < i ==> self@[j] == other@[j],
            decreases self@.len() - i,
        {
            if self.bytes[i] != other.bytes[i] {
                proof {
                    assert(self@[i as int] != other@[i as int]);
                }
                return false;
            }
            i = i + 1;
        }
        proof {
            assert(self@ =~= other@);
        }
        true
    }

    /// Hamming distance to `other`: the count of differing bits.
    pub fn distance(&self, other: &Codeword) -> (r: u64)
        requires
            self@.len() == other@.len(),
            8 * self@.len() <= u64::MAX,
        ensures
            r as nat == hamming(self@, other@),
            r <= 8 * self@.len(),
    {
        let mut acc: u64 = 0;
        let mut i: usize = 0;
        while i < self.bytes.len()
            invariant
                i <= self@.len(),
                self@.len() == other@.len(),
                8 * self@.len() <= u64::MAX,
                acc as nat == hamming_upto(self@, other@, i as int),
                acc <= 8 * i,
            decreases self@.len() - i,
        {
            let p = popcount_byte(self.bytes[i] ^ other.bytes[i]);
            proof {
                crate::bits::lemma_pop8_le(self@[i as int] ^ other@[i as int]);
            }
            acc = acc + p as u64;
            i = i + 1;
        }
        proof {
            lemma_hamming_upto_le(self@, other@, i as int);
        }
        acc
    }
}

} // verus!
