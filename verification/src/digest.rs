//! The fixed-width content digest and its derived storage path pieces.

use vstd::prelude::*;
use crate::hex::{hex_ascii, hex_bytes};

verus! {

/// A 32-byte content digest together with its cached lowercase hexadecimal
/// rendering. Equality and path derivation are defined purely over the raw
/// byte sequence; a `Digest` is only ever produced by hashing a canonical
/// object encoding.
pub struct Digest {
    value: Vec<u8>,
    hex: Vec<u8>,
}

impl Digest {
    /// The raw digest bytes.
    pub closed spec fn bytes(&self) -> Seq<u8> {
        self.value@
    }

    #[verifier::type_invariant]
    spec fn inv(self) -> bool {
        &&& self.value@.len() == 32
        &&& self.hex@ == hex_ascii(self.value@)
    }

    /// Wraps raw digest bytes, rendering and caching their hexadecimal form.
    pub(crate) fn from_raw(value: Vec<u8>) -> (r: Digest)
        requires
            value@.len() == 32,
        ensures
            r.bytes() == value@,
    {
        let hex = hex_bytes(value.as_slice());
        Digest { value, hex }
    }

    /// The raw digest bytes; always exactly 32 of them.
    pub fn raw(&self) -> (r: &Vec<u8>)
        ensures
            r@ == self.bytes(),
            r@.len() == 32,
    {
        proof {
            use_type_invariant(self);
        }
        &self.value
    }

    /// The cached lowercase hexadecimal rendering, as ASCII bytes.
    pub fn hex(&self) -> (r: &Vec<u8>)
        ensures
            r@ == hex_ascii(self.bytes()),
            r@.len() == 64,
    {
        proof {
            use_type_invariant(self);
        }
        &self.hex
    }

    /// The shard directory name: the first two hexadecimal characters.
    pub fn shard_dir(&self) -> (r: Vec<u8>)
        ensures
            r@ == hex_ascii(self.bytes()).take(2),
    {
        proof {
            use_type_invariant(self);
        }
        let mut r: Vec<u8> = Vec::new();
        r.push(self.hex[0]);
        r.push(self.hex[1]);
        proof {
            assert(r@ =~= hex_ascii(self.bytes()).take(2));
        }
        r
    }

    /// The object file name: the remaining 62 hexadecimal characters.
    pub fn file_name(&self) -> (r: Vec<u8>)
        ensures
            r@ == hex_ascii(self.bytes()).skip(2),
    {
        proof {
            use_type_invariant(self);
        }
        let mut r: Vec<u8> = Vec::new();
        let mut i: usize = 2;
        while i < self.hex.len()
            invariant
                2 <= i <= self.hex@.len(),
                self.inv(),
                r@ == self.hex@.subrange(2, i as int),
            decreases self.hex@.len() - i,
        {
            r.push(self.hex[i]);
            i += 1;
            proof {
                assert(r@ =~= self.hex@.subrange(2, i as int));
            }
        }
        proof {
            assert(r@ =~= hex_ascii(self.bytes()).skip(2));
        }
        r
    }

    /// True exactly when the two digests hold the same raw bytes.
    pub fn equals(&self, other: &Digest) -> (r: bool)
        ensures
            r == (self.bytes() == other.bytes()),
    {
        proof {
            use_type_invariant(self);
            use_type_invariant(other);
        }
        let mut i: usize = 0;
        while i < 32
            invariant
                i <= 32,
                self.bytes().len() == 32,
                other.bytes().len() == 32,
                self.bytes().take(i as int) == other.bytes().take(i as int),
            decreases 32 - i,
        {
            if self.value[i] != other.value[i] {
                proof {
                    assert(self.bytes()[i as int] != other.bytes()[i as int]);
                }
                return false;
            }
            i += 1;
            proof {
                assert(self.bytes().take(i as int) =~= other.bytes().take(i as int));
            }
        }
        proof {
            assert(self.bytes().take(32) =~= self.bytes());
            assert(other.bytes().take(32) =~= other.bytes());
        }
        true
    }
}

impl Clone for Digest {
    /// A clone holds the same raw bytes (and so the same rendering).
    fn clone(&self) -> (r: Digest)
        ensures
            r.bytes() == self.bytes(),
    {
        proof {
            use_type_invariant(self);
        }
        Digest { value: self.value.clone(), hex: self.hex.clone() }
    }
}

} // verus!
