//! The hashing capability that key types supply to the table.

use std::collections::hash_map::DefaultHasher;
use std::hash::Hasher;

use vstd::prelude::*;
use vstd::std_specs::hash::DefaultHasherAdditionalSpecFns;
use vstd::utf8::encode_utf8;

verus! {

/// A key type usable in the table: it can be mapped deterministically to a
/// fixed-width integer digest, and compared for equality.
///
/// Both operations are specified against the key's abstract value (its
/// [`View`]): the digest is a function of the abstract value alone, so equal
/// keys always hash alike, and `key_eq` agrees with equality of abstract
/// values.
pub trait HashKey: View + Sized {
    /// The digest of a key, as a function of its abstract value.
    spec fn digest_spec(m: Self::V) -> u64;

    /// Computes this key's digest.
    fn digest(&self) -> (d: u64)
        ensures
            d == Self::digest_spec(self@),
    ;

    /// Tests whether two keys have the same abstract value.
    fn key_eq(&self, other: &Self) -> (b: bool)
        ensures
            b == (self@ == other@),
    ;
}

impl HashKey for u64 {
    open spec fn digest_spec(m: u64) -> u64 {
        m
    }

    fn digest(&self) -> (d: u64) {
        *self
    }

    fn key_eq(&self, other: &Self) -> (b: bool) {
        *self == *other
    }
}

/// The digest the standard hasher assigns to a character sequence hashed as
/// one write of its UTF-8 bytes.
pub open spec fn str_digest_spec(m: Seq<char>) -> u64 {
    DefaultHasher::spec_finish(Seq::<Seq<u8>>::empty().push(encode_utf8(m)))
}

/// Byte-for-byte slice equality.
fn bytes_eq(a: &[u8], b: &[u8]) -> (r: bool)
    ensures
        r == (a@ == b@),
{
    if a.len() != b.len() {
        return false;
    }
    let mut i: usize = 0;
    while i < a.len()
        invariant
            i <= a@.len(),
            a@.len() == b@.len(),
            forall|t: int| 0 <= t < i ==> a@[t] == b@[t],
        decreases a@.len() - i,
    {
        if a[i] != b[i] {
            return false;
        }
        i += 1;
    }
    proof {
        assert(a@ =~= b@);
    }
    true
}

/// Computes the standard hasher's digest of a string's UTF-8 bytes.
fn str_digest(s: &str) -> (d: u64)
    ensures
        d == str_digest_spec(s@),
{
    let mut hasher = DefaultHasher::new();
    hasher.write(s.as_bytes());
    hasher.finish()
}

impl HashKey for &'static str {
    open spec fn digest_spec(m: Seq<char>) -> u64 {
        str_digest_spec(m)
    }

    fn digest(&self) -> (d: u64) {
        str_digest(*self)
    }

    fn key_eq(&self, other: &Self) -> (b: bool) {
        let r = bytes_eq((*self).as_bytes(), (*other).as_bytes());
        proof {
            // UTF-8 encoding is injective: decoding the encoding gives the
            // characters back, so equal bytes mean equal character sequences
            vstd::utf8::encode_utf8_decode_utf8(self@);
            vstd::utf8::encode_utf8_decode_utf8(other@);
        }
        r
    }
}

impl HashKey for String {
    open spec fn digest_spec(m: Seq<char>) -> u64 {
        str_digest_spec(m)
    }

    fn digest(&self) -> (d: u64) {
        str_digest(self.as_str())
    }

    fn key_eq(&self, other: &Self) -> (b: bool) {
        *self == *other
    }
}

} // verus!
