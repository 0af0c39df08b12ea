//! The hashing-and-equality capability a key type must offer.
//!
//! The table hashes with `std`'s `DefaultHasher`.  A key type chooses the
//! bytes it feeds to the hasher as a function of its view alone, so two keys
//! with equal views always land in the same bucket, and it supplies an
//! equality test that decides view equality.

use vstd::prelude::*;
use vstd::std_specs::hash::DefaultHasherAdditionalSpecFns;
use vstd::utf8::encode_utf8;
use vstd::utf8::decode_utf8;
use std::collections::hash_map::DefaultHasher;
use core::hash::Hasher;

verus! {

/// What the table needs of a key type: a deterministic hash, given by the
/// bytes the key feeds to a `DefaultHasher`, and an equality test.
pub trait HashKey: View + Sized {
    /// The bytes this key feeds to the hasher, a function of its view alone.
    spec fn hash_bytes(kv: Self::V) -> Seq<u8>;

    /// Feed the key's bytes to `hasher` as a single `write`.
    fn hash_into(&self, hasher: &mut DefaultHasher)
        ensures
            final(hasher)@ == old(hasher)@.push(Self::hash_bytes(self@)),
    ;

    /// Decide whether this key and `other` have equal views.
    fn key_eq(&self, other: &Self) -> (r: bool)
        ensures
            r == (self@ == other@),
    ;
}

/// The hash a key with view `kv` gets from a fresh `DefaultHasher`.
pub open spec fn hash_of<K: HashKey>(kv: K::V) -> u64 {
    DefaultHasher::spec_finish(seq![K::hash_bytes(kv)])
}

/// Run a fresh `DefaultHasher` over `key`.
pub fn hash_key<K: HashKey>(key: &K) -> (h: u64)
    ensures
        h == hash_of::<K>(key@),
{
    let mut hasher = DefaultHasher::new();
    key.hash_into(&mut hasher);
    proof {
        assert(hasher@ =~= seq![K::hash_bytes(key@)]);
    }
    hasher.finish()
}

/// The eight little-endian bytes of a 64-bit value.
pub open spec fn u64_le_bytes(x: u64) -> Seq<u8> {
    seq![
        (x % 256) as u8,
        ((x / 256) % 256) as u8,
        ((x / 65536) % 256) as u8,
        ((x / 16777216) % 256) as u8,
        ((x / 4294967296) % 256) as u8,
        ((x / 1099511627776) % 256) as u8,
        ((x / 281474976710656) % 256) as u8,
        ((x / 72057594037927936) % 256) as u8,
    ]
}

/// Feed the little-endian bytes of `x` to `hasher` as a single `write`.
fn write_u64_le(hasher: &mut DefaultHasher, x: u64)
    ensures
        final(hasher)@ == old(hasher)@.push(u64_le_bytes(x)),
{
    let mut bytes: Vec<u8> = Vec::new();
    bytes.push((x % 256) as u8);
    bytes.push(((x / 256) % 256) as u8);
    bytes.push(((x / 65536) % 256) as u8);
    bytes.push(((x / 16777216) % 256) as u8);
    bytes.push(((x / 4294967296) % 256) as u8);
    bytes.push(((x / 1099511627776) % 256) as u8);
    bytes.push(((x / 281474976710656) % 256) as u8);
    bytes.push(((x / 72057594037927936) % 256) as u8);
    proof {
        assert(bytes@ =~= u64_le_bytes(x));
    }
    hasher.write(bytes.as_slice());
}

impl HashKey for u64 {
    open spec fn hash_bytes(kv: u64) -> Seq<u8> {
        u64_le_bytes(kv)
    }

    fn hash_into(&self, hasher: &mut DefaultHasher) {
        write_u64_le(hasher, *self);
    }

    fn key_eq(&self, other: &Self) -> (r: bool) {
        *self == *other
    }
}

impl HashKey for u32 {
    open spec fn hash_bytes(kv: u32) -> Seq<u8> {
        u64_le_bytes(kv as u64)
    }

    fn hash_into(&self, hasher: &mut DefaultHasher) {
        write_u64_le(hasher, *self as u64);
    }

    fn key_eq(&self, other: &Self) -> (r: bool) {
        *self == *other
    }
}

impl HashKey for usize {
    open spec fn hash_bytes(kv: usize) -> Seq<u8> {
        u64_le_bytes(kv as u64)
    }

    fn hash_into(&self, hasher: &mut DefaultHasher) {
        write_u64_le(hasher, *self as u64);
    }

    fn key_eq(&self, other: &Self) -> (r: bool) {
        *self == *other
    }
}

/// Decide whether two string slices hold the same characters, by comparing
/// their UTF-8 bytes.
fn str_eq(a: &str, b: &str) -> (r: bool)
    ensures
        r == (a@ == b@),
{
    let ab = a.as_bytes();
    let bb = b.as_bytes();
    if ab.len() != bb.len() {
        false
    } else {
        let n = ab.len();
        let mut i: usize = 0;
        let mut same = true;
        while same && i < n
            invariant
                n == ab@.len(),
                n == bb@.len(),
                i <= n,
                ab@ == encode_utf8(a@),
                bb@ == encode_utf8(b@),
                same ==> forall|k: int| 0 <= k < i ==> ab@[k] == bb@[k],
                !same ==> ab@ != bb@,
            decreases n - i + (if same { 1int } else { 0int }),
        {
            if ab[i] != bb[i] {
                same = false;
            } else {
                i += 1;
            }
        }
        proof {
            if same {
                assert(ab@ =~= bb@);
                broadcast use vstd::utf8::encode_utf8_decode_utf8;

                assert(decode_utf8(encode_utf8(a@)) == a@);
                assert(decode_utf8(encode_utf8(b@)) == b@);
            }
        }
        same
    }
}

impl<'a> HashKey for &'a str {
    open spec fn hash_bytes(kv: Seq<char>) -> Seq<u8> {
        encode_utf8(kv)
    }

    fn hash_into(&self, hasher: &mut DefaultHasher) {
        hasher.write(self.as_bytes());
    }

    fn key_eq(&self, other: &Self) -> (r: bool) {
        str_eq(*self, *other)
    }
}

impl HashKey for String {
    open spec fn hash_bytes(kv: Seq<char>) -> Seq<u8> {
        encode_utf8(kv)
    }

    fn hash_into(&self, hasher: &mut DefaultHasher) {
        hasher.write(self.as_str().as_bytes());
    }

    fn key_eq(&self, other: &Self) -> (r: bool) {
        str_eq(self.as_str(), other.as_str())
    }
}

} // verus!
