//! Keys for the hash map: the map's fixed general-purpose hash function,
//! and a trait tying each key type's executable hash and equality test to
//! their specification-level meaning.
//!
//! The hash is computed over a byte encoding of the key: a multiply-and-add
//! accumulation over the bytes followed by a finalizer that folds the high
//! bits into the low ones, so that reducing the hash modulo a small bucket
//! count still sees every bit of the key.

use vstd::prelude::*;
use vstd::bytes::{spec_u64_to_le_bytes, u64_to_le_bytes};
use vstd::utf8::encode_utf8;

verus! {

/// One accumulation step: the running word times 33, plus the next byte,
/// kept to 64 bits.
pub open spec fn spec_accum_step(h: u64, b: u8) -> u64 {
    (((h as int) * 33 + b) % 0x1_0000_0000_0000_0000) as u64
}

/// The word accumulated over a whole byte sequence, starting from a fixed
/// odd seed.
pub open spec fn spec_accum(bs: Seq<u8>) -> u64
    decreases bs.len(),
{
    if bs.len() == 0 {
        5381u64
    } else {
        spec_accum_step(spec_accum(bs.drop_last()), bs.last())
    }
}

/// The finalizer: two rounds of shift-xor and multiply that spread every
/// bit of the accumulated word into the low bits.
pub open spec fn spec_mix64(h0: u64) -> u64 {
    let h1 = h0 ^ (h0 >> 33);
    let h2 = (((h1 as int) * 0xff51afd7ed558ccd) % 0x1_0000_0000_0000_0000) as u64;
    let h3 = h2 ^ (h2 >> 33);
    let h4 = (((h3 as int) * 0xc4ceb9fe1a85ec53) % 0x1_0000_0000_0000_0000) as u64;
    h4 ^ (h4 >> 33)
}

/// The map's fixed 64-bit hash of a byte sequence.
pub open spec fn bytes_hash(bs: Seq<u8>) -> u64 {
    spec_mix64(spec_accum(bs))
}

/// Computes `spec_mix64`.
fn mix64(h0: u64) -> (r: u64)
    ensures
        r == spec_mix64(h0),
{
    let h1 = h0 ^ (h0 >> 33);
    let h2 = (((h1 as u128) * 0xff51afd7ed558ccdu128) % 0x1_0000_0000_0000_0000u128) as u64;
    let h3 = h2 ^ (h2 >> 33);
    let h4 = (((h3 as u128) * 0xc4ceb9fe1a85ec53u128) % 0x1_0000_0000_0000_0000u128) as u64;
    h4 ^ (h4 >> 33)
}

/// Computes `bytes_hash` over a byte slice.
fn hash_bytes(bs: &[u8]) -> (r: u64)
    ensures
        r == bytes_hash(bs@),
{
    let mut h: u64 = 5381;
    let n = bs.len();
    proof {
        assert(bs@.take(0) =~= Seq::<u8>::empty());
    }
    let mut j: usize = 0;
    while j < n
        invariant
            j <= n,
            n == bs@.len(),
            h == spec_accum(bs@.take(j as int)),
        decreases n - j,
    {
        let b = bs[j];
        h = (((h as u128) * 33 + b as u128) % 0x1_0000_0000_0000_0000u128) as u64;
        proof {
            assert(bs@.take(j as int + 1).drop_last() =~= bs@.take(j as int));
            assert(bs@.take(j as int + 1).last() == bs@[j as int]);
        }
        j += 1;
    }
    proof {
        assert(bs@.take(n as int) =~= bs@);
    }
    mix64(h)
}

/// A key type usable by the map: it carries a deterministic hash, a function
/// of the key's abstract value alone, and an equality test that decides
/// equality of abstract values. Both are demands the map's routing places on
/// its keys; any type that can meet them can serve as a key.
pub trait HashKey: View + Sized {
    /// The hash of a key with abstract value `kv`.
    spec fn key_hash(kv: Self::V) -> u64;

    /// Computes the hash that `key_hash` denotes.
    fn hash_key(&self) -> (h: u64)
        ensures
            h == Self::key_hash(self@),
    ;

    /// Decides equality of abstract values.
    fn eq_key(&self, other: &Self) -> (eq: bool)
        ensures
            eq == (self@ == other@),
    ;
}

impl HashKey for u64 {
    open spec fn key_hash(kv: u64) -> u64 {
        bytes_hash(spec_u64_to_le_bytes(kv))
    }

    fn hash_key(&self) -> (h: u64) {
        let bytes = u64_to_le_bytes(*self);
        hash_bytes(bytes.as_slice())
    }

    fn eq_key(&self, other: &Self) -> (eq: bool) {
        *self == *other
    }
}

/// The bit pattern of an `i32`, shifted into the non-negative range so that
/// the hashed bytes are computed without any truncating cast.
pub open spec fn i32_key_bits(x: i32) -> u64 {
    if x >= 0 {
        x as u64
    } else {
        (x + 0x1_0000_0000) as u64
    }
}

impl HashKey for i32 {
    open spec fn key_hash(kv: i32) -> u64 {
        bytes_hash(spec_u64_to_le_bytes(i32_key_bits(kv)))
    }

    fn hash_key(&self) -> (h: u64) {
        let bits: u64 = if *self >= 0 {
            *self as u64
        } else {
            (*self as i64 + 0x1_0000_0000i64) as u64
        };
        proof {
            assert(bits == i32_key_bits(*self));
        }
        let bytes = u64_to_le_bytes(bits);
        hash_bytes(bytes.as_slice())
    }

    fn eq_key(&self, other: &Self) -> (eq: bool) {
        *self == *other
    }
}

impl HashKey for String {
    open spec fn key_hash(kv: Seq<char>) -> u64 {
        bytes_hash(encode_utf8(kv))
    }

    fn hash_key(&self) -> (h: u64) {
        hash_bytes(self.as_str().as_bytes())
    }

    fn eq_key(&self, other: &Self) -> (eq: bool) {
        self.eq(other)
    }
}

} // verus!
