//! 256-bit digests and the canonical byte encoding that they are taken over.
use crate::primitives::{sha256, sha256_of};
use crate::uint::U256;
use vstd::prelude::*;

verus! {

/// A SHA-256 digest read as a big-endian 256-bit number.
#[derive(Clone, Copy, Debug, PartialEq, Eq, Structural)]
pub struct Hash {
    pub num: U256,
}

/// The big-endian number in the eight bytes of `d` from `k` on.
pub open spec fn be64(d: Seq<u8>, k: int) -> nat {
    d[k] as nat * 0x100000000000000 + d[k + 1] as nat * 0x1000000000000 + d[k + 2] as nat
        * 0x10000000000 + d[k + 3] as nat * 0x100000000 + d[k + 4] as nat * 0x1000000 + d[k + 5] as nat
        * 0x10000 + d[k + 6] as nat * 0x100 + d[k + 7] as nat
}

/// The hash whose big-endian bytes are the 32-byte digest `d`.
pub open spec fn hash_of_digest(d: Seq<u8>) -> Hash {
    Hash {
        num: U256 {
            w3: be64(d, 0) as u64,
            w2: be64(d, 8) as u64,
            w1: be64(d, 16) as u64,
            w0: be64(d, 24) as u64,
        },
    }
}

/// The hash of a byte string: its SHA-256 digest, read big-endian.
pub open spec fn hash_of_bytes(b: Seq<u8>) -> Hash {
    hash_of_digest(sha256_of(b))
}

/// Eight big-endian bytes of a word.
pub open spec fn enc_u64(x: u64) -> Seq<u8> {
    seq![
        (x / 0x100000000000000 % 256) as u8,
        (x / 0x1000000000000 % 256) as u8,
        (x / 0x10000000000 % 256) as u8,
        (x / 0x100000000 % 256) as u8,
        (x / 0x1000000 % 256) as u8,
        (x / 0x10000 % 256) as u8,
        (x / 0x100 % 256) as u8,
        (x % 256) as u8,
    ]
}

/// Sixteen big-endian bytes of a 128-bit value.
pub open spec fn enc_u128(x: u128) -> Seq<u8> {
    enc_u64((x / 0x1_0000_0000_0000_0000) as u64) + enc_u64((x % 0x1_0000_0000_0000_0000) as u64)
}

/// Thirty-two big-endian bytes of a 256-bit value.
pub open spec fn enc_u256(x: U256) -> Seq<u8> {
    enc_u64(x.w3) + enc_u64(x.w2) + enc_u64(x.w1) + enc_u64(x.w0)
}

/// A byte string preceded by its length.
pub open spec fn enc_bytes(b: Seq<u8>) -> Seq<u8> {
    enc_u64(b.len() as u64) + b
}

/// Appends the eight big-endian bytes of `x`.
pub fn put_u64(out: &mut Vec<u8>, x: u64)
    ensures
        final(out)@ == old(out)@ + enc_u64(x),
{
    out.push((x / 0x100000000000000 % 256) as u8);
    out.push((x / 0x1000000000000 % 256) as u8);
    out.push((x / 0x10000000000 % 256) as u8);
    out.push((x / 0x100000000 % 256) as u8);
    out.push((x / 0x1000000 % 256) as u8);
    out.push((x / 0x10000 % 256) as u8);
    out.push((x / 0x100 % 256) as u8);
    out.push((x % 256) as u8);
    assert(out@ =~= old(out)@ + enc_u64(x));
}

/// Appends the sixteen big-endian bytes of `x`.
pub fn put_u128(out: &mut Vec<u8>, x: u128)
    ensures
        final(out)@ == old(out)@ + enc_u128(x),
{
    put_u64(out, (x / 0x1_0000_0000_0000_0000) as u64);
    put_u64(out, (x % 0x1_0000_0000_0000_0000) as u64);
    assert(out@ =~= old(out)@ + enc_u128(x));
}

/// Appends the thirty-two big-endian bytes of `x`.
pub fn put_u256(out: &mut Vec<u8>, x: &U256)
    ensures
        final(out)@ == old(out)@ + enc_u256(*x),
{
    put_u64(out, x.w3);
    put_u64(out, x.w2);
    put_u64(out, x.w1);
    put_u64(out, x.w0);
    assert(out@ =~= old(out)@ + enc_u256(*x));
}

/// Appends a byte string preceded by its length.
pub fn put_bytes(out: &mut Vec<u8>, b: &[u8])
    ensures
        final(out)@ == old(out)@ + enc_bytes(b@),
{
    put_u64(out, b.len() as u64);
    let ghost mid = out@;
    let mut i: usize = 0;
    while i < b.len()
        invariant
            0 <= i <= b@.len(),
            out@ == mid + b@.subrange(0, i as int),
        decreases b@.len() - i,
    {
        out.push(b[i]);
        i += 1;
        assert(out@ =~= mid + b@.subrange(0, i as int));
    }
    assert(b@.subrange(0, b@.len() as int) =~= b@);
}

fn be64_at(d: &Vec<u8>, k: usize) -> (r: u64)
    requires
        k <= 24,
        d@.len() == 32,
    ensures
        r as nat == be64(d@, k as int),
{
    (d[k] as u64) * 0x100000000000000 + (d[k + 1] as u64) * 0x1000000000000 + (d[k + 2] as u64)
        * 0x10000000000 + (d[k + 3] as u64) * 0x100000000 + (d[k + 4] as u64) * 0x1000000 + (d[k
        + 5] as u64) * 0x10000 + (d[k + 6] as u64) * 0x100 + (d[k + 7] as u64)
}

impl Hash {
    /// The all-zero hash, which a genesis block names as its predecessor.
    pub fn zero() -> (r: Hash)
        ensures
            r.num.value() == 0,
            r == Hash::spec_zero(),
    {
        Hash { num: U256::zero() }
    }

    pub open spec fn spec_zero() -> Hash {
        Hash { num: U256 { w0: 0, w1: 0, w2: 0, w3: 0 } }
    }

    /// The hash of a byte string.
    pub fn of_bytes(b: &[u8]) -> (r: Hash)
        ensures
            r == hash_of_bytes(b@),
    {
        let d = sha256(b);
        Hash {
            num: U256 {
                w3: be64_at(&d, 0),
                w2: be64_at(&d, 8),
                w1: be64_at(&d, 16),
                w0: be64_at(&d, 24),
            },
        }
    }

    /// Whether the hash, as a number, is at most `target`.
    pub fn matches_target(&self, target: &U256) -> (r: bool)
        ensures
            r == (self.num.value() <= target.value()),
    {
        self.num.le(target)
    }

    /// The thirty-two big-endian bytes of the hash.
    pub fn as_bytes(&self) -> (r: Vec<u8>)
        ensures
            r@ == enc_u256(self.num),
    {
        let mut out: Vec<u8> = Vec::new();
        put_u256(&mut out, &self.num);
        assert(out@ =~= enc_u256(self.num));
        out
    }

    /// Equality of two hashes.
    pub fn equals(&self, other: &Hash) -> (r: bool)
        ensures
            r == (*self == *other),
    {
        self.num.is_equal(&other.num)
    }
}

} // verus!
