//! Keys, signatures over output hashes, and Base58Check addresses.
use crate::hash::enc_u256;
use crate::primitives::{
    base58_decode, base58_encode, base58_of, derive_public_key, ecdsa_sign, ecdsa_verify,
    mnemonic_seed_of, mnemonic_to_seed, mnemonic_valid, public_key_of, random_secret_key,
    ripemd160, ripemd160_of, secret_key_check, secret_key_valid, sha256, sha256_of,
    signature_of, signature_verifies,
};
use vstd::prelude::*;

verus! {

/// An ECDSA signature over secp256k1, as its 64 bytes `r ‖ s`.
#[derive(Debug)]
pub struct Signature {
    pub bytes: Vec<u8>,
}

/// A secp256k1 public key, as its compressed SEC1 bytes.
#[derive(Debug)]
pub struct PublicKey {
    pub bytes: Vec<u8>,
}

impl View for Signature {
    type V = Seq<u8>;

    open spec fn view(&self) -> Seq<u8> {
        self.bytes@
    }
}

impl View for PublicKey {
    type V = Seq<u8>;

    open spec fn view(&self) -> Seq<u8> {
        self.bytes@
    }
}

impl Clone for Signature {
    fn clone(&self) -> (r: Signature)
        ensures
            r@ == self@,
    {
        let bytes = self.bytes.clone();
        assert(bytes@ =~= self.bytes@);
        Signature { bytes }
    }
}

impl Clone for PublicKey {
    fn clone(&self) -> (r: PublicKey)
        ensures
            r@ == self@,
    {
        let bytes = self.bytes.clone();
        assert(bytes@ =~= self.bytes@);
        PublicKey { bytes }
    }
}


/// A secp256k1 secret key, as its 32-byte scalar.
pub struct PrivateKey {
    bytes: Vec<u8>,
}

/// The version byte that every address starts with.
pub const ADDRESS_VERSION: u8 = 0;

/// The four-byte checksum of an address payload: the start of its double SHA-256.
pub open spec fn checksum_of(payload: Seq<u8>) -> Seq<u8> {
    sha256_of(sha256_of(payload)).subrange(0, 4)
}

/// The version byte followed by RIPEMD-160(SHA-256(public key)).
pub open spec fn address_payload(pk: Seq<u8>) -> Seq<u8> {
    seq![ADDRESS_VERSION] + ripemd160_of(sha256_of(pk))
}

/// The bytes that an address encodes: payload, then checksum.
pub open spec fn address_bytes(pk: Seq<u8>) -> Seq<u8> {
    address_payload(pk) + checksum_of(address_payload(pk))
}

/// The Base58Check address of a public key.
pub open spec fn address_of(pk: Seq<u8>) -> Seq<char> {
    base58_of(address_bytes(pk))
}

/// Whether decoded address bytes are well formed: at least 25 bytes, a
/// matching checksum and the version byte.
pub open spec fn address_bytes_valid(b: Seq<u8>) -> bool {
    b.len() >= 25 && b.subrange(b.len() - 4, b.len() as int) == checksum_of(b.subrange(0, b.len() - 4))
        && b[0] == ADDRESS_VERSION
}

/// The message that a signature over an output hash signs.
pub open spec fn signed_message(h: crate::hash::Hash) -> Seq<u8> {
    enc_u256(h.num)
}

impl Signature {
    /// Signs the hash of a transaction output.
    pub fn sign_output(output_hash: &crate::hash::Hash, private_key: &PrivateKey) -> (r: Signature)
        ensures
            r.bytes@ == signature_of(private_key.secret(), signed_message(*output_hash)),
    {
        proof {
            use_type_invariant(private_key);
        }
        let msg = output_hash.as_bytes();
        Signature { bytes: ecdsa_sign(private_key.bytes.as_slice(), msg.as_slice()) }
    }

    /// Whether this signs `output_hash` under `public_key`.
    pub fn verify(&self, output_hash: &crate::hash::Hash, public_key: &PublicKey) -> (r: bool)
        ensures
            r == signature_verifies(public_key.bytes@, signed_message(*output_hash), self.bytes@),
    {
        let msg = output_hash.as_bytes();
        ecdsa_verify(public_key.bytes.as_slice(), msg.as_slice(), self.bytes.as_slice())
    }
}

fn checksum(payload: &[u8]) -> (r: Vec<u8>)
    ensures
        r@ == checksum_of(payload@),
        r@.len() == 4,
{
    let first = sha256(payload);
    let second = sha256(first.as_slice());
    let mut out: Vec<u8> = Vec::new();
    let mut i: usize = 0;
    while i < 4
        invariant
            i <= 4,
            second@.len() == 32,
            out@ == second@.subrange(0, i as int),
        decreases 4 - i,
    {
        out.push(second[i]);
        i += 1;
        assert(out@ =~= second@.subrange(0, i as int));
    }
    out
}

impl PublicKey {
    /// The key's uncompressed point as lowercase hexadecimal.
    pub fn to_hex(&self) -> (r: String)
        ensures
            r@ == crate::text::hex_text(crate::primitives::uncompressed_of(self.bytes@)),
    {
        let point = crate::primitives::uncompressed_point(self.bytes.as_slice());
        crate::text::hex_encode(point.as_slice())
    }

    /// The Base58Check address of this key.
    pub fn to_address(&self) -> (r: String)
        ensures
            r@ == address_of(self.bytes@),
    {
        let digest = sha256(self.bytes.as_slice());
        let key_hash = ripemd160(digest.as_slice());
        let mut payload: Vec<u8> = Vec::new();
        payload.push(ADDRESS_VERSION);
        let mut i: usize = 0;
        while i < key_hash.len()
            invariant
                i <= key_hash@.len(),
                payload@ == seq![ADDRESS_VERSION] + key_hash@.subrange(0, i as int),
            decreases key_hash@.len() - i,
        {
            payload.push(key_hash[i]);
            i += 1;
            assert(payload@ =~= seq![ADDRESS_VERSION] + key_hash@.subrange(0, i as int));
        }
        assert(key_hash@.subrange(0, key_hash@.len() as int) =~= key_hash@);
        let check = checksum(payload.as_slice());
        let ghost head = payload@;
        let mut j: usize = 0;
        while j < check.len()
            invariant
                j <= check@.len(),
                payload@ == head + check@.subrange(0, j as int),
            decreases check@.len() - j,
        {
            payload.push(check[j]);
            j += 1;
            assert(payload@ =~= head + check@.subrange(0, j as int));
        }
        assert(check@.subrange(0, check@.len() as int) =~= check@);
        base58_encode(payload.as_slice())
    }

    /// Checks the form of an address: Base58 text whose bytes are at least 25
    /// long, end in the checksum of the rest and start with the version byte.
    /// Text that is not Base58 is an error.
    pub fn validate_address(address: &str) -> (r: Result<bool, String>)
        ensures
            forall|b: Seq<u8>| #[trigger]
                base58_of(b) == address@ ==> r == Ok::<bool, String>(address_bytes_valid(b)),
            r.is_err() <==> forall|b: Seq<u8>| #[trigger] base58_of(b) != address@,
    {
        let decoded = match base58_decode(address) {
            Some(d) => d,
            None => {
                return Err("Invalid Base58 encoding".to_string());
            },
        };
        let ghost b = decoded@;
        proof {
            assert forall|c: Seq<u8>| #[trigger] base58_of(c) == address@ implies c == b by {}
        }
        let n = decoded.len();
        if n < 25 {
            return Ok(false);
        }
        let mut body: Vec<u8> = Vec::new();
        let mut i: usize = 0;
        while i < n - 4
            invariant
                n == decoded@.len(),
                b == decoded@,
                forall|c: Seq<u8>| #[trigger] base58_of(c) == address@ ==> c == b,
                base58_of(b) == address@,
                n >= 25,
                i <= n - 4,
                body@ == decoded@.subrange(0, i as int),
            decreases n - 4 - i,
        {
            body.push(decoded[i]);
            i += 1;
            assert(body@ =~= decoded@.subrange(0, i as int));
        }
        assert(body@ =~= decoded@.subrange(0, n - 4));
        let expected = checksum(body.as_slice());
        let mut k: usize = 0;
        while k < 4
            invariant
                n == decoded@.len(),
                b == decoded@,
                forall|c: Seq<u8>| #[trigger] base58_of(c) == address@ ==> c == b,
                base58_of(b) == address@,
                n >= 25,
                k <= 4,
                expected@.len() == 4,
                expected@ == checksum_of(decoded@.subrange(0, n - 4)),
                forall|m: int| 0 <= m < k ==> decoded@[n - 4 + m] == expected@[m],
            decreases 4 - k,
        {
            if decoded[n - 4 + k] != expected[k] {
                proof {
                    assert(decoded@.subrange(n - 4, n as int)[k as int] != expected@[k as int]);
                    assert(decoded@.subrange(n - 4, n as int) != checksum_of(
                        decoded@.subrange(0, n - 4),
                    ));
                    assert(!address_bytes_valid(b));
                }
                return Ok(false);
            }
            k += 1;
        }
        assert(decoded@.subrange(n - 4, n as int) =~= expected@);
        Ok(decoded[0] == ADDRESS_VERSION)
    }
}

/// Every address that `to_address` gives is well formed: its bytes pass
/// `validate_address`.
pub proof fn lemma_address_valid(pk: Seq<u8>)
    requires
        ripemd160_of(sha256_of(pk)).len() == 20,
        sha256_of(sha256_of(address_payload(pk))).len() == 32,
    ensures
        address_bytes_valid(address_bytes(pk)),
        address_of(pk) == base58_of(address_bytes(pk)),
{
    let p = address_payload(pk);
    let b = address_bytes(pk);
    assert(b.subrange(0, b.len() - 4) =~= p);
    assert(b.subrange(b.len() - 4, b.len() as int) =~= checksum_of(p));
}

/// Changing the version byte or a checksum byte of an address's bytes makes
/// them fail `validate_address`. (A change inside the key hash fails only
/// up to a checksum collision, which no statement here rules out.)
pub proof fn lemma_altered_address_invalid(pk: Seq<u8>, k: int, b: u8)
    requires
        ripemd160_of(sha256_of(pk)).len() == 20,
        sha256_of(sha256_of(address_payload(pk))).len() == 32,
        k == 0 || 21 <= k < 25,
        b != address_bytes(pk)[k],
    ensures
        !address_bytes_valid(address_bytes(pk).update(k, b)),
{
    let d = address_bytes(pk);
    let d2 = d.update(k, b);
    lemma_address_valid(pk);
    assert(d.len() == 25);
    if k >= 21 {
        assert(d2.subrange(0, 21) =~= d.subrange(0, 21));
        assert(d2.subrange(21, 25)[k - 21] != d.subrange(21, 25)[k - 21]);
        assert(d2.subrange(21, 25) != d.subrange(21, 25));
    }
}

impl Clone for PrivateKey {
    fn clone(&self) -> (r: PrivateKey)
        ensures
            r.secret() == self.secret(),
    {
        proof {
            use_type_invariant(self);
        }
        PrivateKey { bytes: self.bytes.clone() }
    }
}

impl PrivateKey {
    #[verifier::type_invariant]
    spec fn valid(self) -> bool {
        secret_key_valid(self.bytes@)
    }

    /// The secret scalar's bytes.
    pub closed spec fn secret(&self) -> Seq<u8> {
        self.bytes@
    }

    /// A fresh random key.
    pub fn new_key() -> (r: PrivateKey)
        ensures
            secret_key_valid(r.secret()),
    {
        PrivateKey { bytes: random_secret_key() }
    }

    /// The key whose scalar is the SHA-256 digest of `seed`; an error where
    /// that digest is not a usable scalar.
    pub fn from_seed(seed: &[u8]) -> (r: Result<PrivateKey, String>)
        ensures
            r.is_ok() == secret_key_valid(sha256_of(seed@)),
            r.is_ok() ==> r.unwrap().secret() == sha256_of(seed@),
    {
        let bytes = sha256(seed);
        if secret_key_check(bytes.as_slice()) {
            Ok(PrivateKey { bytes })
        } else {
            Err("Failed to create signing key from seed".to_string())
        }
    }

    /// The key of a BIP-39 mnemonic: `from_seed` of its seed; an error where
    /// the phrase is not a valid English mnemonic.
    pub fn from_mnemonic(mnemonic: &str) -> (r: Result<PrivateKey, String>)
        ensures
            !mnemonic_valid(mnemonic@) ==> r.is_err(),
            mnemonic_valid(mnemonic@) ==> r.is_ok() == secret_key_valid(
                sha256_of(mnemonic_seed_of(mnemonic@)),
            ),
            r.is_ok() ==> r.unwrap().secret() == sha256_of(mnemonic_seed_of(mnemonic@)),
    {
        match mnemonic_to_seed(mnemonic) {
            Some(seed) => PrivateKey::from_seed(seed.as_slice()),
            None => Err("Invalid mnemonic".to_string()),
        }
    }

    /// The matching public key.
    pub fn public_key(&self) -> (r: PublicKey)
        ensures
            r.bytes@ == public_key_of(self.secret()),
    {
        proof {
            use_type_invariant(self);
        }
        PublicKey { bytes: derive_public_key(self.bytes.as_slice()) }
    }
}

} // verus!
