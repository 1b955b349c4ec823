//! The cryptographic and system primitives the ledger relies on, each a thin
//! call into the crate that provides it.
use k256::ecdsa::signature::{Signer, Verifier};
use vstd::prelude::*;

verus! {

/// The SHA-256 digest of a byte string.
pub uninterp spec fn sha256_of(b: Seq<u8>) -> Seq<u8>;

/// The RIPEMD-160 digest of a byte string.
pub uninterp spec fn ripemd160_of(b: Seq<u8>) -> Seq<u8>;

/// The Base58 text (Bitcoin alphabet) of a byte string.
pub uninterp spec fn base58_of(b: Seq<u8>) -> Seq<char>;

/// The number a byte string holds, most significant byte first.
pub open spec fn be_value(b: Seq<u8>) -> nat
    decreases b.len(),
{
    if b.len() == 0 {
        0
    } else {
        be_value(b.drop_last()) * 256 + b.last() as nat
    }
}

/// The order of the secp256k1 group.
pub open spec fn secp256k1_order() -> nat {
    0xFFFF_FFFF_FFFF_FFFF_FFFF_FFFF_FFFF_FFFE_BAAE_DCE6_AF48_A03B_BFD2_5E8C_D036_4141nat
}

/// Whether a byte string is a usable secp256k1 secret scalar: 24 to 32 bytes
/// (shorter ones are zero-padded on the left) holding a number in
/// `1 .. order`.
pub open spec fn secret_key_valid(sk: Seq<u8>) -> bool {
    &&& 24 <= sk.len() <= 32
    &&& 0 < be_value(sk) < secp256k1_order()
}

/// The compressed SEC1 encoding of the public key of a secret scalar.
pub uninterp spec fn public_key_of(sk: Seq<u8>) -> Seq<u8>;

/// The uncompressed SEC1 encoding of a public key given in SEC1 form; empty
/// where the bytes are not a key.
pub uninterp spec fn uncompressed_of(pk: Seq<u8>) -> Seq<u8>;

/// The deterministic (RFC 6979) ECDSA signature of a message under a secret key.
pub uninterp spec fn signature_of(sk: Seq<u8>, msg: Seq<u8>) -> Seq<u8>;

/// Whether `sig` is a valid ECDSA signature of `msg` under the SEC1 key `pk`.
pub uninterp spec fn signature_verifies(pk: Seq<u8>, msg: Seq<u8>, sig: Seq<u8>) -> bool;

/// Whether a phrase is a valid English BIP-39 mnemonic.
pub uninterp spec fn mnemonic_valid(phrase: Seq<char>) -> bool;

/// The BIP-39 seed of a mnemonic phrase, with the empty passphrase.
pub uninterp spec fn mnemonic_seed_of(phrase: Seq<char>) -> Seq<u8>;

/// Relies on `sha2::Sha256::digest`: the 32-byte SHA-256 digest.
#[verifier::external_body]
pub(crate) fn sha256(b: &[u8]) -> (r: Vec<u8>)
    ensures
        r@ == sha256_of(b@),
        r@.len() == 32,
{
    <sha2::Sha256 as sha2::Digest>::digest(b).to_vec()
}

/// Relies on `ripemd::Ripemd160::digest`: the 20-byte RIPEMD-160 digest.
#[verifier::external_body]
pub(crate) fn ripemd160(b: &[u8]) -> (r: Vec<u8>)
    ensures
        r@ == ripemd160_of(b@),
        r@.len() == 20,
{
    <ripemd::Ripemd160 as ripemd::Digest>::digest(b).to_vec()
}

/// Relies on `bs58::encode(..).into_string()`.
#[verifier::external_body]
pub(crate) fn base58_encode(b: &[u8]) -> (r: String)
    ensures
        r@ == base58_of(b@),
{
    bs58::encode(b).into_string()
}

/// Relies on `bs58::decode(..).into_vec()`: it inverts `bs58::encode` (leading
/// `1`s stand for leading zero bytes, the rest is one base-58 number), so it
/// accepts exactly the texts that encoding produces and gives their bytes back.
#[verifier::external_body]
pub(crate) fn base58_decode(s: &str) -> (r: Option<Vec<u8>>)
    ensures
        r.is_some() ==> base58_of(r.unwrap()@) == s@,
        forall|b: Seq<u8>| #[trigger] base58_of(b) == s@ ==> r.is_some() && r.unwrap()@ == b,
{
    match bs58::decode(s).into_vec() {
        Ok(v) => Some(v),
        Err(_) => None,
    }
}

/// Relies on `k256::ecdsa::SigningKey::from_slice` (via
/// `elliptic_curve::SecretKey::from_slice`): it accepts 24 to 32 bytes,
/// left-padded, whose big-endian value is a nonzero scalar below the order.
#[verifier::external_body]
pub(crate) fn secret_key_check(sk: &[u8]) -> (r: bool)
    ensures
        r == secret_key_valid(sk@),
{
    k256::ecdsa::SigningKey::from_slice(sk).is_ok()
}

/// Relies on `k256::ecdsa::SigningKey::verifying_key` and
/// `VerifyingKey::to_encoded_point(true)`: the 33-byte compressed public key.
#[verifier::external_body]
pub(crate) fn derive_public_key(sk: &[u8]) -> (r: Vec<u8>)
    requires
        secret_key_valid(sk@),
    ensures
        r@ == public_key_of(sk@),
{
    let key = k256::ecdsa::SigningKey::from_slice(sk).unwrap();
    key.verifying_key().to_encoded_point(true).as_bytes().to_vec()
}

/// Relies on `k256::ecdsa::VerifyingKey::from_sec1_bytes` and
/// `to_encoded_point(false)`: the 65-byte uncompressed point, or nothing for
/// bytes that are not a key.
#[verifier::external_body]
pub(crate) fn uncompressed_point(pk: &[u8]) -> (r: Vec<u8>)
    ensures
        r@ == uncompressed_of(pk@),
{
    match k256::ecdsa::VerifyingKey::from_sec1_bytes(pk) {
        Ok(key) => key.to_encoded_point(false).as_bytes().to_vec(),
        Err(_) => Vec::new(),
    }
}

/// Relies on `k256::ecdsa::SigningKey` as `signature::Signer`: a deterministic
/// 64-byte signature of the message.
#[verifier::external_body]
pub(crate) fn ecdsa_sign(sk: &[u8], msg: &[u8]) -> (r: Vec<u8>)
    requires
        secret_key_valid(sk@),
    ensures
        r@ == signature_of(sk@, msg@),
{
    let key = k256::ecdsa::SigningKey::from_slice(sk).unwrap();
    let sig: k256::ecdsa::Signature = key.sign(msg);
    sig.to_bytes().to_vec()
}

/// Relies on `k256::ecdsa::VerifyingKey::from_sec1_bytes`,
/// `k256::ecdsa::Signature::from_slice` and `signature::Verifier::verify`;
/// malformed keys or signatures do not verify.
#[verifier::external_body]
pub(crate) fn ecdsa_verify(pk: &[u8], msg: &[u8], sig: &[u8]) -> (r: bool)
    ensures
        r == signature_verifies(pk@, msg@, sig@),
{
    match (k256::ecdsa::VerifyingKey::from_sec1_bytes(pk), k256::ecdsa::Signature::from_slice(sig)) {
        (Ok(key), Ok(sig)) => key.verify(msg, &sig).is_ok(),
        _ => false,
    }
}

/// Relies on `k256::ecdsa::SigningKey::random` with the operating system's
/// random source; the bytes of a fresh key are a valid secret.
#[verifier::external_body]
pub(crate) fn random_secret_key() -> (r: Vec<u8>)
    ensures
        secret_key_valid(r@),
{
    k256::ecdsa::SigningKey::random(&mut rand_core::OsRng).to_bytes().to_vec()
}

/// Relies on `bip39::Mnemonic::parse_in_normalized` (English) and
/// `Mnemonic::to_seed("")`: the 64-byte seed of a valid phrase.
#[verifier::external_body]
pub(crate) fn mnemonic_to_seed(phrase: &str) -> (r: Option<Vec<u8>>)
    ensures
        r.is_some() == mnemonic_valid(phrase@),
        r.is_some() ==> r.unwrap()@ == mnemonic_seed_of(phrase@),
{
    match bip39::Mnemonic::parse_in_normalized(bip39::Language::English, phrase) {
        Ok(m) => Some(m.to_seed("").to_vec()),
        Err(_) => None,
    }
}

/// Relies on `uuid::Uuid::new_v4`: a random identifier, as its 128-bit value.
#[verifier::external_body]
pub(crate) fn fresh_uuid() -> (r: u128) {
    uuid::Uuid::new_v4().as_u128()
}

/// Relies on `chrono::Utc::now` and `DateTime::timestamp_nanos_opt`:
/// nanoseconds since the Unix epoch, absent outside the years 1677 to 2262.
/// `Utc::now` panics where the system clock reads before 1970; nothing here
/// can rule that out.
#[verifier::external_body]
pub(crate) fn now_nanos() -> (r: Option<i64>) {
    chrono::Utc::now().timestamp_nanos_opt()
}

} // verus!
