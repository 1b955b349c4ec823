use bip39::{Language, Mnemonic};
use btcnode::crypto::{PrivateKey, PublicKey, Signature};

const ABANDON: &str = "abandon abandon abandon abandon abandon abandon abandon abandon abandon abandon abandon about";

#[test]
fn test_from_mnemonic_valid() {
    let result = PrivateKey::from_mnemonic(ABANDON);
    assert!(result.is_ok(), "Should successfully create key from valid mnemonic");
    let key = result.ok().unwrap();
    let public_key = key.public_key();
    assert!(!public_key.to_hex().is_empty(), "Public key should have hex representation");
}

#[test]
fn test_from_mnemonic_deterministic() {
    let key1 = PrivateKey::from_mnemonic(ABANDON).ok().unwrap();
    let key2 = PrivateKey::from_mnemonic(ABANDON).ok().unwrap();
    let pub1 = key1.public_key();
    let pub2 = key2.public_key();
    assert_eq!(pub1.to_address(), pub2.to_address(), "Same mnemonic should produce same address");
}

#[test]
fn test_from_mnemonic_invalid() {
    let result = PrivateKey::from_mnemonic("not a valid mnemonic phrase");
    assert!(result.is_err(), "Should fail with invalid mnemonic");
}

#[test]
fn test_from_mnemonic_wrong_word_count() {
    let result = PrivateKey::from_mnemonic("abandon abandon abandon");
    assert!(result.is_err(), "Should fail with wrong word count");
}

#[test]
fn test_from_seed_valid() {
    let seed = b"test seed for key generation";
    let result = PrivateKey::from_seed(seed);
    assert!(result.is_ok(), "Should successfully create key from seed");
    let key = result.ok().unwrap();
    let public_key = key.public_key();
    assert!(!public_key.to_hex().is_empty(), "Public key should have hex representation");
}

#[test]
fn test_from_seed_deterministic() {
    let seed = b"deterministic test seed";
    let key1 = PrivateKey::from_seed(seed).ok().unwrap();
    let key2 = PrivateKey::from_seed(seed).ok().unwrap();
    assert_eq!(
        key1.public_key().to_address(),
        key2.public_key().to_address(),
        "Same seed should produce same address"
    );
}

#[test]
fn test_from_seed_different_seeds() {
    let key1 = PrivateKey::from_seed(b"seed one").ok().unwrap();
    let key2 = PrivateKey::from_seed(b"seed two").ok().unwrap();
    assert_ne!(
        key1.public_key().to_address(),
        key2.public_key().to_address(),
        "Different seeds should produce different addresses"
    );
}

#[test]
fn test_from_seed_various_lengths() {
    let seed1: &[u8] = b"short";
    let seed2: &[u8] = b"medium length seed";
    let seed3: &[u8] = b"this is a much longer seed that should still work fine";
    let seed4: &[u8] = &[0u8; 64];
    let seeds: Vec<&[u8]> = vec![seed1, seed2, seed3, seed4];
    for seed in seeds {
        let result = PrivateKey::from_seed(seed);
        assert!(result.is_ok(), "Should handle seed of length {}", seed.len());
    }
}

#[test]
fn test_public_key_to_hex() {
    let key = PrivateKey::new_key();
    let public_key = key.public_key();
    let hex = public_key.to_hex();
    assert!(!hex.is_empty(), "Hex string should not be empty");
    assert!(hex.len() > 0, "Hex string should have content");
    assert!(hex.chars().all(|c| c.is_ascii_hexdigit()), "Hex string should only contain hex digits");
}

#[test]
fn test_public_key_display() {
    let key = PrivateKey::new_key();
    let public_key = key.public_key();
    let address = public_key.to_address();
    let display = public_key.to_address();
    assert_eq!(address, display, "Display should match to_address()");
    assert!(address.len() >= 25 && address.len() <= 35, "Bitcoin-style address should be 25-35 characters");
}

#[test]
fn test_mnemonic_to_seed_consistency() {
    let mnemonic_obj = Mnemonic::parse_in_normalized(Language::English, ABANDON).unwrap();
    let seed = mnemonic_obj.to_seed("");
    let key_from_mnemonic = PrivateKey::from_mnemonic(ABANDON).ok().unwrap();
    let key_from_seed = PrivateKey::from_seed(&seed).ok().unwrap();
    assert_eq!(
        key_from_mnemonic.public_key().to_address(),
        key_from_seed.public_key().to_address(),
        "Key from mnemonic should match key from derived seed"
    );
}

#[test]
fn test_public_key_consistency() {
    let key = PrivateKey::new_key();
    let pub1 = key.public_key();
    let pub2 = key.public_key();
    assert_eq!(pub1.to_address(), pub2.to_address(), "Multiple calls to public_key() should return same address");
}

#[test]
fn test_key_generation_produces_valid_keys() {
    let key = PrivateKey::from_mnemonic(ABANDON).ok().unwrap();
    let public_key = key.public_key();
    let hash = btcnode::hash::Hash::of_bytes(b"test data");
    let signature = Signature::sign_output(&hash, &key);
    assert!(signature.verify(&hash, &public_key), "Generated key should be able to sign and verify");
}

#[test]
fn test_multiple_mnemonics_produce_different_keys() {
    let key1 = PrivateKey::from_mnemonic(ABANDON).ok().unwrap();
    let key2 = PrivateKey::from_mnemonic("zoo zoo zoo zoo zoo zoo zoo zoo zoo zoo zoo wrong").ok().unwrap();
    assert_ne!(
        key1.public_key().to_address(),
        key2.public_key().to_address(),
        "Different mnemonics should produce different addresses"
    );
}

#[test]
fn test_public_key_address_format() {
    let key = PrivateKey::new_key();
    let address = key.public_key().to_address();
    assert!(address.len() >= 25 && address.len() <= 35, "Bitcoin-style address should be 25-35 characters");
    assert!(
        address.chars().all(|c| c.is_alphanumeric() && c != '0' && c != 'O' && c != 'I' && c != 'l'),
        "Address should only contain Base58 characters"
    );
}

#[test]
fn test_public_key_address_deterministic() {
    let key = PrivateKey::from_mnemonic(ABANDON).ok().unwrap();
    let public_key = key.public_key();
    let address1 = public_key.to_address();
    let address2 = public_key.to_address();
    assert_eq!(address1, address2, "Same public key should produce same address");
}

#[test]
fn address_of_a_key_validates() {
    let key = PrivateKey::from_seed(b"address seed").ok().unwrap();
    let address = key.public_key().to_address();
    assert_eq!(PublicKey::validate_address(&address), Ok(true));
}

#[test]
fn altered_address_does_not_validate() {
    let key = PrivateKey::from_seed(b"address seed").ok().unwrap();
    let address = key.public_key().to_address();
    let mut chars: Vec<char> = address.chars().collect();
    let last = chars.len() - 1;
    chars[last] = if chars[last] == '2' { '3' } else { '2' };
    let altered: String = chars.into_iter().collect();
    assert_eq!(PublicKey::validate_address(&altered), Ok(false));
}

#[test]
fn short_or_non_base58_address_is_refused() {
    assert_eq!(PublicKey::validate_address("1111"), Ok(false));
    assert!(PublicKey::validate_address("0OIl").is_err());
}

#[test]
fn signature_does_not_verify_another_hash() {
    let key = PrivateKey::from_seed(b"signing seed").ok().unwrap();
    let h1 = btcnode::hash::Hash::of_bytes(b"one");
    let h2 = btcnode::hash::Hash::of_bytes(b"two");
    let sig = Signature::sign_output(&h1, &key);
    assert!(sig.verify(&h1, &key.public_key()));
    assert!(!sig.verify(&h2, &key.public_key()));
}

#[test]
fn public_key_hex_is_uncompressed_point() {
    let key = PrivateKey::from_seed(b"hex seed").ok().unwrap();
    let hex = key.public_key().to_hex();
    assert_eq!(hex.len(), 130);
    assert!(hex.starts_with("04"));
    assert_eq!(&hex[2..66], &x_coordinate_hex(&key.public_key().bytes)[..]);
}

fn x_coordinate_hex(compressed: &[u8]) -> String {
    compressed[1..].iter().map(|b| format!("{:02x}", b)).collect()
}
