use std::cmp::Ordering;
use std::collections::BTreeMap;

use secrets_manager::crypto::SecretsCrypto;
use secrets_manager::error::VaultError;
use secrets_manager::order::compare_names;
use secrets_manager::storage::{SecretsData, SecretsStorage};

fn serialize(storage: &SecretsStorage) -> String {
    let mut inner = BTreeMap::new();
    for name in storage.list_secrets() {
        let value = storage.get_secret(&name).unwrap();
        inner.insert(name, value);
    }
    let mut outer = BTreeMap::new();
    outer.insert("secrets".to_string(), inner);
    serde_json::to_string(&outer).unwrap()
}

fn reopen(password: &str, stored: Option<&str>) -> Result<SecretsStorage, VaultError> {
    let mut storage = SecretsStorage::new(password);
    if let Some(text) = storage.load_data(stored)? {
        let parsed: BTreeMap<String, BTreeMap<String, String>> =
            serde_json::from_str(&text).map_err(|_| VaultError::CorruptStore)?;
        for (name, value) in parsed["secrets"].iter() {
            storage.add_secret(name, value);
        }
    }
    Ok(storage)
}

#[test]
fn round_trip_same_password() {
    let crypto = SecretsCrypto::new("hunter2");
    for plain in ["", "a", "hello world", "{\"secrets\":{}}", "héllo ✓"] {
        let blob = crypto.encrypt(plain.as_bytes()).unwrap();
        let again = SecretsCrypto::new("hunter2");
        assert_eq!(again.decrypt(&blob), Ok(plain.as_bytes().to_vec()));
    }
}

#[test]
fn blob_is_lowercase_hex_of_nonce_ciphertext_and_tag() {
    let crypto = SecretsCrypto::new("pw");
    let blob = crypto.encrypt(b"abc").unwrap();
    assert_eq!(blob.len(), 2 * (12 + 3 + 16));
    assert!(blob.chars().all(|c| c.is_ascii_digit() || ('a'..='f').contains(&c)));
    assert!(!blob.contains("616263"));
}

#[test]
fn wrong_password_fails_authentication() {
    let blob = SecretsCrypto::new("first").encrypt(b"secret data").unwrap();
    assert_eq!(SecretsCrypto::new("second").decrypt(&blob), Err(VaultError::Authentication));
    assert_eq!(SecretsCrypto::new("").decrypt(&blob), Err(VaultError::Authentication));
}

#[test]
fn tampered_blob_fails_authentication() {
    let crypto = SecretsCrypto::new("pw");
    let blob = crypto.encrypt(b"payload").unwrap();
    let mut chars: Vec<char> = blob.chars().collect();
    let last = chars.len() - 1;
    chars[last] = if chars[last] == '0' { '1' } else { '0' };
    let tampered: String = chars.into_iter().collect();
    assert_eq!(crypto.decrypt(&tampered), Err(VaultError::Authentication));
}

#[test]
fn nonces_differ_between_encryptions() {
    let crypto = SecretsCrypto::new("pw");
    let mut seen = std::collections::HashSet::new();
    for _ in 0..100 {
        assert!(seen.insert(crypto.encrypt(b"same plaintext").unwrap()));
    }
}

#[test]
fn short_blob_is_malformed() {
    let crypto = SecretsCrypto::new("pw");
    assert_eq!(crypto.decrypt(""), Err(VaultError::MalformedBlob));
    assert_eq!(crypto.decrypt("00"), Err(VaultError::MalformedBlob));
    assert_eq!(crypto.decrypt("0011223344556677889900"), Err(VaultError::MalformedBlob));
}

#[test]
fn invalid_hex_is_malformed() {
    let crypto = SecretsCrypto::new("pw");
    assert_eq!(crypto.decrypt("zz"), Err(VaultError::MalformedBlob));
    assert_eq!(crypto.decrypt("abc"), Err(VaultError::MalformedBlob));
}

#[test]
fn nonce_only_blob_fails_authentication() {
    let crypto = SecretsCrypto::new("pw");
    assert_eq!(crypto.decrypt("000102030405060708090A0B"), Err(VaultError::Authentication));
}

#[test]
fn upsert_keeps_one_entry() {
    let mut storage = SecretsStorage::new("pw");
    storage.add_secret("x", "a");
    storage.add_secret("x", "b");
    assert_eq!(storage.list_secrets(), vec!["x".to_string()]);
    assert_eq!(storage.get_secret("x"), Some("b".to_string()));
}

#[test]
fn remove_missing_and_present() {
    let mut storage = SecretsStorage::new("pw");
    assert!(!storage.remove_secret("missing"));
    storage.add_secret("x", "1");
    assert!(storage.remove_secret("x"));
    assert_eq!(storage.get_secret("x"), None);
    assert!(!storage.remove_secret("x"));
    assert!(storage.list_secrets().is_empty());
}

#[test]
fn listing_is_sorted() {
    let mut storage = SecretsStorage::new("pw");
    storage.add_secret("zeta", "1");
    storage.add_secret("alpha", "2");
    storage.add_secret("mike", "3");
    assert_eq!(storage.list_secrets(), vec!["alpha", "mike", "zeta"]);
}

#[test]
fn listing_orders_by_bytes() {
    let mut storage = SecretsStorage::new("pw");
    for name in ["b", "B", "ab", "a", "é", "", "z"] {
        storage.add_secret(name, "v");
    }
    assert_eq!(storage.list_secrets(), vec!["", "B", "a", "ab", "b", "z", "é"]);
}

#[test]
fn persistence_across_reopen() {
    let mut storage = SecretsStorage::new("P");
    storage.add_secret("k", "v");
    let blob = storage.save_data(serialize(&storage).as_bytes()).unwrap();
    drop(storage);
    let reopened = reopen("P", Some(&blob)).unwrap();
    assert_eq!(reopened.get_secret("k"), Some("v".to_string()));
}

#[test]
fn password_change_rekeys_the_vault() {
    let mut storage = SecretsStorage::new("P1");
    storage.add_secret("a", "1");
    storage.add_secret("b", "2");
    assert_eq!(storage.change_password("P2", "P2"), Ok(()));
    let blob = storage.save_data(serialize(&storage).as_bytes()).unwrap();
    assert_eq!(reopen("P1", Some(&blob)).err(), Some(VaultError::Authentication));
    let reopened = reopen("P2", Some(&blob)).unwrap();
    assert_eq!(reopened.list_secrets(), vec!["a", "b"]);
    assert_eq!(reopened.get_secret("a"), Some("1".to_string()));
    assert_eq!(reopened.get_secret("b"), Some("2".to_string()));
}

#[test]
fn password_change_needs_matching_confirmation() {
    let mut storage = SecretsStorage::new("P1");
    storage.add_secret("a", "1");
    assert_eq!(storage.change_password("P2", "P3"), Err(VaultError::PasswordMismatch));
    let blob = storage.save_data(serialize(&storage).as_bytes()).unwrap();
    assert!(reopen("P1", Some(&blob)).is_ok());
}

#[test]
fn new_vault_is_empty() {
    let storage = SecretsStorage::new("pw");
    assert!(storage.list_secrets().is_empty());
    assert_eq!(storage.load_data(None), Ok(None));
    assert_eq!(storage.load_data(Some("")), Ok(None));
}

#[test]
fn create_checks_confirmation() {
    assert!(SecretsStorage::create("pw", "pw").unwrap().list_secrets().is_empty());
    assert_eq!(SecretsStorage::create("pw", "pW").err(), Some(VaultError::PasswordMismatch));
}

#[test]
fn load_reports_each_failure() {
    let storage = SecretsStorage::new("pw");
    assert_eq!(storage.load_data(Some("not hex")), Err(VaultError::CorruptStore));
    assert_eq!(storage.load_data(Some("0a0b")), Err(VaultError::CorruptStore));
    let foreign = SecretsStorage::new("other").save_data(b"{}").unwrap();
    assert_eq!(storage.load_data(Some(&foreign)), Err(VaultError::Authentication));
    let own = storage.save_data(b"{\"secrets\":{}}").unwrap();
    assert_eq!(storage.load_data(Some(&own)), Ok(Some("{\"secrets\":{}}".to_string())));
}

#[test]
fn same_password_gives_same_key() {
    let blob = SecretsCrypto::new("repeatable").encrypt(b"x").unwrap();
    assert_eq!(SecretsCrypto::new("repeatable").decrypt(&blob), Ok(b"x".to_vec()));
}

#[test]
fn compare_names_orders_bytes() {
    assert_eq!(compare_names("alpha", "mike"), Ordering::Less);
    assert_eq!(compare_names("mike", "mike"), Ordering::Equal);
    assert_eq!(compare_names("zeta", "mike"), Ordering::Greater);
    assert_eq!(compare_names("ab", "abc"), Ordering::Less);
    assert_eq!(compare_names("Z", "a"), Ordering::Less);
}

#[test]
fn data_collection_operations() {
    let mut data = SecretsData::new();
    data.upsert("n", "1");
    data.upsert("m", "2");
    assert_eq!(data.names(), vec!["m", "n"]);
    assert_eq!(data.get("m"), Some("2".to_string()));
    assert!(data.remove("m"));
    assert_eq!(data.get("m"), None);
}

#[test]
fn seal_with_nonce_frames_the_given_nonce() {
    let crypto = SecretsCrypto::new("pw");
    let nonce: Vec<u8> = (0u8..12).collect();
    let blob = crypto.seal_with_nonce(&nonce, b"data").unwrap();
    assert!(blob.starts_with("000102030405060708090a0b"));
    assert_eq!(blob.len(), 2 * (12 + 4 + 16));
    assert_eq!(crypto.seal_with_nonce(&nonce, b"data").unwrap(), blob);
    assert_eq!(crypto.decrypt(&blob), Ok(b"data".to_vec()));
    let other: Vec<u8> = vec![7u8; 12];
    assert_ne!(crypto.seal_with_nonce(&other, b"data").unwrap(), blob);
}

#[test]
fn encrypt_uses_a_fresh_nonce_each_call() {
    let crypto = SecretsCrypto::new("pw");
    let first = crypto.encrypt(b"same").unwrap();
    let second = crypto.encrypt(b"same").unwrap();
    assert_ne!(first[..24], second[..24]);
}

#[test]
fn decrypt_returns_bytes_that_are_not_text() {
    let crypto = SecretsCrypto::new("pw");
    let bytes = vec![0xffu8, 0xfe, 0x00, 0x80];
    let blob = crypto.encrypt(&bytes).unwrap();
    assert_eq!(crypto.decrypt(&blob), Ok(bytes));
}

#[test]
fn load_rejects_payload_that_is_not_text() {
    let storage = SecretsStorage::new("pw");
    let blob = storage.save_data(&[0xffu8, 0xfe]).unwrap();
    assert_eq!(storage.load_data(Some(&blob)), Err(VaultError::CorruptStore));
}
