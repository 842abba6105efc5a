use peersync::crypto::CryptoManager;
use peersync::crypto::SecretStore;
use peersync::gdpr::GdprManager;

#[test]
fn test_new_crypto_manager() {
    let mut store = SecretStore::new();
    let crypto = CryptoManager::new(&mut store).unwrap();
    assert!(!crypto.get_device_id().is_empty());
    assert!(crypto.get_device_id().len() == 36); // UUID length
}

#[test]
fn test_device_id_persistence() {
    let mut store = SecretStore::new();
    let crypto1 = CryptoManager::new(&mut store).unwrap();
    let device_id1 = crypto1.get_device_id();

    let crypto2 = CryptoManager::new(&mut store).unwrap();
    let device_id2 = crypto2.get_device_id();

    assert_eq!(device_id1, device_id2);
}

#[test]
fn test_encryption_disabled() {
    let mut store = SecretStore::new();
    let crypto = CryptoManager::new(&mut store).unwrap();
    assert!(!crypto.is_encryption_enabled());

    let plaintext = "This is sensitive data";

    let encrypted = crypto.encrypt(plaintext).unwrap();
    assert_eq!(encrypted, plaintext);

    let decrypted = crypto.decrypt(&encrypted).unwrap();
    assert_eq!(decrypted, plaintext);
}

#[test]
fn test_encrypt_decrypt_bytes() {
    let mut store = SecretStore::new();
    let crypto = CryptoManager::new(&mut store).unwrap();
    let original_data = b"Binary data for testing";

    let encrypted = crypto.encrypt_bytes(original_data).unwrap();
    assert_eq!(encrypted, original_data);

    let decrypted = crypto.decrypt_bytes(&encrypted).unwrap();
    assert_eq!(decrypted, original_data);
}

#[test]
fn test_checksum_generation() {
    let mut store = SecretStore::new();
    let crypto = CryptoManager::new(&mut store).unwrap();
    let data = "Test data for checksum";

    let checksum1 = crypto.generate_checksum(data);
    let checksum2 = crypto.generate_checksum(data);

    // Same data should produce same checksum
    assert_eq!(checksum1, checksum2);
    assert_eq!(checksum1.len(), 16); // 64-bit hash as hex

    // Different data should produce different checksum
    let different_data = "Different test data";
    let different_checksum = crypto.generate_checksum(different_data);
    assert_ne!(checksum1, different_checksum);
}

#[test]
fn test_checksum_verification() {
    let mut store = SecretStore::new();
    let crypto = CryptoManager::new(&mut store).unwrap();
    let data = "Test data for verification";

    let checksum = crypto.generate_checksum(data);

    // Valid checksum should verify
    assert!(crypto.verify_checksum(data, &checksum));

    // Invalid checksum should not verify
    let wrong_checksum = "0000000000000000";
    assert!(!crypto.verify_checksum(data, wrong_checksum));

    // Modified data should not verify with original checksum
    let modified_data = "Modified test data";
    assert!(!crypto.verify_checksum(modified_data, &checksum));
}

#[test]
fn test_device_config() {
    let mut store = SecretStore::new();
    let crypto = CryptoManager::new(&mut store).unwrap();

    crypto
        .set_device_config(
            &mut store,
            Some("laptop".to_string()),
            Some("Teacher's Laptop".to_string()),
        )
        .unwrap();

    let config = crypto.get_device_config(&store).unwrap();
    let get = |k: &str| -> Option<String> {
        config
            .iter()
            .find(|p| p.0 == k)
            .map(|p| p.1.clone())
    };

    assert_eq!(get("device_type").unwrap(), "laptop");
    assert_eq!(get("device_name").unwrap(), "Teacher's Laptop");
    assert_eq!(get("encryption_enabled").unwrap(), "false");
    assert!(!get("device_id").unwrap().is_empty());
}

#[test]
fn test_key_rotation() {
    let mut store = SecretStore::new();
    let crypto = CryptoManager::new(&mut store).unwrap();
    let original_device_id = crypto.get_device_id();

    crypto.rotate_keys(&mut store).unwrap();

    // Create new crypto manager to see if device ID changed
    let crypto2 = CryptoManager::new(&mut store).unwrap();
    let new_device_id = crypto2.get_device_id();

    assert_ne!(original_device_id, new_device_id);
}

#[test]
fn test_export_import_crypto_config() {
    let mut store = SecretStore::new();
    let mut crypto = CryptoManager::new(&mut store).unwrap();

    crypto
        .set_device_config(
            &mut store,
            Some("desktop".to_string()),
            Some("Main Computer".to_string()),
        )
        .unwrap();
    let original_device_id = crypto.get_device_id();

    let exported_config = crypto.export_crypto_config(&store).unwrap();

    CryptoManager::reset_device_id(&mut store).unwrap();

    let mut crypto2 = CryptoManager::new(&mut store).unwrap();
    assert_ne!(crypto2.get_device_id(), original_device_id);

    crypto2.import_crypto_config(&mut store, &exported_config).unwrap();

    assert_eq!(crypto2.get_device_id(), original_device_id);

    let restored_config = crypto2.get_device_config(&store).unwrap();
    let get = |k: &str| -> Option<String> {
        restored_config
            .iter()
            .find(|p| p.0 == k)
            .map(|p| p.1.clone())
    };
    assert_eq!(get("device_type").unwrap(), "desktop");
    assert_eq!(get("device_name").unwrap(), "Main Computer");
}

#[test]
fn test_secrets_file_operations() {
    let mut store = SecretStore::new();

    store.secret_set("test_key", "test_value");
    let retrieved = store.secret_get("test_key");
    assert_eq!(retrieved, Some("test_value".to_string()));

    let non_existent = store.secret_get("non_existent_key");
    assert_eq!(non_existent, None);

    store.secret_set("test_key", "new_value");
    let updated = store.secret_get("test_key");
    assert_eq!(updated, Some("new_value".to_string()));
}

#[test]
fn test_device_id_reset() {
    let mut store = SecretStore::new();
    let crypto1 = CryptoManager::new(&mut store).unwrap();
    let original_id = crypto1.get_device_id();

    CryptoManager::reset_device_id(&mut store).unwrap();

    let crypto2 = CryptoManager::new(&mut store).unwrap();
    let new_id = crypto2.get_device_id();

    assert_ne!(original_id, new_id);
}

#[test]
fn test_manual_device_id_setting() {
    let mut store = SecretStore::new();
    let mut crypto = CryptoManager::new(&mut store).unwrap();
    let custom_id = "custom-device-id-123";

    crypto.set_device_id(&mut store, custom_id.to_string()).unwrap();
    assert_eq!(crypto.get_device_id(), custom_id);

    // Verify persistence
    let crypto2 = CryptoManager::new(&mut store).unwrap();
    assert_eq!(crypto2.get_device_id(), custom_id);
}

#[test]
fn test_large_data_encryption() {
    let mut store = SecretStore::new();
    let crypto = CryptoManager::new(&mut store).unwrap();

    let large_text = "A".repeat(10000);
    let encrypted = crypto.encrypt(&large_text).unwrap();
    let decrypted = crypto.decrypt(&encrypted).unwrap();
    assert_eq!(decrypted, large_text);

    let large_binary = vec![0x42; 10000];
    let encrypted_bytes = crypto.encrypt_bytes(&large_binary).unwrap();
    let decrypted_bytes = crypto.decrypt_bytes(&encrypted_bytes).unwrap();
    assert_eq!(decrypted_bytes, large_binary);
}

#[test]
fn test_special_characters_in_data() {
    let mut store = SecretStore::new();
    let crypto = CryptoManager::new(&mut store).unwrap();

    let special_text = "Hello \u{4e16}\u{754c}! \u{1f30d} Special chars: \u{e0}\u{e1}\u{e2}\u{e3}\u{e4}\u{e5}\u{e6}\u{e7}\u{e8}\u{e9}\u{ea}\u{eb} \u{f1} \u{f8}\u{fe}\u{f0}";
    let encrypted = crypto.encrypt(special_text).unwrap();
    let decrypted = crypto.decrypt(&encrypted).unwrap();
    assert_eq!(decrypted, special_text);

    let checksum = crypto.generate_checksum(special_text);
    assert!(crypto.verify_checksum(special_text, &checksum));
}

#[test]
fn test_data_retention_policy() {
    let gdpr = GdprManager::new();
    let policy = gdpr.get_data_retention_policy();

    assert_eq!(policy.observation_retention_days, 365);
    assert_eq!(policy.attachment_retention_days, 365);
    assert_eq!(policy.audit_log_retention_days, 2555);
    assert_eq!(policy.anonymization_after_days, 1095);
}

#[test]
fn test_validate_data_subject_request() {
    let gdpr = GdprManager::new();
    assert_eq!(gdpr.validate_data_subject_request(1, "export"), Ok(true));
    assert_eq!(gdpr.validate_data_subject_request(42, "deletion"), Ok(true));
}
