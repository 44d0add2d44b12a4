use file_guardian::crypto::{calculate_file_hash, create_key, decrypt_text, encrypt_text, xor_data};
use file_guardian::errors::GuardianError;

#[test]
fn xor_data_repeats_the_key() {
    let data = vec![0x00u8, 0xff, 0x0f, 0xf0, 0xaa];
    let key = vec![0x01u8, 0x02];
    assert_eq!(xor_data(&data, &key), vec![0x01u8, 0xfd, 0x0e, 0xf2, 0xab]);
}

#[test]
fn xor_data_of_nothing_is_nothing() {
    let empty: Vec<u8> = Vec::new();
    assert_eq!(xor_data(&empty, &empty), empty);
    assert_eq!(xor_data(&empty, &[7u8]), empty);
}

#[test]
fn xor_data_twice_gives_the_data_back() {
    let data: Vec<u8> = (0u8..=255).collect();
    let key = vec![0x13u8, 0x37, 0xc0, 0xde, 0x42];
    let once = xor_data(&data, &key);
    assert_ne!(once, data);
    assert_eq!(xor_data(&once, &key), data);
}

#[test]
fn create_key_is_sha256_of_password() {
    let key = create_key("abc");
    assert_eq!(key.len(), 32);
    assert_eq!(key[0], 0xba);
    assert_eq!(key[31], 0xad);
}

#[test]
fn calculate_file_hash_of_abc() {
    assert_eq!(
        calculate_file_hash(b"abc"),
        "ba7816bf8f01cfea414140de5dae2223b00361a396177a9cb410ff61f20015ad"
    );
}

#[test]
fn calculate_file_hash_of_empty_file() {
    assert_eq!(
        calculate_file_hash(b""),
        "e3b0c44298fc1c149afbf4c8996fb92427ae41e4649b934ca495991b7852b855"
    );
}

#[test]
fn encrypt_text_changes_the_bytes() {
    let text = "FILE_GUARDIAN_BASELINE_V1\nnotes.txt|abc\n";
    let encrypted = encrypt_text(text, "secret");
    assert_eq!(encrypted.len(), text.len());
    assert_ne!(encrypted, text.as_bytes().to_vec());
    let key = create_key("secret");
    assert_eq!(encrypted[0], text.as_bytes()[0] ^ key[0]);
    assert_eq!(encrypted[33], text.as_bytes()[33] ^ key[1]);
}

#[test]
fn decrypt_text_undoes_encrypt_text() {
    let text = "FILE_GUARDIAN_BASELINE_V1\nrapport é.txt|00ff\n";
    let encrypted = encrypt_text(text, "correct horse");
    assert_eq!(decrypt_text(&encrypted, "correct horse"), Ok(text.to_string()));
}

#[test]
fn decrypt_text_of_empty_data() {
    assert_eq!(decrypt_text(&[], "pw"), Ok(String::new()));
}

#[test]
fn decrypt_text_refuses_invalid_utf8() {
    let key = create_key("pw");
    // 0xff is never valid UTF-8; encrypt it by hand.
    let data = vec![0xffu8 ^ key[0]];
    assert_eq!(decrypt_text(&data, "pw"), Err(GuardianError::CorruptedBaseline));
}

#[test]
fn decrypt_text_with_wrong_password_does_not_give_text_back() {
    let text = "FILE_GUARDIAN_BASELINE_V1\n";
    let encrypted = encrypt_text(text, "right");
    assert_ne!(decrypt_text(&encrypted, "wrong"), Ok(text.to_string()));
}
