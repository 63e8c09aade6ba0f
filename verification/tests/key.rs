use passage::crypt::{decrypt_with_key, encrypt_with_keys, encrypt_with_passphrase};
use passage::identity::Identity;
use passage::key::{
    decrypt_secret_key, encrypt_secret_key, identity_from_bytes, identity_from_opened, lock_with,
    read_secret_key, save_secret_key, unlock_with, KeyFile,
};
use passage::Error;

const TEST_SK: &str = "AGE-SECRET-KEY-1GQ9778VQXMMJVE8SK7J6VT8UJ4HDQAJUVSFCWCM02D8GEWQ72PVQ2Y5J33";
const TEST_PK: &str = "age1t7rxyev2z3rw82stdlrrepyc39nvn86l5078zqkf5uasdy86jp6svpy7pa";

#[test]
fn key_saving_and_reading_secret_key() {
    let plaintext = "Testing saving_and_reading_secret_key";
    let key = Identity::generate();
    let mut file = KeyFile::absent();
    let encrypted = encrypt_with_keys(plaintext, &[key.to_public()]).unwrap();

    save_secret_key(&key, &mut file, true).unwrap();

    let key = read_secret_key(&file, None).unwrap();
    let decrypted = decrypt_with_key(&encrypted, &key).unwrap();

    assert_eq!(decrypted, plaintext);
}

#[test]
fn lib_saving_and_reading_secret_key() {
    let plaintext = "Testing saving_and_reading_secret_key";
    let key = passage::Identity::generate();
    let mut file = passage::KeyFile::holding(b"left over".to_vec());
    let encrypted = passage::encrypt_with_keys(plaintext, &[key.to_public()]).unwrap();

    passage::save_secret_key(&key, &mut file, true).unwrap();

    let key = passage::read_secret_key(&file, None).unwrap();
    let decrypted = passage::decrypt_with_key(&encrypted, &key).unwrap();

    assert_eq!(decrypted, plaintext);
}

#[test]
fn public_key_of_a_known_secret_key() {
    let key = identity_from_bytes(TEST_SK.as_bytes()).unwrap();
    assert_eq!(key.to_string(), TEST_SK);
    assert_eq!(key.as_str(), TEST_SK);
    assert_eq!(key.to_public().to_string(), TEST_PK);
}

#[test]
fn generated_keys_differ_and_are_well_formed() {
    let a = Identity::generate();
    let b = Identity::generate();
    assert!(!a.same_as(&b));
    assert!(a.same_as(&a.clone()));
    assert!(a.to_string().starts_with("AGE-SECRET-KEY-1"));
    assert!(a.to_public().to_string().starts_with("age1"));
}

#[test]
fn key_file_lists_are_read_in_order() {
    let other = Identity::generate();
    let text = format!("# created today\n{}\n\n{}\n", TEST_SK, other.to_string());
    let keys = Identity::parse_all(text.as_bytes()).unwrap();
    assert_eq!(keys.len(), 2);
    assert_eq!(keys[0].to_string(), TEST_SK);
    assert_eq!(keys[1].to_string(), other.to_string());
    let last = identity_from_bytes(text.as_bytes()).unwrap();
    assert!(last.same_as(&other));
}

#[test]
fn key_file_in_small_letters_reads_as_the_same_key() {
    let key = identity_from_bytes(TEST_SK.to_lowercase().as_bytes()).unwrap();
    assert_eq!(key.to_string(), TEST_SK);
}

#[test]
fn key_file_without_keys_holds_no_secret_key() {
    assert!(matches!(identity_from_bytes(b""), Err(Error::NoSecretKey)));
    assert!(matches!(identity_from_bytes(b"# only a comment\n"), Err(Error::NoSecretKey)));
    let file = KeyFile::holding(Vec::new());
    assert!(!file.is_locked());
    assert!(matches!(read_secret_key(&file, None), Err(Error::NoSecretKey)));
}

#[test]
fn bytes_that_are_no_key_file_are_a_fault() {
    assert!(Identity::parse_all(b"AGE-").is_none());
    match identity_from_bytes(b"not a key") {
        Err(Error::Other(msg)) => assert_eq!(msg, "invalid identity file"),
        _ => panic!("expected a fault"),
    }
}

#[test]
fn absent_key_file_has_no_secret_key() {
    let file = KeyFile::absent();
    assert!(!file.is_present());
    assert!(!file.is_locked());
    assert!(file.bytes().is_none());
    assert!(matches!(read_secret_key(&file, None), Err(Error::NoSecretKey)));
    assert!(matches!(read_secret_key(&file, Some("pass")), Err(Error::NoSecretKey)));
}

#[test]
fn save_without_force_keeps_an_existing_key_file() {
    let first = Identity::generate();
    let second = Identity::generate();
    let mut file = KeyFile::absent();
    save_secret_key(&first, &mut file, false).unwrap();
    assert!(file.is_present());
    assert_eq!(file.bytes().unwrap(), first.to_string().as_bytes());
    assert!(matches!(save_secret_key(&second, &mut file, false), Err(Error::SecretKeyExists)));
    assert_eq!(file.bytes().unwrap(), first.to_string().as_bytes());
    save_secret_key(&second, &mut file, true).unwrap();
    assert_eq!(file.bytes().unwrap(), second.to_string().as_bytes());
}

#[test]
fn lock_then_unlock_gives_the_key_file_back() {
    let key = Identity::generate();
    let mut file = KeyFile::absent();
    save_secret_key(&key, &mut file, true).unwrap();
    let in_clear = file.bytes().unwrap().to_vec();

    encrypt_secret_key(&mut file, None, "open sesame").unwrap();
    assert!(file.is_locked());
    assert_ne!(file.bytes().unwrap(), &in_clear[..]);

    decrypt_secret_key(&mut file, "open sesame").unwrap();
    assert!(!file.is_locked());
    assert_eq!(file.bytes().unwrap(), &in_clear[..]);
    assert!(read_secret_key(&file, None).unwrap().same_as(&key));
}

#[test]
fn reading_a_locked_key_file_takes_the_passphrase_and_leaves_it_locked() {
    let key = Identity::generate();
    let mut file = KeyFile::absent();
    save_secret_key(&key, &mut file, true).unwrap();
    encrypt_secret_key(&mut file, None, "open sesame").unwrap();
    let locked = file.bytes().unwrap().to_vec();

    assert!(matches!(read_secret_key(&file, None), Err(Error::DecryptError)));
    let read = read_secret_key(&file, Some("open sesame")).unwrap();
    assert!(read.same_as(&key));
    assert!(file.is_locked());
    assert_eq!(file.bytes().unwrap(), &locked[..]);
}

#[test]
fn reading_a_locked_key_file_with_a_wrong_passphrase_fails() {
    let key = Identity::generate();
    let mut file = KeyFile::absent();
    save_secret_key(&key, &mut file, true).unwrap();
    encrypt_secret_key(&mut file, None, "open sesame").unwrap();
    assert!(matches!(read_secret_key(&file, Some("wrong")), Err(Error::DecryptError)));
}

#[test]
fn unlock_with_a_wrong_passphrase_leaves_the_file_locked() {
    let key = Identity::generate();
    let mut file = KeyFile::absent();
    save_secret_key(&key, &mut file, true).unwrap();
    encrypt_secret_key(&mut file, None, "right").unwrap();
    let locked = file.bytes().unwrap().to_vec();
    assert!(matches!(decrypt_secret_key(&mut file, "wrong"), Err(Error::DecryptError)));
    assert_eq!(file.bytes().unwrap(), &locked[..]);
}

#[test]
fn locking_a_locked_key_file_takes_the_current_passphrase() {
    let key = Identity::generate();
    let mut file = KeyFile::absent();
    save_secret_key(&key, &mut file, true).unwrap();
    encrypt_secret_key(&mut file, None, "first").unwrap();
    let locked = file.bytes().unwrap().to_vec();
    assert!(matches!(encrypt_secret_key(&mut file, None, "second"), Err(Error::DecryptError)));
    assert_eq!(file.bytes().unwrap(), &locked[..]);
    encrypt_secret_key(&mut file, Some("first"), "second").unwrap();
    assert!(file.is_locked());
    assert_ne!(file.bytes().unwrap(), &locked[..]);
}

#[test]
fn lock_without_a_key_fails() {
    let mut file = KeyFile::absent();
    assert!(matches!(encrypt_secret_key(&mut file, None, "pass"), Err(Error::NoSecretKey)));
    assert!(!file.is_present());
}

#[test]
fn unlock_of_what_is_not_locked_fails() {
    let mut absent = KeyFile::absent();
    assert!(matches!(decrypt_secret_key(&mut absent, "pass"), Err(Error::NoSecretKey)));
    let key = Identity::generate();
    let mut file = KeyFile::absent();
    save_secret_key(&key, &mut file, true).unwrap();
    assert!(matches!(decrypt_secret_key(&mut file, "pass"), Err(Error::KeyNotEncrypted)));
    assert_eq!(file.bytes().unwrap(), key.to_string().as_bytes());
}

#[test]
fn key_file_with_a_recipient_envelope_is_not_passphrase_locked() {
    let key = Identity::generate();
    let envelope = encrypt_with_keys(TEST_SK, &[key.to_public()]).unwrap();
    let mut file = KeyFile::holding(envelope.clone());
    assert!(file.is_locked());
    assert!(matches!(read_secret_key(&file, Some("pass")), Err(Error::KeyNotEncrypted)));
    assert!(matches!(decrypt_secret_key(&mut file, "pass"), Err(Error::KeyNotEncrypted)));
    assert_eq!(file.bytes().unwrap(), &envelope[..]);
}

#[test]
fn locked_file_whose_text_is_no_key_fails_to_unlock() {
    let envelope = encrypt_with_passphrase("not a key", "pass").unwrap();
    let mut file = KeyFile::holding(envelope.clone());
    assert!(matches!(decrypt_secret_key(&mut file, "pass"), Err(Error::Other(_))));
    assert_eq!(file.bytes().unwrap(), &envelope[..]);
}

#[test]
fn locked_file_whose_text_lists_no_key_fails_to_unlock() {
    let blank = encrypt_with_passphrase("", "pass").unwrap();
    let mut file = KeyFile::holding(blank);
    assert!(matches!(decrypt_secret_key(&mut file, "pass"), Err(Error::NoSecretKey)));
}

#[test]
fn lock_with_and_unlock_with_follow_what_they_are_given() {
    let mut file = KeyFile::holding(TEST_SK.as_bytes().to_vec());
    assert!(matches!(lock_with(&mut file, Err(Error::EncryptError)), Err(Error::EncryptError)));
    assert_eq!(file.bytes().unwrap(), TEST_SK.as_bytes());
    lock_with(&mut file, Ok(vec![1, 2, 3])).unwrap();
    assert_eq!(file.bytes().unwrap(), &[1, 2, 3]);

    assert!(matches!(unlock_with(&mut file, Err(Error::DecryptError)), Err(Error::DecryptError)));
    assert_eq!(file.bytes().unwrap(), &[1, 2, 3]);
    assert!(matches!(unlock_with(&mut file, Ok(String::new())), Err(Error::NoSecretKey)));
    unlock_with(&mut file, Ok(format!("{}\n", TEST_SK))).unwrap();
    assert_eq!(file.bytes().unwrap(), TEST_SK.as_bytes());

    assert!(matches!(identity_from_opened(Err(Error::DecryptError)), Err(Error::DecryptError)));
    assert_eq!(identity_from_opened(Ok(TEST_SK.to_string())).unwrap().to_string(), TEST_SK);
}

#[test]
fn a_locked_key_file_opens_to_the_encoding_of_the_key() {
    let key = Identity::generate();
    let mut file = KeyFile::absent();
    save_secret_key(&key, &mut file, true).unwrap();
    encrypt_secret_key(&mut file, None, "pass").unwrap();
    let text = passage::decrypt_with_passphrase(file.bytes().unwrap(), "pass").unwrap();
    assert_eq!(text, key.to_string());
}
