use passage::crypt::{decrypt_with_key, encrypt_with_keys};
use passage::identity::Identity;
use passage::key::{encrypt_secret_key, save_secret_key, KeyFile};
use passage::store::{item_name, item_path, PasswordStore};
use passage::Error;

const PK_A: &str = "age1t7rxyev2z3rw82stdlrrepyc39nvn86l5078zqkf5uasdy86jp6svpy7pa";

fn store_for(key: &Identity) -> PasswordStore {
    let file = format!("{}\n", key.to_public().to_string());
    PasswordStore::new(Some(file.as_bytes()))
}

fn key_file_of(key: &Identity) -> KeyFile {
    let mut file = KeyFile::absent();
    save_secret_key(key, &mut file, true).unwrap();
    file
}

#[test]
fn new_store_reads_its_recipients_file() {
    let store = PasswordStore::new(Some(format!("{}\nnoise\n{}\n", PK_A, PK_A).as_bytes()));
    let names: Vec<String> = store.recipients().iter().map(|r| r.to_string()).collect();
    assert_eq!(names, vec![PK_A.to_string(), PK_A.to_string()]);
    assert_eq!(store.recipients_file(), format!("{}\n{}\n", PK_A, PK_A));
    assert_eq!(store.len(), 0);
    let bare = PasswordStore::new(None);
    assert!(bare.recipients().is_empty());
    assert!(bare.items().is_empty());
}

#[test]
fn insert_then_get_returns_the_secret() {
    let key = Identity::generate();
    let mut store = store_for(&key);
    assert!(!store.contains("mail/work"));
    store.insert("mail/work", "hunter2\nuser: me", false).unwrap();
    assert!(store.contains("mail/work"));
    assert_eq!(store.items(), vec!["mail/work".to_string()]);
    assert_eq!(store.get_with("mail/work", &key).unwrap(), "hunter2\nuser: me");
    let file = key_file_of(&key);
    assert_eq!(store.get("mail/work", &file, None).unwrap(), "hunter2\nuser: me");
}

#[test]
fn insert_on_an_existing_name_needs_overwrite() {
    let key = Identity::generate();
    let mut store = store_for(&key);
    store.insert("foo", "first", false).unwrap();
    let before = store.envelope("foo").unwrap().to_vec();
    match store.insert("foo", "second", false) {
        Err(Error::ItemAlreadyExists(name)) => assert_eq!(name, "foo"),
        _ => panic!("expected ItemAlreadyExists"),
    }
    assert_eq!(store.envelope("foo").unwrap(), &before[..]);
    assert_eq!(store.get_with("foo", &key).unwrap(), "first");
    store.insert("foo", "second", true).unwrap();
    assert_eq!(store.get_with("foo", &key).unwrap(), "second");
    assert_eq!(store.len(), 1);
}

#[test]
fn get_of_a_missing_item_is_item_not_found() {
    let key = Identity::generate();
    let store = store_for(&key);
    match store.get_with("nothing", &key) {
        Err(Error::ItemNotFound(name)) => assert_eq!(name, "nothing"),
        _ => panic!("expected ItemNotFound"),
    }
    match store.get("nothing", &KeyFile::absent(), None) {
        Err(Error::ItemNotFound(name)) => assert_eq!(name, "nothing"),
        _ => panic!("expected ItemNotFound"),
    }
    assert!(store.envelope("nothing").is_none());
}

#[test]
fn get_without_a_key_is_no_secret_key() {
    let key = Identity::generate();
    let mut store = store_for(&key);
    store.insert("foo", "bar", false).unwrap();
    assert!(matches!(store.get("foo", &KeyFile::absent(), None), Err(Error::NoSecretKey)));
}

#[test]
fn get_with_the_wrong_key_is_a_decrypt_error() {
    let key = Identity::generate();
    let stranger = Identity::generate();
    let mut store = store_for(&key);
    store.insert("foo", "bar", false).unwrap();
    assert!(matches!(store.get_with("foo", &stranger), Err(Error::DecryptError)));
    let file = key_file_of(&stranger);
    assert!(matches!(store.get("foo", &file, None), Err(Error::DecryptError)));
}

#[test]
fn get_reads_through_a_locked_key_file() {
    let key = Identity::generate();
    let mut store = store_for(&key);
    store.insert("foo", "bar", false).unwrap();
    let mut file = key_file_of(&key);
    encrypt_secret_key(&mut file, None, "pass").unwrap();
    assert_eq!(store.get("foo", &file, Some("pass")).unwrap(), "bar");
    assert!(matches!(store.get("foo", &file, None), Err(Error::DecryptError)));
    assert!(file.is_locked());
}

#[test]
fn update_replaces_and_never_creates() {
    let key = Identity::generate();
    let mut store = store_for(&key);
    match store.update("foo", "bar") {
        Err(Error::ItemNotFound(name)) => assert_eq!(name, "foo"),
        _ => panic!("expected ItemNotFound"),
    }
    assert!(!store.contains("foo"));
    store.insert("foo", "bar", false).unwrap();
    store.insert("other", "kept", false).unwrap();
    store.update("foo", "baz").unwrap();
    assert_eq!(store.get_with("foo", &key).unwrap(), "baz");
    assert_eq!(store.get_with("other", &key).unwrap(), "kept");
    assert_eq!(store.items(), vec!["foo".to_string(), "other".to_string()]);
}

#[test]
fn delete_then_get_is_item_not_found() {
    let key = Identity::generate();
    let mut store = store_for(&key);
    store.insert("a", "1", false).unwrap();
    store.insert("b", "2", false).unwrap();
    store.insert("c", "3", false).unwrap();
    store.delete("b").unwrap();
    assert!(!store.contains("b"));
    match store.get_with("b", &key) {
        Err(Error::ItemNotFound(name)) => assert_eq!(name, "b"),
        _ => panic!("expected ItemNotFound"),
    }
    assert_eq!(store.items(), vec!["a".to_string(), "c".to_string()]);
    assert_eq!(store.get_with("a", &key).unwrap(), "1");
    assert_eq!(store.get_with("c", &key).unwrap(), "3");
}

#[test]
fn delete_of_a_missing_item_is_item_not_found() {
    let key = Identity::generate();
    let mut store = store_for(&key);
    store.insert("a", "1", false).unwrap();
    match store.delete("b") {
        Err(Error::ItemNotFound(name)) => assert_eq!(name, "b"),
        _ => panic!("expected ItemNotFound"),
    }
    assert_eq!(store.items(), vec!["a".to_string()]);
}

#[test]
fn insert_seals_for_the_recipients_set_last() {
    let mut store = PasswordStore::new(None);
    store.put("old", vec![1, 2, 3]);
    let key = Identity::generate();
    store.set_recipients(vec![key.to_public()]);
    store.insert("fine", "text", false).unwrap();
    assert_eq!(store.get_with("fine", &key).unwrap(), "text");
    assert_eq!(store.envelope("old").unwrap(), &[1, 2, 3]);
}

#[test]
fn put_holds_the_envelope_as_given() {
    let key = Identity::generate();
    let mut store = store_for(&key);
    let envelope = encrypt_with_keys("made elsewhere", &[key.to_public()]).unwrap();
    store.put("x", envelope.clone());
    assert_eq!(store.envelope("x").unwrap(), &envelope[..]);
    assert_eq!(store.get_with("x", &key).unwrap(), "made elsewhere");
    store.put("x", vec![9]);
    assert_eq!(store.envelope("x").unwrap(), &[9]);
    assert_eq!(store.len(), 1);
}

#[test]
fn item_names_and_paths() {
    assert_eq!(item_path("mail/work"), "mail/work.age");
    assert_eq!(item_name("mail/work.age").unwrap(), "mail/work");
    assert_eq!(item_name("foo.age").unwrap(), "foo");
    assert_eq!(item_name("a.b.age").unwrap(), "a.b");
    assert_eq!(item_name(".hidden/foo.age").unwrap(), ".hidden/foo");
    assert_eq!(item_name("k\u{e4}se/br\u{f6}t.age").unwrap(), "k\u{e4}se/br\u{f6}t");
    assert!(item_name(".public-keys").is_none());
    assert!(item_name(".age").is_none());
    assert!(item_name("dir/.age").is_none());
    assert!(item_name("dir/.hidden.age").is_none());
    assert!(item_name("foo.txt").is_none());
    assert!(item_name("foo.AGE").is_none());
    assert!(item_name("age").is_none());
    assert!(item_name("").is_none());
    assert!(item_name("mail/").is_none());
}

#[test]
fn add_file_takes_items_and_leaves_the_rest() {
    let mut store = PasswordStore::new(None);
    assert!(store.add_file("b.age", vec![2]));
    assert!(store.add_file("dir/a.age", vec![1]));
    assert!(!store.add_file(".public-keys", vec![3]));
    assert!(!store.add_file("notes.txt", vec![4]));
    assert!(!store.add_file("dir/.secret.age", vec![5]));
    assert!(!store.add_file("b.age", vec![6]));
    assert_eq!(store.items(), vec!["b".to_string(), "dir/a".to_string()]);
    assert_eq!(store.envelope("b").unwrap(), &[2]);
    assert_eq!(store.envelope("dir/a").unwrap(), &[1]);
}

#[test]
fn reencrypt_seals_every_item_for_the_current_recipients() {
    let old = Identity::generate();
    let new = Identity::generate();
    let mut store = store_for(&old);
    store.insert("a", "1", false).unwrap();
    store.insert("b", "2", false).unwrap();
    let before_a = store.envelope("a").unwrap().to_vec();
    store.set_recipients(vec![new.to_public()]);
    store.reencrypt(&old).unwrap();
    assert_eq!(store.items(), vec!["a".to_string(), "b".to_string()]);
    assert_ne!(store.envelope("a").unwrap(), &before_a[..]);
    assert_eq!(store.get_with("a", &new).unwrap(), "1");
    assert_eq!(store.get_with("b", &new).unwrap(), "2");
    assert!(matches!(store.get_with("a", &old), Err(Error::DecryptError)));
    assert!(matches!(
        decrypt_with_key(store.envelope("b").unwrap(), &old),
        Err(Error::DecryptError)
    ));
}

#[test]
fn reencrypt_stops_at_the_first_item_that_fails() {
    let old = Identity::generate();
    let new = Identity::generate();
    let stranger = Identity::generate();
    let mut store = store_for(&old);
    store.insert("a", "1", false).unwrap();
    store.put("b", encrypt_with_keys("2", &[stranger.to_public()]).unwrap());
    store.insert("c", "3", false).unwrap();
    let before_b = store.envelope("b").unwrap().to_vec();
    let before_c = store.envelope("c").unwrap().to_vec();
    store.set_recipients(vec![new.to_public()]);
    assert!(matches!(store.reencrypt(&old), Err(Error::DecryptError)));
    assert_eq!(store.get_with("a", &new).unwrap(), "1");
    assert_eq!(store.envelope("b").unwrap(), &before_b[..]);
    assert_eq!(store.envelope("c").unwrap(), &before_c[..]);
    assert_eq!(store.get_with("c", &old).unwrap(), "3");
}

#[test]
fn reencrypt_of_an_empty_store_does_nothing() {
    let key = Identity::generate();
    let mut store = store_for(&key);
    store.reencrypt(&key).unwrap();
    assert_eq!(store.len(), 0);
}
