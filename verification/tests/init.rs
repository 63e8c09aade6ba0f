use passage::crypt::{decrypt_with_key, encrypt_with_keys};
use passage::identity::Identity;
use passage::init::{choose_identities, init, init_with, keep_key, keeps, rekey};
use passage::key::{encrypt_secret_key, read_secret_key, save_secret_key, KeyFile};
use passage::recipients::Recipient;
use passage::store::PasswordStore;
use passage::Error;

const PK_A: &str = "age1t7rxyev2z3rw82stdlrrepyc39nvn86l5078zqkf5uasdy86jp6svpy7pa";

fn texts(set: &[Recipient]) -> Vec<String> {
    set.iter().map(|r| r.to_string()).collect()
}

fn sorted(mut texts: Vec<String>) -> Vec<String> {
    texts.sort();
    texts.dedup();
    texts
}

fn key_file_of(key: &Identity) -> KeyFile {
    let mut file = KeyFile::absent();
    save_secret_key(key, &mut file, true).unwrap();
    file
}

#[test]
fn first_init_draws_a_key_and_makes_it_the_recipient() {
    let mut store = PasswordStore::new(None);
    let mut key_file = KeyFile::absent();
    let set = init(&mut store, &mut key_file, None, None, vec![]).unwrap();
    let key = read_secret_key(&key_file, None).unwrap();
    assert_eq!(texts(&set), vec![key.to_public().to_string()]);
    assert_eq!(texts(store.recipients()), texts(&set));
    assert_eq!(store.recipients_file(), format!("{}\n", key.to_public().to_string()));
    store.insert("foo", "bar", false).unwrap();
    assert_eq!(store.get("foo", &key_file, None).unwrap(), "bar");
}

#[test]
fn init_with_a_supplied_key_and_no_key_file_takes_that_key() {
    let supplied = Identity::generate();
    let mut store = PasswordStore::new(None);
    let mut key_file = KeyFile::absent();
    let set = init(&mut store, &mut key_file, None, Some(supplied.clone()), vec![]).unwrap();
    assert_eq!(texts(&set), vec![supplied.to_public().to_string()]);
    assert_eq!(key_file.bytes().unwrap(), supplied.to_string().as_bytes());
}

#[test]
fn init_again_keeps_the_key_and_the_items() {
    let key = Identity::generate();
    let mut key_file = key_file_of(&key);
    let mut store =
        PasswordStore::new(Some(format!("{}\n", key.to_public().to_string()).as_bytes()));
    store.insert("foo", "bar", false).unwrap();
    let envelope = store.envelope("foo").unwrap().to_vec();
    let set = init(&mut store, &mut key_file, None, None, vec![]).unwrap();
    assert_eq!(texts(&set), vec![key.to_public().to_string()]);
    assert_eq!(key_file.bytes().unwrap(), key.to_string().as_bytes());
    assert_eq!(store.envelope("foo").unwrap(), &envelope[..]);
    let same =
        init(&mut store, &mut key_file, None, Some(key.clone()), vec![]).unwrap();
    assert_eq!(texts(&same), vec![key.to_public().to_string()]);
    assert_eq!(store.envelope("foo").unwrap(), &envelope[..]);
}

#[test]
fn init_adds_extra_recipients_sorted_and_once() {
    let key = Identity::generate();
    let friend = Identity::generate().to_public();
    let mut key_file = key_file_of(&key);
    let mut store = PasswordStore::new(Some(
        format!("{}\n{}\n", key.to_public().to_string(), key.to_public().to_string()).as_bytes(),
    ));
    let extra = vec![
        friend.clone(),
        Recipient::parse(PK_A).unwrap(),
        friend.clone(),
        key.to_public(),
    ];
    let set = init(&mut store, &mut key_file, None, None, extra).unwrap();
    let expected =
        sorted(vec![key.to_public().to_string(), friend.to_string(), PK_A.to_string()]);
    assert_eq!(texts(&set), expected);
    assert_eq!(store.recipients_file(), expected.join("\n") + "\n");
}

#[test]
fn rotation_reseals_the_items_and_retires_the_old_key() {
    let first = Identity::generate();
    let second = Identity::generate();
    let mut key_file = key_file_of(&first);
    let mut store =
        PasswordStore::new(Some(format!("{}\n", first.to_public().to_string()).as_bytes()));
    store.insert("foo", "bar", false).unwrap();

    let set = init(&mut store, &mut key_file, None, Some(second.clone()), vec![]).unwrap();

    assert_eq!(texts(&set), vec![second.to_public().to_string()]);
    assert_eq!(texts(store.recipients()), vec![second.to_public().to_string()]);
    assert_eq!(key_file.bytes().unwrap(), second.to_string().as_bytes());
    assert_eq!(store.get("foo", &key_file, None).unwrap(), "bar");
    assert_eq!(store.get_with("foo", &second).unwrap(), "bar");
    assert!(matches!(
        decrypt_with_key(store.envelope("foo").unwrap(), &first),
        Err(Error::DecryptError)
    ));
}

#[test]
fn rotation_drops_the_old_key_even_among_the_extras() {
    let first = Identity::generate();
    let second = Identity::generate();
    let mut key_file = key_file_of(&first);
    let mut store =
        PasswordStore::new(Some(format!("{}\n", first.to_public().to_string()).as_bytes()));
    let set = init(
        &mut store,
        &mut key_file,
        None,
        Some(second.clone()),
        vec![first.to_public(), Recipient::parse(PK_A).unwrap()],
    )
    .unwrap();
    assert_eq!(
        texts(&set),
        sorted(vec![second.to_public().to_string(), PK_A.to_string()])
    );
}

#[test]
fn failed_rotation_keeps_the_key_file_and_the_recipients() {
    let first = Identity::generate();
    let second = Identity::generate();
    let stranger = Identity::generate();
    let mut key_file = key_file_of(&first);
    let mut store =
        PasswordStore::new(Some(format!("{}\n", first.to_public().to_string()).as_bytes()));
    store.insert("a", "1", false).unwrap();
    store.put("b", encrypt_with_keys("2", &[stranger.to_public()]).unwrap());
    store.insert("c", "3", false).unwrap();
    let before_b = store.envelope("b").unwrap().to_vec();
    let before_c = store.envelope("c").unwrap().to_vec();

    let r = init(&mut store, &mut key_file, None, Some(second.clone()), vec![]);

    assert!(matches!(r, Err(Error::DecryptError)));
    assert_eq!(key_file.bytes().unwrap(), first.to_string().as_bytes());
    assert_eq!(texts(store.recipients()), vec![first.to_public().to_string()]);
    assert_eq!(store.get_with("a", &second).unwrap(), "1");
    assert_eq!(store.envelope("b").unwrap(), &before_b[..]);
    assert_eq!(store.envelope("c").unwrap(), &before_c[..]);
    assert_eq!(store.get("c", &key_file, None).unwrap(), "3");
}

#[test]
fn init_with_an_unreadable_key_file_changes_nothing() {
    let mut key_file = KeyFile::holding(b"AGE-".to_vec());
    assert!(key_file.is_locked());
    let mut store = PasswordStore::new(Some(format!("{}\n", PK_A).as_bytes()));
    let r = init(&mut store, &mut key_file, Some("pass"), None, vec![]);
    assert!(matches!(r, Err(Error::DecryptError)));
    assert_eq!(key_file.bytes().unwrap(), b"AGE-");
    assert_eq!(texts(store.recipients()), vec![PK_A.to_string()]);
}

#[test]
fn init_reads_through_a_locked_key_file_and_leaves_it_locked() {
    let key = Identity::generate();
    let mut key_file = key_file_of(&key);
    encrypt_secret_key(&mut key_file, None, "pass").unwrap();
    let locked = key_file.bytes().unwrap().to_vec();
    let mut store = PasswordStore::new(None);
    assert!(matches!(
        init(&mut store, &mut key_file, None, None, vec![]),
        Err(Error::DecryptError)
    ));
    assert_eq!(key_file.bytes().unwrap(), &locked[..]);
    let set = init(&mut store, &mut key_file, Some("pass"), None, vec![]).unwrap();
    assert_eq!(texts(&set), vec![key.to_public().to_string()]);
    assert!(key_file.is_locked());
    assert_eq!(key_file.bytes().unwrap(), &locked[..]);
}

#[test]
fn rotation_from_a_locked_key_file_saves_the_new_key_in_the_clear() {
    let first = Identity::generate();
    let second = Identity::generate();
    let mut key_file = key_file_of(&first);
    encrypt_secret_key(&mut key_file, None, "pass").unwrap();
    let mut store =
        PasswordStore::new(Some(format!("{}\n", first.to_public().to_string()).as_bytes()));
    store.insert("foo", "bar", false).unwrap();
    let set =
        init(&mut store, &mut key_file, Some("pass"), Some(second.clone()), vec![]).unwrap();
    assert_eq!(texts(&set), vec![second.to_public().to_string()]);
    assert_eq!(key_file.bytes().unwrap(), second.to_string().as_bytes());
    assert_eq!(store.get_with("foo", &second).unwrap(), "bar");
}

#[test]
fn keep_key_only_changes_the_recipients() {
    let key = Identity::generate();
    let mut store = PasswordStore::new(None);
    store.put("raw", vec![1, 2, 3]);
    let set = keep_key(&mut store, &key, vec![Recipient::parse(PK_A).unwrap()]);
    assert_eq!(texts(&set), sorted(vec![key.to_public().to_string(), PK_A.to_string()]));
    assert_eq!(texts(store.recipients()), texts(&set));
    assert_eq!(store.envelope("raw").unwrap(), &[1, 2, 3]);
}

#[test]
fn keeps_tells_when_the_store_keeps_its_key() {
    let p = Identity::generate();
    let s = Identity::generate();
    assert!(keeps(&Some(p.clone()), &None));
    assert!(keeps(&Some(p.clone()), &Some(p.clone())));
    assert!(!keeps(&Some(p.clone()), &Some(s.clone())));
    assert!(!keeps(&None, &Some(s.clone())));
    assert!(!keeps(&None, &None));
}

#[test]
fn a_second_init_leaves_the_recipients_file_as_it_is() {
    let key = Identity::generate();
    let friend = Identity::generate().to_public();
    let mut key_file = key_file_of(&key);
    let mut store = PasswordStore::new(None);
    init(&mut store, &mut key_file, None, None, vec![friend.clone()]).unwrap();
    let first = store.recipients_file();
    let mut again = PasswordStore::new(Some(first.as_bytes()));
    init(&mut again, &mut key_file, None, None, vec![friend.clone()]).unwrap();
    assert_eq!(again.recipients_file(), first);
}

#[test]
fn init_does_not_depend_on_the_order_of_lines_and_extras() {
    let key = Identity::generate();
    let a = Identity::generate().to_public();
    let b = Identity::generate().to_public();
    let c = Recipient::parse(PK_A).unwrap();
    let mut key_file = key_file_of(&key);
    let mut one = PasswordStore::new(Some(
        format!("{}\n{}\n", a.to_string(), c.to_string()).as_bytes(),
    ));
    let mut two = PasswordStore::new(Some(
        format!("{}\n{}\n", c.to_string(), a.to_string()).as_bytes(),
    ));
    init(&mut one, &mut key_file, None, None, vec![a.clone(), b.clone()]).unwrap();
    init(&mut two, &mut key_file, None, None, vec![b.clone(), a.clone()]).unwrap();
    assert_eq!(one.recipients_file(), two.recipients_file());
}

#[test]
fn choose_identities_follows_the_rotation_rules() {
    let p = Identity::generate();
    let s = Identity::generate();
    let (old, new) = choose_identities(Some(p.clone()), Some(s.clone()));
    assert!(old.unwrap().same_as(&p));
    assert!(new.unwrap().same_as(&s));
    let (old, new) = choose_identities(Some(p.clone()), Some(p.clone()));
    assert!(old.is_none());
    assert!(new.unwrap().same_as(&p));
    let (old, new) = choose_identities(None, Some(s.clone()));
    assert!(old.is_none());
    assert!(new.unwrap().same_as(&s));
    let (old, new) = choose_identities(Some(p.clone()), None);
    assert!(old.is_none());
    assert!(new.unwrap().same_as(&p));
    let (old, new) = choose_identities(None, None);
    assert!(old.is_none());
    assert!(new.is_none());
}

#[test]
fn rekey_without_rotation_only_touches_key_file_and_recipients() {
    let key = Identity::generate();
    let mut store = PasswordStore::new(None);
    store.put("raw", vec![1, 2, 3]);
    let mut key_file = KeyFile::absent();
    let set = rekey(&mut store, &mut key_file, None, key.clone(), vec![]).unwrap();
    assert_eq!(texts(&set), vec![key.to_public().to_string()]);
    assert_eq!(store.envelope("raw").unwrap(), &[1, 2, 3]);
    assert_eq!(key_file.bytes().unwrap(), key.to_string().as_bytes());
}

#[test]
fn init_with_follows_the_key_it_is_given() {
    let had = Identity::generate();
    let given = Identity::generate();
    let mut store =
        PasswordStore::new(Some(format!("{}\n", had.to_public().to_string()).as_bytes()));
    store.insert("foo", "bar", false).unwrap();
    let mut key_file = key_file_of(&had);
    let set =
        init_with(&mut store, &mut key_file, Some(had.clone()), Some(given.clone()), vec![])
            .unwrap();
    assert_eq!(texts(&set), vec![given.to_public().to_string()]);
    assert!(read_secret_key(&key_file, None).unwrap().same_as(&given));
    assert_eq!(store.get_with("foo", &given).unwrap(), "bar");

    let mut fresh = PasswordStore::new(None);
    let mut no_key = KeyFile::absent();
    let drawn = init_with(&mut fresh, &mut no_key, None, None, vec![]).unwrap();
    let key = read_secret_key(&no_key, None).unwrap();
    assert_eq!(texts(&drawn), vec![key.to_public().to_string()]);
}

#[test]
fn init_on_a_key_file_with_a_recipient_envelope_changes_nothing() {
    let key = Identity::generate();
    let envelope = encrypt_with_keys("text", &[key.to_public()]).unwrap();
    let mut key_file = KeyFile::holding(envelope.clone());
    let mut store = PasswordStore::new(Some(format!("{}\n", PK_A).as_bytes()));
    let r = init(&mut store, &mut key_file, Some("pass"), None, vec![]);
    assert!(matches!(r, Err(Error::KeyNotEncrypted)));
    assert_eq!(key_file.bytes().unwrap(), &envelope[..]);
    assert_eq!(texts(store.recipients()), vec![PK_A.to_string()]);
}

#[test]
fn the_key_reads_back_after_every_successful_init() {
    let key = Identity::generate();
    let mut key_file = key_file_of(&key);
    let mut store = PasswordStore::new(None);
    init(&mut store, &mut key_file, None, None, vec![]).unwrap();
    assert!(!key_file.is_locked());
    assert!(read_secret_key(&key_file, None).unwrap().same_as(&key));
}
