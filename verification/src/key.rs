//! The key file of a store: absent, holding the secret key in the clear, or
//! holding it locked under a passphrase.

use crate::crypt::{
    addressed_to_recipients, decrypt_with_passphrase, encrypt_with_passphrase, held_under,
};
use crate::error::{fails_with, outcome, Error, ErrorView};
use crate::identity::{identities_in, identity_texts, valid_identity, Identity};
use vstd::prelude::*;
use vstd::slice::slice_to_vec;
use vstd::string::StringExecFns;
use vstd::utf8::encode_utf8;

verus! {

/// The key file: its bytes, or nothing where there is no file.
pub struct KeyFile {
    contents: Option<Vec<u8>>,
}

impl View for KeyFile {
    type V = Option<Seq<u8>>;

    closed spec fn view(&self) -> Option<Seq<u8>> {
        match self.contents {
            Some(bytes) => Some(bytes@),
            None => None,
        }
    }
}

/// The secret key that a key file in the clear holds: the last one it lists.
/// `NoSecretKey` where it lists none, and a fault where the bytes are not a
/// key file.
pub open spec fn stored_identity(data: Seq<u8>) -> Result<Seq<char>, ErrorView> {
    match identities_in(data) {
        None => Err(ErrorView::Other("invalid identity file"@)),
        Some(found) => if found.len() == 0 {
            Err(ErrorView::NoSecretKey)
        } else {
            Ok(found.last())
        },
    }
}

/// The key file is present and does not read as a key file in the clear, so it
/// is taken to be locked under a passphrase.
pub open spec fn is_locked(file: Option<Seq<u8>>) -> bool {
    file matches Some(data) && identities_in(data) is None
}

/// A passphrase that may be missing, as a mathematical value.
pub open spec fn passphrase_view(passphrase: Option<&str>) -> Option<Seq<char>> {
    match passphrase {
        Some(p) => Some(p@),
        None => None,
    }
}

/// The bytes in which the key of a key file is looked for: the file itself
/// where it is in the clear, and what it holds under the passphrase where it
/// is locked. Nothing where there is no file, or it is locked and the
/// passphrase is missing or not the one it was locked with.
pub open spec fn key_text(file: Option<Seq<u8>>, passphrase: Option<Seq<char>>) -> Option<
    Seq<u8>,
> {
    match file {
        None => None,
        Some(data) => if identities_in(data) is Some {
            Some(data)
        } else {
            match passphrase {
                Some(p) => held_under(data, p),
                None => None,
            }
        },
    }
}

/// The key that the key file holds for whoever has the passphrase: the last
/// key listed in the file, or in what the file holds under the passphrase.
pub open spec fn key_within(file: Option<Seq<u8>>, passphrase: Option<Seq<char>>) -> Result<
    Seq<char>,
    ErrorView,
> {
    match key_text(file, passphrase) {
        Some(text) => stored_identity(text),
        None => Err(ErrorView::NoSecretKey),
    }
}

/// The key file after `key` was saved to it, and what saving reports: an
/// existing file is only replaced when `force` is set.
pub open spec fn saved(file: Option<Seq<u8>>, key: Seq<char>, force: bool) -> (
    Result<(), ErrorView>,
    Option<Seq<u8>>,
) {
    if file is Some && !force {
        (Err(ErrorView::SecretKeyExists), file)
    } else {
        (Ok(()), Some(encode_utf8(key)))
    }
}

/// The key file after an attempt to lock it, and what locking reports, given
/// what sealing the key produced.
pub open spec fn locked_with(file: Option<Seq<u8>>, sealed: Result<Seq<u8>, ErrorView>) -> (
    Result<(), ErrorView>,
    Option<Seq<u8>>,
) {
    match sealed {
        Ok(envelope) => (Ok(()), Some(envelope)),
        Err(e) => (Err(e), file),
    }
}

/// The key file after an attempt to unlock it, and what unlocking reports,
/// given what opening the locked file yielded: the key found in the opened
/// text is saved in the clear.
pub open spec fn unlocked_with(file: Option<Seq<u8>>, opened: Result<Seq<char>, ErrorView>) -> (
    Result<(), ErrorView>,
    Option<Seq<u8>>,
) {
    match opened {
        Ok(text) => match stored_identity(encode_utf8(text)) {
            Ok(key) => (Ok(()), Some(encode_utf8(key))),
            Err(e) => (Err(e), file),
        },
        Err(e) => (Err(e), file),
    }
}

impl KeyFile {
    /// No key file.
    pub fn absent() -> (file: KeyFile)
        ensures
            file@ is None,
    {
        KeyFile { contents: None }
    }

    /// A key file with these bytes.
    pub fn holding(bytes: Vec<u8>) -> (file: KeyFile)
        ensures
            file@ == Some(bytes@),
    {
        KeyFile { contents: Some(bytes) }
    }

    /// Whether there is a key file.
    pub fn is_present(&self) -> (present: bool)
        ensures
            present == self@ is Some,
    {
        self.contents.is_some()
    }

    /// The bytes of the key file, if there is one.
    pub fn bytes(&self) -> (bytes: Option<&[u8]>)
        ensures
            bytes matches Some(b) ==> self@ == Some(b@),
            bytes is None ==> self@ is None,
    {
        match &self.contents {
            Some(bytes) => Some(bytes.as_slice()),
            None => None,
        }
    }

    /// Whether the key file is locked under a passphrase, so that reading the
    /// key takes the passphrase.
    pub fn is_locked(&self) -> (locked: bool)
        ensures
            locked == is_locked(self@),
    {
        match &self.contents {
            Some(bytes) => Identity::parse_all(bytes.as_slice()).is_none(),
            None => false,
        }
    }
}

/// The last of the keys that a key file lists; `NoSecretKey` where it lists none.
fn last_identity(keys: Vec<Identity>) -> (r: Result<Identity, Error>)
    ensures
        outcome(r) == if keys@.len() == 0 {
            Err::<Seq<char>, ErrorView>(ErrorView::NoSecretKey)
        } else {
            Ok(identity_texts(keys@).last())
        },
{
    let mut keys = keys;
    match keys.pop() {
        Some(key) => Ok(key),
        None => Err(Error::NoSecretKey),
    }
}

/// Reads the secret key from the bytes of a key file in the clear: the last
/// key that the file lists.
pub fn identity_from_bytes(data: &[u8]) -> (r: Result<Identity, Error>)
    ensures
        outcome(r) == stored_identity(data@),
{
    match Identity::parse_all(data) {
        Some(keys) => last_identity(keys),
        None => Err(Error::Other(String::from_str("invalid identity file"))),
    }
}

/// The secret key in the text that opening a locked key file yielded; a
/// failure to open is passed on.
pub fn identity_from_opened(opened: Result<String, Error>) -> (r: Result<Identity, Error>)
    ensures
        outcome(r) == match outcome(opened) {
            Ok(text) => stored_identity(encode_utf8(text)),
            Err(e) => Err(e),
        },
{
    match opened {
        Ok(text) => identity_from_bytes(text.as_str().as_bytes()),
        Err(e) => Err(e),
    }
}

/// Saves `key` to the key file in the clear. An existing key file is replaced
/// only when `force` is set; otherwise saving fails with `SecretKeyExists` and
/// the file stays as it is.
pub fn save_secret_key(key: &Identity, file: &mut KeyFile, force: bool) -> (r: Result<(), Error>)
    ensures
        (outcome(r), final(file)@) == saved(old(file)@, key@, force),
{
    if file.contents.is_some() && !force {
        return Err(Error::SecretKeyExists);
    }
    file.contents = Some(slice_to_vec(key.as_str().as_bytes()));
    Ok(())
}

/// Reads the secret key from the key file. A locked key file is opened with
/// `passphrase` for the reading; the file itself stays locked.
///
/// Fails with `NoSecretKey` where there is no key file or it lists no key, and
/// with `DecryptError` where the file is locked and no passphrase is given.
/// Whether a locked file opens is decided by the passphrase and the machine;
/// where it does, the outcome is that of the text the file holds under the
/// passphrase. A key that is returned is always the one within the file.
pub fn read_secret_key(file: &KeyFile, passphrase: Option<&str>) -> (r: Result<Identity, Error>)
    ensures
        file@ is None ==> fails_with(r, ErrorView::NoSecretKey),
        file@ is Some && !is_locked(file@) ==> outcome(r) == stored_identity(file@->0),
        is_locked(file@) && passphrase is None ==> fails_with(r, ErrorView::DecryptError),
        is_locked(file@) && passphrase is Some && addressed_to_recipients(file@->0) ==> fails_with(
            r,
            ErrorView::KeyNotEncrypted,
        ),
        is_locked(file@) && passphrase is Some && !addressed_to_recipients(file@->0)
            ==> fails_with(r, ErrorView::DecryptError) || (key_text(
            file@,
            passphrase_view(passphrase),
        ) is Some && outcome(r) == key_within(file@, passphrase_view(passphrase))),
        r is Ok ==> key_text(file@, passphrase_view(passphrase)) is Some && outcome(r)
            == key_within(file@, passphrase_view(passphrase)),
        r matches Ok(key) ==> valid_identity(key@),
{
    let r = match &file.contents {
        None => Err(Error::NoSecretKey),
        Some(bytes) => match Identity::parse_all(bytes.as_slice()) {
            Some(keys) => last_identity(keys),
            None => match passphrase {
                None => Err(Error::DecryptError),
                Some(secret) => identity_from_opened(
                    decrypt_with_passphrase(bytes.as_slice(), secret),
                ),
            },
        },
    };
    proof {
        if let Ok(key) = &r {
            use_type_invariant(key);
        }
    }
    r
}

/// Puts the sealed key in place of the key file; where sealing failed, the
/// failure is passed on and the file stays as it is.
pub fn lock_with(file: &mut KeyFile, sealed: Result<Vec<u8>, Error>) -> (r: Result<(), Error>)
    ensures
        (outcome(r), final(file)@) == locked_with(old(file)@, outcome(sealed)),
{
    match sealed {
        Ok(envelope) => {
            file.contents = Some(envelope);
            Ok(())
        },
        Err(e) => Err(e),
    }
}

/// Saves the key found in the opened text to the key file in the clear; where
/// opening failed or the text holds no key, the failure is passed on and the
/// file stays as it is.
pub fn unlock_with(file: &mut KeyFile, opened: Result<String, Error>) -> (r: Result<(), Error>)
    ensures
        (outcome(r), final(file)@) == unlocked_with(old(file)@, outcome(opened)),
{
    match identity_from_opened(opened) {
        Ok(key) => save_secret_key(&key, file, true),
        Err(e) => Err(e),
    }
}

/// Locks the key file: reads the secret key, seals its encoding with
/// `passphrase` and puts the envelope in place of the file. A key file that is
/// locked already is read with `current` first.
///
/// Fails with `NoSecretKey` where there is no key file or it lists no key;
/// a key file in the clear that lists a key is always locked. On any failure
/// the file stays as it is; on success it is locked: it is an envelope that
/// holds, under `passphrase`, the encoding of the key that was within the
/// file. Of a key file that is locked already, reading decides, as
/// [`read_secret_key`] says.
pub fn encrypt_secret_key(file: &mut KeyFile, current: Option<&str>, passphrase: &str) -> (r:
    Result<(), Error>)
    ensures
        r is Err ==> final(file)@ == old(file)@,
        r is Ok ==> is_locked(final(file)@) && !addressed_to_recipients(final(file)@->0),
        old(file)@ is None ==> fails_with(r, ErrorView::NoSecretKey),
        old(file)@ is Some && !is_locked(old(file)@) ==> match stored_identity(old(file)@->0) {
            Ok(_) => r is Ok,
            Err(e) => fails_with(r, e),
        },
        is_locked(old(file)@) && current is None ==> fails_with(r, ErrorView::DecryptError),
        is_locked(old(file)@) && current is Some && addressed_to_recipients(old(file)@->0)
            ==> fails_with(r, ErrorView::KeyNotEncrypted),
        is_locked(old(file)@) && current is Some && !addressed_to_recipients(old(file)@->0)
            ==> fails_with(r, ErrorView::DecryptError) || (key_text(
            old(file)@,
            passphrase_view(current),
        ) is Some && match key_within(old(file)@, passphrase_view(current)) {
            Ok(_) => r is Ok,
            Err(e) => fails_with(r, e),
        }),
        r is Ok ==> key_within(old(file)@, passphrase_view(current)) is Ok && held_under(
            final(file)@->0,
            passphrase@,
        ) == Some(encode_utf8(key_within(old(file)@, passphrase_view(current))->Ok_0)),
{
    match read_secret_key(file, current) {
        Ok(key) => lock_with(file, encrypt_with_passphrase(key.as_str(), passphrase)),
        Err(e) => Err(e),
    }
}

/// Unlocks the key file: opens it with `passphrase` and saves the key found
/// inside in the clear.
///
/// Fails with `NoSecretKey` where there is no key file, and with
/// `KeyNotEncrypted` where the file is not locked or holds an envelope
/// addressed to recipients. On any failure the file stays as it is. Whether
/// the envelope opens is decided by the passphrase and the machine; where
/// unlocking succeeds, the file holds in the clear the key that it held under
/// the passphrase.
pub fn decrypt_secret_key(file: &mut KeyFile, passphrase: &str) -> (r: Result<(), Error>)
    ensures
        r is Err ==> final(file)@ == old(file)@,
        r is Ok ==> is_locked(old(file)@) && key_within(old(file)@, Some(passphrase@)) is Ok
            && final(file)@ == Some(
            encode_utf8(key_within(old(file)@, Some(passphrase@))->Ok_0),
        ),
        old(file)@ is None ==> fails_with(r, ErrorView::NoSecretKey),
        old(file)@ is Some && !is_locked(old(file)@) ==> fails_with(r, ErrorView::KeyNotEncrypted),
        is_locked(old(file)@) && addressed_to_recipients(old(file)@->0) ==> fails_with(
            r,
            ErrorView::KeyNotEncrypted,
        ),
        is_locked(old(file)@) && !addressed_to_recipients(old(file)@->0) ==> fails_with(
            r,
            ErrorView::DecryptError,
        ) || (held_under(old(file)@->0, passphrase@) is Some && match key_within(
            old(file)@,
            Some(passphrase@),
        ) {
            Ok(_) => r is Ok,
            Err(e) => fails_with(r, e),
        }),
{
    let opened = match &file.contents {
        None => {
            return Err(Error::NoSecretKey);
        },
        Some(bytes) => {
            if Identity::parse_all(bytes.as_slice()).is_some() {
                return Err(Error::KeyNotEncrypted);
            }
            decrypt_with_passphrase(bytes.as_slice(), passphrase)
        },
    };
    unlock_with(file, opened)
}

/// A key that was saved is the key that is read back: the file is in the
/// clear and lists just this key.
pub proof fn lemma_save_then_read(file: Option<Seq<u8>>, key: Seq<char>)
    requires
        valid_identity(key),
    ensures
        saved(file, key, true).0 is Ok,
        saved(file, key, true).1 is Some,
        !is_locked(saved(file, key, true).1),
        stored_identity(saved(file, key, true).1->0) == Ok::<Seq<char>, ErrorView>(key),
{
    assert(seq![key].last() == key);
}

/// Unlocking restores the key that was locked: where a key file was locked
/// under a passphrase and unlocking it with that passphrase succeeds, the file
/// is again what saving the key in the clear had made it, and reads back as
/// that key.
pub proof fn lemma_lock_then_unlock(
    key: Seq<char>,
    passphrase: Seq<char>,
    locked: Seq<u8>,
    unlocked: Option<Seq<u8>>,
)
    requires
        valid_identity(key),
        identities_in(locked) is None,
        held_under(locked, passphrase) == Some(encode_utf8(key)),
        key_within(Some(locked), Some(passphrase)) is Ok,
        unlocked == Some(encode_utf8(key_within(Some(locked), Some(passphrase))->Ok_0)),
    ensures
        unlocked == saved(None, key, true).1,
        !is_locked(unlocked),
        stored_identity(unlocked->0) == Ok::<Seq<char>, ErrorView>(key),
{
    assert(seq![key].last() == key);
}

} // verus!
