//! The store: the items, each an envelope under a name, and the recipients
//! that new envelopes are sealed for.

use crate::crypt::{
    addressed_to_recipients, decrypt_with_key, decrypted, encrypt_with_keys, opened_with_key,
    sealed_for,
};
use crate::error::{fails_with, outcome, Error, ErrorView};
use crate::identity::{public_key_of, Identity};
use crate::key::{
    is_locked, key_text, key_within, passphrase_view, read_secret_key, stored_identity, KeyFile,
};
use crate::order::{relate, Relation};
use crate::recipients::{encodings, load, loaded, persist, rendered, Recipient};
use crate::utf8::{chars_of, texts};
use vstd::prelude::*;
use vstd::string::{StrSliceExecFns, StringExecFns};
use vstd::utf8::encode_utf8;

verus! {

/// One item of a store as a mathematical value.
pub struct ItemView {
    pub name: Seq<char>,
    pub envelope: Seq<u8>,
}

/// A store as a mathematical value: the encodings of its recipients, and its
/// items in the order in which they are listed.
pub struct StoreView {
    pub recipients: Seq<Seq<char>>,
    pub items: Seq<ItemView>,
}

impl StoreView {
    /// No name is held twice.
    pub open spec fn wf(self) -> bool {
        forall|i: int, j: int|
            0 <= i < j < self.items.len() ==> (#[trigger] self.items[i]).name
                != (#[trigger] self.items[j]).name
    }

    /// An item of this name is in the store.
    pub open spec fn has(self, name: Seq<char>) -> bool {
        exists|i: int| 0 <= i < self.items.len() && (#[trigger] self.items[i]).name == name
    }

    /// Where the item of this name is listed.
    pub open spec fn position(self, name: Seq<char>) -> int {
        choose|i: int| 0 <= i < self.items.len() && (#[trigger] self.items[i]).name == name
    }

    /// The envelope held under this name.
    pub open spec fn envelope(self, name: Seq<char>) -> Seq<u8> {
        self.items[self.position(name)].envelope
    }

    /// The names of the items, in listing order.
    pub open spec fn names(self) -> Seq<Seq<char>> {
        self.items.map_values(|item: ItemView| item.name)
    }

    /// The store with `envelope` held under `name`: in place of what was held
    /// under that name, or as a new item at the end.
    pub open spec fn put(self, name: Seq<char>, envelope: Seq<u8>) -> StoreView {
        let item = ItemView { name, envelope };
        if self.has(name) {
            StoreView { items: self.items.update(self.position(name), item), ..self }
        } else {
            StoreView { items: self.items.push(item), ..self }
        }
    }

    /// The store without the item of this name.
    pub open spec fn dropped(self, name: Seq<char>) -> StoreView {
        if self.has(name) {
            StoreView { items: self.items.remove(self.position(name)), ..self }
        } else {
            self
        }
    }

    /// What getting the item of this name with the secret key `key` yields:
    /// `ItemNotFound` where there is no such item, else what decrypting its
    /// envelope yields.
    pub open spec fn got(self, name: Seq<char>, key: Seq<char>) -> Result<Seq<char>, ErrorView> {
        if self.has(name) {
            decrypted(opened_with_key(self.envelope(name), key))
        } else {
            Err(ErrorView::ItemNotFound(name))
        }
    }
}

/// The envelope `after` holds, sealed for `recipients`, the text that `key`
/// opens the envelope `before` to.
pub open spec fn migrated(
    before: Seq<u8>,
    after: Seq<u8>,
    key: Seq<char>,
    recipients: Seq<Seq<char>>,
) -> bool {
    decrypted(opened_with_key(before, key)) matches Ok(text) && sealed_for(
        after,
        encode_utf8(text),
        recipients,
    )
}

/// The state of a store whose first `done` items have been sealed anew for its
/// recipients, while the others are as they were in `before`.
pub open spec fn migrated_up_to(before: StoreView, after: StoreView, key: Seq<char>, done: int) -> bool {
    &&& after.recipients == before.recipients
    &&& after.names() == before.names()
    &&& forall|i: int|
        0 <= i < done && i < before.items.len() ==> migrated(
            (#[trigger] before.items[i]).envelope,
            after.items[i].envelope,
            key,
            before.recipients,
        )
    &&& forall|i: int|
        done <= i < before.items.len() ==> after.items[i] == #[trigger] before.items[i]
}

/// One item of a store: an envelope under a name.
struct Item {
    name: String,
    envelope: Vec<u8>,
}

impl View for Item {
    type V = ItemView;

    closed spec fn view(&self) -> ItemView {
        ItemView { name: self.name@, envelope: self.envelope@ }
    }
}

/// A store of secrets: envelopes under names, and the recipients that new
/// envelopes are sealed for.
pub struct PasswordStore {
    recipients: Vec<Recipient>,
    items: Vec<Item>,
}

impl View for PasswordStore {
    type V = StoreView;

    closed spec fn view(&self) -> StoreView {
        StoreView {
            recipients: encodings(self.recipients@),
            items: self.items@.map_values(|item: Item| item@),
        }
    }
}

/// Putting an envelope under a name keeps the store well-formed, makes the
/// name hold that envelope, and leaves every other name as it was.
pub proof fn lemma_put(s: StoreView, name: Seq<char>, envelope: Seq<u8>)
    requires
        s.wf(),
    ensures
        s.put(name, envelope).wf(),
        s.put(name, envelope).has(name),
        s.put(name, envelope).envelope(name) == envelope,
        s.put(name, envelope).recipients == s.recipients,
        forall|other: Seq<char>|
            other != name ==> (s.put(name, envelope).has(other) <==> s.has(other)),
        forall|other: Seq<char>|
            other != name && s.has(other) ==> s.put(name, envelope).envelope(other) == s.envelope(
                other,
            ),
{
    let t = s.put(name, envelope);
    let item = ItemView { name, envelope };
    let at = if s.has(name) {
        s.position(name)
    } else {
        s.items.len() as int
    };
    assert(t.items[at] == item);
    assert(forall|i: int| 0 <= i < s.items.len() && i != at ==> t.items[i] == s.items[i]);
    assert(t.wf()) by {
        assert forall|i: int, j: int| 0 <= i < j < t.items.len() implies t.items[i].name
            != t.items[j].name by {
            if i != at && j != at {
                assert(s.items[i].name != s.items[j].name);
            } else if i == at {
                assert(s.items[j].name != name) by {
                    if s.has(name) {
                        assert(s.items[i].name != s.items[j].name);
                    }
                }
            } else {
                assert(s.items[i].name != name) by {
                    if s.has(name) {
                        assert(s.items[i].name != s.items[j].name);
                    }
                }
            }
        }
    }
    assert(t.has(name));
    assert(t.position(name) == at) by {
        let p = t.position(name);
        if p != at {
            if p < at {
                assert(t.items[p].name != t.items[at].name);
            } else {
                assert(t.items[at].name != t.items[p].name);
            }
        }
    }
    assert forall|other: Seq<char>| other != name implies (t.has(other) <==> s.has(other)) by {
        if t.has(other) {
            let i = t.position(other);
            assert(s.items[i].name == other);
        }
        if s.has(other) {
            let i = s.position(other);
            assert(t.items[i].name == other);
        }
    }
    assert forall|other: Seq<char>| other != name && s.has(other) implies t.envelope(other)
        == s.envelope(other) by {
        let i = s.position(other);
        assert(t.items[i].name == other);
        let j = t.position(other);
        assert(t.has(other));
        if i != j {
            if i < j {
                assert(t.items[i].name != t.items[j].name);
            } else {
                assert(t.items[j].name != t.items[i].name);
            }
        }
    }
}

/// Dropping a name keeps the store well-formed, takes just that name out, and
/// leaves every other name as it was.
pub proof fn lemma_dropped(s: StoreView, name: Seq<char>)
    requires
        s.wf(),
    ensures
        s.dropped(name).wf(),
        !s.dropped(name).has(name),
        s.dropped(name).recipients == s.recipients,
        forall|other: Seq<char>| other != name ==> (s.dropped(name).has(other) <==> s.has(other)),
        forall|other: Seq<char>|
            other != name && s.has(other) ==> s.dropped(name).envelope(other) == s.envelope(other),
{
    let t = s.dropped(name);
    if s.has(name) {
        let at = s.position(name);
        assert(forall|i: int| 0 <= i < at ==> t.items[i] == s.items[i]);
        assert(forall|i: int| at <= i < t.items.len() ==> t.items[i] == s.items[i + 1]);
        assert forall|i: int, j: int| 0 <= i < j < t.items.len() implies t.items[i].name
            != t.items[j].name by {
            let i0 = if i < at { i } else { i + 1 };
            let j0 = if j < at { j } else { j + 1 };
            assert(s.items[i0].name != s.items[j0].name);
        }
        if t.has(name) {
            let i = t.position(name);
            let i0 = if i < at { i } else { i + 1 };
            if i0 < at {
                assert(s.items[i0].name != s.items[at].name);
            } else {
                assert(s.items[at].name != s.items[i0].name);
            }
        }
        assert forall|other: Seq<char>| other != name implies (t.has(other) <==> s.has(other)) by {
            if t.has(other) {
                let i = t.position(other);
                let i0 = if i < at { i } else { i + 1 };
                assert(s.items[i0].name == other);
            }
            if s.has(other) {
                let i = s.position(other);
                let i1 = if i < at { i } else { i - 1 };
                assert(t.items[i1].name == other);
            }
        }
        assert forall|other: Seq<char>| other != name && s.has(other) implies t.envelope(other)
            == s.envelope(other) by {
            let i = s.position(other);
            let i1 = if i < at { i } else { i - 1 };
            assert(t.items[i1].name == other);
            assert(t.has(other));
            let j = t.position(other);
            if i1 != j {
                if i1 < j {
                    assert(t.items[i1].name != t.items[j].name);
                } else {
                    assert(t.items[j].name != t.items[i1].name);
                }
            }
        }
    } else {
        assert(t == s);
    }
}

/// What was inserted is what is got: after a text was sealed for the store's
/// recipients and put under a name, getting that name with a secret key whose
/// public key is among the recipients yields the text.
pub proof fn lemma_insert_then_get(
    s: StoreView,
    name: Seq<char>,
    text: Seq<char>,
    envelope: Seq<u8>,
    key: Seq<char>,
)
    requires
        s.wf(),
        sealed_for(envelope, encode_utf8(text), s.recipients),
        public_key_of(key) matches Some(p) && s.recipients.contains(p),
    ensures
        s.put(name, envelope).got(name, key) == Ok::<Seq<char>, ErrorView>(text),
{
    lemma_put(s, name, envelope);
    crate::crypt::lemma_seal_then_open(envelope, text, s.recipients, key);
}

/// What was deleted is gone: getting a name after it was dropped fails with
/// `ItemNotFound`, whatever the key.
pub proof fn lemma_delete_then_get(s: StoreView, name: Seq<char>, key: Seq<char>)
    requires
        s.wf(),
    ensures
        s.dropped(name).got(name, key) == Err::<Seq<char>, ErrorView>(
            ErrorView::ItemNotFound(name),
        ),
{
    lemma_dropped(s, name);
}

/// Where the file name starts in a path whose parts are separated by `/`.
pub open spec fn file_name_start(path: Seq<char>) -> int
    decreases path.len(),
{
    if path.len() == 0 {
        0
    } else if path.last() == '/' {
        path.len() as int
    } else {
        file_name_start(path.drop_last())
    }
}

/// The name of the item that a file at this path, relative to the root of the
/// store, holds: the path without the suffix `.age`. A file without that
/// suffix holds no item, nor does one whose file name starts with a dot.
pub open spec fn item_name_of(path: Seq<char>) -> Option<Seq<char>> {
    let n = path.len() as int;
    let start = file_name_start(path);
    if n >= 4 && path.subrange(n - 4, n) == seq!['.', 'a', 'g', 'e'] && !(start < n && path[start]
        == '.') {
        Some(path.take(n - 4))
    } else {
        None
    }
}

/// The path, relative to the root of the store, of the file that holds the
/// item of this name.
pub fn item_path(name: &str) -> (path: String)
    ensures
        path@ == name@ + seq!['.', 'a', 'g', 'e'],
{
    proof {
        reveal_strlit(".age");
    }
    assert(".age"@ =~= seq!['.', 'a', 'g', 'e']);
    String::from_str(name).concat(".age")
}

/// The name of the item that the file at `path` holds, if it holds one.
pub fn item_name(path: &str) -> (name: Option<String>)
    ensures
        name matches Some(n) ==> item_name_of(path@) == Some(n@),
        name is None ==> item_name_of(path@) is None,
{
    let chars = chars_of(path);
    let n = chars.len();
    if n < 4 {
        return None;
    }
    if chars[n - 4] != '.' || chars[n - 3] != 'a' || chars[n - 2] != 'g' || chars[n - 1] != 'e' {
        assert(path@.subrange(n - 4, n as int)[0] == path@[n - 4]);
        assert(path@.subrange(n - 4, n as int)[1] == path@[n - 3]);
        assert(path@.subrange(n - 4, n as int)[2] == path@[n - 2]);
        assert(path@.subrange(n - 4, n as int)[3] == path@[n - 1]);
        return None;
    }
    assert(path@.subrange(n - 4, n as int) =~= seq!['.', 'a', 'g', 'e']);
    let mut start: usize = n;
    assert(path@.take(n as int) =~= path@);
    while start > 0 && chars[start - 1] != '/'
        invariant
            start <= n,
            n == path@.len(),
            chars@ == path@,
            file_name_start(path@) == file_name_start(path@.take(start as int)),
        decreases start,
    {
        assert(path@.take(start as int).drop_last() =~= path@.take(start - 1));
        start = start - 1;
    }
    if start < n && chars[start] == '.' {
        return None;
    }
    let stem = path.substring_char(0, n - 4);
    assert(stem@ =~= path@.take(n - 4));
    Some(String::from_str(stem))
}

impl PasswordStore {
    /// A store without items, with the recipients that its recipients file
    /// names; without recipients where there is no such file.
    pub fn new(recipients_file: Option<&[u8]>) -> (store: PasswordStore)
        ensures
            store@.wf(),
            store@.items.len() == 0,
            store@.recipients == match recipients_file {
                Some(bytes) => loaded(bytes@),
                None => Seq::empty(),
            },
    {
        let recipients = match recipients_file {
            Some(bytes) => load(bytes),
            None => Vec::new(),
        };
        assert(recipients_file is None ==> encodings(recipients@) =~= Seq::<Seq<char>>::empty());
        PasswordStore { recipients, items: Vec::new() }
    }

    /// Takes the file at `path`, relative to the root of the store, into the
    /// store if it holds an item: one whose name is not in the store yet.
    pub fn add_file(&mut self, path: &str, bytes: Vec<u8>) -> (added: bool)
        requires
            old(self)@.wf(),
        ensures
            final(self)@.wf(),
            added ==> item_name_of(path@) is Some && !old(self)@.has(item_name_of(path@)->0)
                && final(self)@ == old(self)@.put(item_name_of(path@)->0, bytes@),
            !added ==> final(self)@ == old(self)@ && (item_name_of(path@) matches Some(n)
                ==> old(self)@.has(n)),
    {
        match item_name(path) {
            Some(name) => {
                if self.find(name.as_str()).is_some() {
                    false
                } else {
                    self.put(name.as_str(), bytes);
                    true
                }
            },
            None => false,
        }
    }

    /// The recipients that new envelopes are sealed for.
    pub fn recipients(&self) -> (recipients: &Vec<Recipient>)
        ensures
            encodings(recipients@) == self@.recipients,
    {
        &self.recipients
    }

    /// Replaces the recipients that new envelopes are sealed for.
    pub fn set_recipients(&mut self, recipients: Vec<Recipient>)
        requires
            old(self)@.wf(),
        ensures
            final(self)@ == (StoreView { recipients: encodings(recipients@), ..old(self)@ }),
            final(self)@.wf(),
    {
        self.recipients = recipients;
    }

    /// The text to write as the recipients file of this store.
    pub fn recipients_file(&self) -> (text: String)
        ensures
            text@ == rendered(self@.recipients),
    {
        persist(&self.recipients)
    }

    /// Where the item of this name is listed, if it is in the store.
    fn find(&self, name: &str) -> (found: Option<usize>)
        requires
            self@.wf(),
        ensures
            found matches Some(i) ==> self@.has(name@) && i == self@.position(name@),
            found is None ==> !self@.has(name@),
    {
        let mut i: usize = 0;
        while i < self.items.len()
            invariant
                i <= self.items.len(),
                self@.wf(),
                forall|k: int| 0 <= k < i ==> (#[trigger] self@.items[k]).name != name@,
            decreases self.items.len() - i,
        {
            assert(self@.items[i as int].name == self.items@[i as int].name@);
            if relate(self.items[i].name.as_str(), name) == Relation::Same {
                proof {
                    let p = self@.position(name@);
                    if p != i {
                        if p < i {
                            assert(self@.items[p].name != self@.items[i as int].name);
                        } else {
                            assert(self@.items[i as int].name != self@.items[p].name);
                        }
                    }
                }
                return Some(i);
            }
            i = i + 1;
        }
        None
    }

    /// Whether an item of this name is in the store. Nothing is decrypted.
    pub fn contains(&self, name: &str) -> (present: bool)
        requires
            self@.wf(),
        ensures
            present == self@.has(name@),
    {
        self.find(name).is_some()
    }

    /// The names of the items, in listing order.
    pub fn items(&self) -> (names: Vec<String>)
        ensures
            texts(names@) == self@.names(),
    {
        let mut names: Vec<String> = Vec::new();
        let mut i: usize = 0;
        while i < self.items.len()
            invariant
                i <= self.items.len(),
                texts(names@) == self@.names().take(i as int),
            decreases self.items.len() - i,
        {
            let ghost before = texts(names@);
            names.push(self.items[i].name.clone());
            assert(texts(names@) =~= before.push(self@.items[i as int].name));
            assert(self@.names().take(i + 1) =~= self@.names().take(i as int).push(
                self@.items[i as int].name,
            ));
            i = i + 1;
        }
        assert(self@.names().take(self@.items.len() as int) =~= self@.names());
        names
    }

    /// How many items the store holds.
    pub fn len(&self) -> (n: usize)
        ensures
            n == self@.items.len(),
    {
        self.items.len()
    }

    /// The envelope held under `name`, if an item of this name is in the store.
    pub fn envelope(&self, name: &str) -> (envelope: Option<&[u8]>)
        requires
            self@.wf(),
        ensures
            envelope matches Some(e) ==> self@.has(name@) && e@ == self@.envelope(name@),
            envelope is None ==> !self@.has(name@),
    {
        match self.find(name) {
            Some(i) => Some(self.items[i].envelope.as_slice()),
            None => None,
        }
    }

    /// Holds `envelope` under `name`: in place of what was held under that
    /// name, or as a new item at the end.
    pub fn put(&mut self, name: &str, envelope: Vec<u8>)
        requires
            old(self)@.wf(),
        ensures
            final(self)@ == old(self)@.put(name@, envelope@),
            final(self)@.wf(),
            final(self)@.has(name@),
            final(self)@.envelope(name@) == envelope@,
    {
        proof {
            lemma_put(self@, name@, envelope@);
        }
        let item = Item { name: String::from_str(name), envelope };
        match self.find(name) {
            Some(i) => {
                self.items.set(i, item);
                assert(self@.items =~= old(self)@.items.update(i as int, item@));
            },
            None => {
                self.items.push(item);
                assert(self@.items =~= old(self)@.items.push(item@));
            },
        }
    }

    /// Seals `secret` for the store's recipients and holds it under `name`.
    ///
    /// Where the name is taken and `overwrite` is not set, fails with
    /// `ItemAlreadyExists` and changes nothing. In every other case it
    /// succeeds: the envelope that sealing made is held under the name, as
    /// [`PasswordStore::put`] says.
    pub fn insert(&mut self, name: &str, secret: &str, overwrite: bool) -> (r: Result<(), Error>)
        requires
            old(self)@.wf(),
        ensures
            final(self)@.wf(),
            old(self)@.has(name@) && !overwrite ==> fails_with(
                r,
                ErrorView::ItemAlreadyExists(name@),
            ),
            !(old(self)@.has(name@) && !overwrite) ==> r is Ok,
            r is Err ==> final(self)@ == old(self)@,
            r is Ok ==> final(self)@.has(name@) && addressed_to_recipients(
                final(self)@.envelope(name@),
            ) && sealed_for(
                final(self)@.envelope(name@),
                encode_utf8(secret@),
                old(self)@.recipients,
            ) && final(self)@ == old(self)@.put(name@, final(self)@.envelope(name@)),
    {
        if self.find(name).is_some() && !overwrite {
            return Err(Error::ItemAlreadyExists(String::from_str(name)));
        }
        match encrypt_with_keys(secret, self.recipients.as_slice()) {
            Ok(envelope) => {
                proof {
                    lemma_put(self@, name@, envelope@);
                }
                self.put(name, envelope);
                Ok(())
            },
            Err(e) => Err(e),
        }
    }

    /// Decrypts the item of this name with the secret key `key`. Fails with
    /// `ItemNotFound` where there is no such item, and with `DecryptError`
    /// where the key does not open its envelope.
    pub fn get_with(&self, name: &str, key: &Identity) -> (r: Result<String, Error>)
        requires
            self@.wf(),
        ensures
            outcome(r) == self@.got(name@, key@),
    {
        match self.find(name) {
            Some(i) => decrypt_with_key(self.items[i].envelope.as_slice(), key),
            None => Err(Error::ItemNotFound(String::from_str(name))),
        }
    }

    /// Decrypts the item of this name with the secret key of the key file.
    ///
    /// Fails with `ItemNotFound` where there is no such item; then with
    /// `NoSecretKey` where there is no key to read. A failure to decrypt is
    /// reported as such, never as a missing item. A locked key file is opened
    /// with `passphrase` for the reading, as [`read_secret_key`] says. A text
    /// that is returned is what the key within the key file decrypts the item
    /// to.
    pub fn get(&self, name: &str, key_file: &KeyFile, passphrase: Option<&str>) -> (r: Result<
        String,
        Error,
    >)
        requires
            self@.wf(),
        ensures
            !self@.has(name@) ==> fails_with(r, ErrorView::ItemNotFound(name@)),
            self@.has(name@) && key_file@ is None ==> fails_with(r, ErrorView::NoSecretKey),
            self@.has(name@) && key_file@ is Some && !is_locked(key_file@) ==> outcome(r)
                == match stored_identity(key_file@->0) {
                Ok(key) => self@.got(name@, key),
                Err(e) => Err(e),
            },
            self@.has(name@) && is_locked(key_file@) && passphrase is None ==> fails_with(
                r,
                ErrorView::DecryptError,
            ),
            self@.has(name@) && is_locked(key_file@) && passphrase is Some
                && addressed_to_recipients(key_file@->0) ==> fails_with(
                r,
                ErrorView::KeyNotEncrypted,
            ),
            self@.has(name@) && is_locked(key_file@) && passphrase is Some
                && !addressed_to_recipients(key_file@->0) ==> fails_with(
                r,
                ErrorView::DecryptError,
            ) || (key_text(key_file@, passphrase_view(passphrase)) is Some && outcome(r)
                == match key_within(key_file@, passphrase_view(passphrase)) {
                Ok(key) => self@.got(name@, key),
                Err(e) => Err(e),
            }),
            r is Ok ==> self@.has(name@) && key_within(
                key_file@,
                passphrase_view(passphrase),
            ) is Ok && outcome(r) == self@.got(
                name@,
                key_within(key_file@, passphrase_view(passphrase))->Ok_0,
            ),
    {
        if self.find(name).is_none() {
            return Err(Error::ItemNotFound(String::from_str(name)));
        }
        match read_secret_key(key_file, passphrase) {
            Ok(key) => {
                let r = self.get_with(name, &key);
                assert(outcome(r) == self@.got(name@, key@));
                r
            },
            Err(e) => Err(e),
        }
    }

    /// Seals `secret` for the store's current recipients and holds it in place
    /// of the item of this name. Fails with `ItemNotFound` where there is no
    /// such item, and then changes nothing: updating never creates one. Where
    /// there is such an item it succeeds.
    pub fn update(&mut self, name: &str, secret: &str) -> (r: Result<(), Error>)
        requires
            old(self)@.wf(),
        ensures
            final(self)@.wf(),
            !old(self)@.has(name@) ==> fails_with(r, ErrorView::ItemNotFound(name@)),
            old(self)@.has(name@) ==> r is Ok,
            r is Err ==> final(self)@ == old(self)@,
            r is Ok ==> final(self)@.has(name@) && addressed_to_recipients(
                final(self)@.envelope(name@),
            ) && sealed_for(
                final(self)@.envelope(name@),
                encode_utf8(secret@),
                old(self)@.recipients,
            ) && final(self)@ == old(self)@.put(name@, final(self)@.envelope(name@)),
    {
        if self.find(name).is_none() {
            return Err(Error::ItemNotFound(String::from_str(name)));
        }
        self.insert(name, secret, true)
    }

    /// Takes the item of this name out of the store. Fails with `ItemNotFound`
    /// where there is no such item.
    pub fn delete(&mut self, name: &str) -> (r: Result<(), Error>)
        requires
            old(self)@.wf(),
        ensures
            final(self)@.wf(),
            final(self)@ == old(self)@.dropped(name@),
            !final(self)@.has(name@),
            old(self)@.has(name@) ==> r is Ok,
            !old(self)@.has(name@) ==> fails_with(r, ErrorView::ItemNotFound(name@)),
    {
        proof {
            lemma_dropped(self@, name@);
        }
        match self.find(name) {
            Some(i) => {
                let _ = self.items.remove(i);
                assert(self@.items =~= old(self)@.items.remove(i as int));
                Ok(())
            },
            None => Err(Error::ItemNotFound(String::from_str(name))),
        }
    }

    /// Seals every item anew: each is decrypted with `key` and sealed for the
    /// store's current recipients, one after the other in listing order.
    ///
    /// Only a failure to decrypt ends the run: the items before it have been
    /// sealed anew, the failing one and those after it are as they were. Where
    /// `key` opens every item the run succeeds. Names, order and recipients
    /// never change.
    pub fn reencrypt(&mut self, key: &Identity) -> (r: Result<(), Error>)
        requires
            old(self)@.wf(),
        ensures
            final(self)@.wf(),
            r is Ok ==> migrated_up_to(
                old(self)@,
                final(self)@,
                key@,
                old(self)@.items.len() as int,
            ),
            r is Err ==> exists|done: int|
                0 <= done < old(self)@.items.len() && #[trigger] migrated_up_to(
                    old(self)@,
                    final(self)@,
                    key@,
                    done,
                ) && stopped_at(old(self)@.items[done].envelope, key@, outcome(r)),
            opens_all(old(self)@, key@) ==> r is Ok,
    {
        let mut i: usize = 0;
        assert(self@.names() =~= old(self)@.names());
        while i < self.items.len()
            invariant
                i <= self.items.len(),
                self@.wf(),
                self@.items.len() == old(self)@.items.len(),
                migrated_up_to(old(self)@, self@, key@, i as int),
            decreases self.items.len() - i,
        {
            let ghost before = self@;
            assert(self@.items[i as int] == old(self)@.items[i as int]);
            assert(self@.items[i as int].envelope == self.items@[i as int].envelope@);
            let text = match decrypt_with_key(self.items[i].envelope.as_slice(), key) {
                Ok(text) => text,
                Err(e) => {
                    return Err(e);
                },
            };
            let envelope = match encrypt_with_keys(text.as_str(), self.recipients.as_slice()) {
                Ok(envelope) => envelope,
                Err(e) => {
                    return Err(e);
                },
            };
            let item = Item { name: self.items[i].name.clone(), envelope };
            assert(item@.name == before.items[i as int].name);
            self.items.set(i, item);
            proof {
                assert(self@.items =~= before.items.update(i as int, item@));
                assert(self@.names() =~= before.names());
                assert forall|a: int, b: int| 0 <= a < b < self@.items.len() implies self@.items[a].name
                    != self@.items[b].name by {
                    assert(before.items[a].name != before.items[b].name);
                }
                assert forall|k: int| 0 <= k < i + 1 && k < old(self)@.items.len() implies migrated(
                    (#[trigger] old(self)@.items[k]).envelope,
                    self@.items[k].envelope,
                    key@,
                    old(self)@.recipients,
                ) by {
                    if k < i {
                        assert(self@.items[k] == before.items[k]);
                    }
                }
            }
            i = i + 1;
        }
        Ok(())
    }
}

/// Sealing the items anew stopped at the envelope `before` because `key` does
/// not decrypt it, and `r` reports that failure.
pub open spec fn stopped_at(before: Seq<u8>, key: Seq<char>, r: Result<(), ErrorView>) -> bool {
    decrypted(opened_with_key(before, key)) matches Err(e) && r == Err::<(), ErrorView>(e)
}

/// The secret key `key` decrypts every item of the store.
pub open spec fn opens_all(store: StoreView, key: Seq<char>) -> bool {
    forall|i: int|
        0 <= i < store.items.len() ==> decrypted(
            opened_with_key((#[trigger] store.items[i]).envelope, key),
        ) is Ok
}

} // verus!
