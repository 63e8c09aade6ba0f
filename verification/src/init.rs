//! Initializing a store and rotating its key: which key the store gets, who
//! its recipients become, and what happens to the items and the key file.

use crate::crypt::addressed_to_recipients;
use crate::error::{fails_with, Error, ErrorView};
use crate::identity::{public_key_of, valid_identity, Identity};
use crate::key::{
    is_locked, key_text, key_within, passphrase_view, read_secret_key, save_secret_key,
    stored_identity, KeyFile,
};
use crate::order::strictly_sorted;
use crate::recipients::{
    duplicate, encodings, lemma_merged, lemma_sorted_unique, lemma_without, merge, merged, remove,
    without, Recipient,
};
use crate::store::{migrated_up_to, opens_all, stopped_at, PasswordStore, StoreView};
use vstd::pervasive::unreached;
use vstd::prelude::*;
use vstd::utf8::encode_utf8;

verus! {

/// Which key is rotated out, if any, and which key the store gets, given the
/// key it has and the key supplied: a supplied key that differs from the one
/// the store has replaces it; otherwise the store keeps its key, or takes the
/// supplied one where it has none. Where there is neither, the second part is
/// empty and a new key is to be drawn.
pub open spec fn rotation(persisted: Option<Seq<char>>, supplied: Option<Seq<char>>) -> (
    Option<Seq<char>>,
    Option<Seq<char>>,
) {
    match (supplied, persisted) {
        (Some(s), Some(p)) => if s == p {
            (None, Some(p))
        } else {
            (Some(p), Some(s))
        },
        (Some(s), None) => (None, Some(s)),
        (None, Some(p)) => (None, Some(p)),
        (None, None) => (None, None),
    }
}

/// The store keeps the key it has: it has one, and none is supplied or the
/// supplied one is the same.
pub open spec fn keeps_key(persisted: Option<Seq<char>>, supplied: Option<Seq<char>>) -> bool {
    persisted is Some && (supplied is None || supplied == persisted)
}

/// The recipients of a store once the key `new` is its key: the current ones,
/// the public key of `new` and the extra ones, merged; without the public key
/// of the key that is rotated out.
pub open spec fn new_recipients(
    current: Seq<Seq<char>>,
    retired: Option<Seq<char>>,
    new: Seq<char>,
    extra: Seq<Seq<char>>,
) -> Seq<Seq<char>> {
    let all = merged(current, seq![public_key_of(new)->0] + extra);
    match retired {
        Some(o) => without(all, public_key_of(o)->0),
        None => all,
    }
}

/// How store and key file stand after the store was given the key `new`, with
/// `retired` rotated out, and what the operation reports.
///
/// On success the recipients are the new ones, the key file holds `new` in the
/// clear, a key that reads back from it, and the items are untouched where no
/// key is rotated out, and all sealed anew for the new recipients where one
/// is. The operation fails only where a key is rotated out that does not
/// decrypt some item: the key file and the recipients are then as before, and
/// the items up to the failing one have been sealed anew for the new
/// recipients.
pub open spec fn rekeyed(
    store0: StoreView,
    key0: Option<Seq<u8>>,
    store1: StoreView,
    key1: Option<Seq<u8>>,
    retired: Option<Seq<char>>,
    new: Seq<char>,
    extra: Seq<Seq<char>>,
    r: Result<Seq<Seq<char>>, ErrorView>,
) -> bool {
    let target = new_recipients(store0.recipients, retired, new, extra);
    let aimed = StoreView { recipients: target, ..store0 };
    match r {
        Ok(set) => {
            &&& set == target
            &&& store1.recipients == target
            &&& key1 == Some(encode_utf8(new))
            &&& valid_identity(new)
            &&& match retired {
                None => store1.items == store0.items,
                Some(o) => migrated_up_to(aimed, store1, o, store0.items.len() as int),
            }
        },
        Err(e) => {
            &&& retired is Some
            &&& key1 == key0
            &&& store1.recipients == store0.recipients
            &&& exists|done: int|
                0 <= done < store0.items.len() && #[trigger] migrated_up_to(
                    aimed,
                    StoreView { recipients: target, ..store1 },
                    retired->0,
                    done,
                ) && stopped_at(store0.items[done].envelope, retired->0, Err(e))
        },
    }
}

/// The key file holds the secret key `key` in the clear, and reads back as it.
pub open spec fn holds_in_clear(file: Option<Seq<u8>>, key: Seq<char>) -> bool {
    &&& file == Some(encode_utf8(key))
    &&& !is_locked(file)
    &&& stored_identity(encode_utf8(key)) == Ok::<Seq<char>, ErrorView>(key)
}

/// Neither the store nor the key file has changed.
pub open spec fn unchanged(
    store0: StoreView,
    key0: Option<Seq<u8>>,
    store1: StoreView,
    key1: Option<Seq<u8>>,
) -> bool {
    store1 == store0 && key1 == key0
}

/// The recipients of a list, or the failure, as a mathematical value.
pub open spec fn reported(r: Result<Vec<Recipient>, Error>) -> Result<Seq<Seq<char>>, ErrorView> {
    match r {
        Ok(set) => Ok(encodings(set@)),
        Err(e) => Err(e@),
    }
}

/// The key that the store has, given the key within its key file: a key file
/// without a key counts as no key; any other failure to find one stands.
pub open spec fn persisted_key(found: Result<Seq<char>, ErrorView>) -> Result<
    Option<Seq<char>>,
    ErrorView,
> {
    match found {
        Ok(key) => Ok(Some(key)),
        Err(ErrorView::NoSecretKey) => Ok(None),
        Err(e) => Err(e),
    }
}

/// How store and key file stand after a store that keeps its key `key` was
/// given more recipients: its recipients are the new ones, which are
/// reported; its items and the key file are as they were.
pub open spec fn readdressed(
    store0: StoreView,
    key0: Option<Seq<u8>>,
    store1: StoreView,
    key1: Option<Seq<u8>>,
    key: Seq<char>,
    extra: Seq<Seq<char>>,
    r: Result<Seq<Seq<char>>, ErrorView>,
) -> bool {
    let target = new_recipients(store0.recipients, None, key, extra);
    &&& r == Ok::<Seq<Seq<char>>, ErrorView>(target)
    &&& store1 == (StoreView { recipients: target, ..store0 })
    &&& key1 == key0
}

/// How store and key file stand after initialization, given the key that the
/// store had. Where the store keeps its key, as [`readdressed`] says: the key
/// file is not touched. Otherwise as [`rekeyed`] says for the keys that
/// [`rotation`] picks, with some newly drawn key where it picks none.
pub open spec fn initialized(
    store0: StoreView,
    key0: Option<Seq<u8>>,
    store1: StoreView,
    key1: Option<Seq<u8>>,
    persisted: Option<Seq<char>>,
    supplied: Option<Seq<char>>,
    extra: Seq<Seq<char>>,
    r: Result<Seq<Seq<char>>, ErrorView>,
) -> bool {
    if keeps_key(persisted, supplied) {
        readdressed(store0, key0, store1, key1, persisted->0, extra, r)
    } else {
        match rotation(persisted, supplied).1 {
            Some(new) => rekeyed(
                store0,
                key0,
                store1,
                key1,
                rotation(persisted, supplied).0,
                new,
                extra,
                r,
            ),
            None => exists|new: Seq<char>|
                valid_identity(new) && #[trigger] rekeyed(
                    store0,
                    key0,
                    store1,
                    key1,
                    None,
                    new,
                    extra,
                    r,
                ),
        }
    }
}

/// How store and key file stand after initialization, given what was found of
/// a key within the key file: as [`initialized`] says where a key was found
/// or the file holds none; untouched, with the failure reported, where the
/// search failed otherwise.
pub open spec fn initialized_from(
    store0: StoreView,
    key0: Option<Seq<u8>>,
    store1: StoreView,
    key1: Option<Seq<u8>>,
    found: Result<Seq<char>, ErrorView>,
    supplied: Option<Seq<char>>,
    extra: Seq<Seq<char>>,
    r: Result<Seq<Seq<char>>, ErrorView>,
) -> bool {
    match persisted_key(found) {
        Ok(persisted) => initialized(store0, key0, store1, key1, persisted, supplied, extra, r),
        Err(e) => unchanged(store0, key0, store1, key1) && r == Err::<Seq<Seq<char>>, ErrorView>(e),
    }
}

/// The new recipients are sorted and hold no encoding twice. They hold the
/// current and the extra recipients and the public key of the new key, each
/// unless it is the key rotated out; that one they do not hold.
pub proof fn lemma_new_recipients(
    current: Seq<Seq<char>>,
    retired: Option<Seq<char>>,
    new: Seq<char>,
    extra: Seq<Seq<char>>,
)
    ensures
        strictly_sorted(new_recipients(current, retired, new, extra)),
        retired matches Some(o) ==> !new_recipients(current, retired, new, extra).contains(
            public_key_of(o)->0,
        ),
        forall|x: Seq<char>|
            new_recipients(current, retired, new, extra).contains(x) <==> (current.contains(x)
                || extra.contains(x) || x == public_key_of(new)->0) && !(retired matches Some(o) && x
                == public_key_of(o)->0),
{
    let added = seq![public_key_of(new)->0] + extra;
    let all = merged(current, added);
    lemma_merged(current, added);
    assert forall|x: Seq<char>| added.contains(x) <==> (extra.contains(x) || x == public_key_of(
        new,
    )->0) by {
        if added.contains(x) {
            let i = choose|i: int| 0 <= i < added.len() && added[i] == x;
            if i > 0 {
                assert(extra[i - 1] == x);
            }
        }
        if extra.contains(x) {
            let i = choose|i: int| 0 <= i < extra.len() && extra[i] == x;
            assert(added[i + 1] == x);
        }
        assert(added[0] == public_key_of(new)->0);
    }
    match retired {
        Some(o) => {
            lemma_without(all, public_key_of(o)->0);
        },
        None => {},
    }
}

/// Initializing again changes nothing: once a store was given a key and
/// additions, giving it the same key and the same additions once more, with
/// no key to rotate out, leaves its recipients as they are. This holds unless
/// the first run rotated out a key that the additions name again, or whose
/// public key is that of the new key: those the second run puts back.
pub proof fn lemma_init_idempotent(
    current: Seq<Seq<char>>,
    retired: Option<Seq<char>>,
    new: Seq<char>,
    extra: Seq<Seq<char>>,
)
    requires
        retired matches Some(o) ==> !extra.contains(public_key_of(o)->0) && public_key_of(o)->0
            != public_key_of(new)->0,
    ensures
        new_recipients(new_recipients(current, retired, new, extra), None, new, extra)
            == new_recipients(current, retired, new, extra),
{
    let first = new_recipients(current, retired, new, extra);
    let second = new_recipients(first, None, new, extra);
    lemma_new_recipients(current, retired, new, extra);
    lemma_new_recipients(first, None, new, extra);
    assert forall|x: Seq<char>| second.contains(x) <==> first.contains(x) by {
        if extra.contains(x) || x == public_key_of(new)->0 {
            assert(first.contains(x));
        }
    }
    lemma_sorted_unique(second, first);
}

/// The new recipients do not depend on the order in which recipients are
/// held or supplied: whenever the current and the extra recipients of two
/// runs are the same all in all, the runs give the same recipients.
pub proof fn lemma_init_order_independent(
    current1: Seq<Seq<char>>,
    extra1: Seq<Seq<char>>,
    current2: Seq<Seq<char>>,
    extra2: Seq<Seq<char>>,
    retired: Option<Seq<char>>,
    new: Seq<char>,
)
    requires
        (current1 + extra1).to_multiset() == (current2 + extra2).to_multiset(),
    ensures
        new_recipients(current1, retired, new, extra1) == new_recipients(
            current2,
            retired,
            new,
            extra2,
        ),
{
    let first = new_recipients(current1, retired, new, extra1);
    let second = new_recipients(current2, retired, new, extra2);
    lemma_new_recipients(current1, retired, new, extra1);
    lemma_new_recipients(current2, retired, new, extra2);
    let s = current1 + extra1;
    let t = current2 + extra2;
    assert forall|x: Seq<char>|
        (current1.contains(x) || extra1.contains(x)) <==> (current2.contains(x) || extra2.contains(
            x,
        )) by {
        s.to_multiset_ensures();
        t.to_multiset_ensures();
        assert(s.contains(x) <==> s.to_multiset().count(x) > 0);
        assert(t.contains(x) <==> t.to_multiset().count(x) > 0);
        if current1.contains(x) {
            let i = choose|i: int| 0 <= i < current1.len() && current1[i] == x;
            assert(s[i] == x);
        }
        if extra1.contains(x) {
            let i = choose|i: int| 0 <= i < extra1.len() && extra1[i] == x;
            assert(s[current1.len() + i] == x);
        }
        if current2.contains(x) {
            let i = choose|i: int| 0 <= i < current2.len() && current2[i] == x;
            assert(t[i] == x);
        }
        if extra2.contains(x) {
            let i = choose|i: int| 0 <= i < extra2.len() && extra2[i] == x;
            assert(t[current2.len() + i] == x);
        }
        if s.contains(x) {
            let i = choose|i: int| 0 <= i < s.len() && s[i] == x;
            if i < current1.len() {
                assert(current1[i] == x);
            } else {
                assert(extra1[i - current1.len()] == x);
            }
        }
        if t.contains(x) {
            let i = choose|i: int| 0 <= i < t.len() && t[i] == x;
            if i < current2.len() {
                assert(current2[i] == x);
            } else {
                assert(extra2[i - current2.len()] == x);
            }
        }
    }
    assert forall|x: Seq<char>| first.contains(x) <==> second.contains(x) by {
        assert((current1.contains(x) || extra1.contains(x)) <==> (current2.contains(x)
            || extra2.contains(x)));
    }
    lemma_sorted_unique(first, second);
}

/// Whether the store keeps the key it has, as [`keeps_key`] says.
pub fn keeps(persisted: &Option<Identity>, supplied: &Option<Identity>) -> (keep: bool)
    ensures
        keep == keeps_key(views(*persisted), views(*supplied)),
{
    match persisted {
        Some(p) => match supplied {
            Some(s) => s.same_as(p),
            None => true,
        },
        None => false,
    }
}

/// Picks the key to rotate out and the key to use, as [`rotation`] says.
pub fn choose_identities(persisted: Option<Identity>, supplied: Option<Identity>) -> (picked: (
    Option<Identity>,
    Option<Identity>,
))
    ensures
        (views(picked.0), views(picked.1)) == rotation(views(persisted), views(supplied)),
{
    match supplied {
        Some(s) => match persisted {
            Some(p) => if s.same_as(&p) {
                (None, Some(p))
            } else {
                (Some(p), Some(s))
            },
            None => (None, Some(s)),
        },
        None => match persisted {
            Some(p) => (None, Some(p)),
            None => (None, None),
        },
    }
}

/// The encoding of a key that may be missing.
pub open spec fn views(key: Option<Identity>) -> Option<Seq<char>> {
    match key {
        Some(k) => Some(k@),
        None => None,
    }
}

/// The recipients of the store, the public key of `key` and `extra`, merged.
fn with_key_and_extras(store: &PasswordStore, key: &Identity, extra: Vec<Recipient>) -> (set: Vec<
    Recipient,
>)
    ensures
        encodings(set@) == new_recipients(store@.recipients, None, key@, encodings(extra@)),
{
    let mut added: Vec<Recipient> = Vec::new();
    added.push(key.to_public());
    let mut extra = extra;
    let ghost extras = encodings(extra@);
    added.append(&mut extra);
    assert(encodings(added@) =~= seq![public_key_of(key@)->0] + extras);
    merge(duplicate(store.recipients().as_slice()), added)
}

/// Gives a store that keeps its key `key` more recipients: its recipients
/// become the current ones, the public key of `key` and `extra`, merged. The
/// items stay as they are, sealed as they were. Returns the new recipients.
pub fn keep_key(store: &mut PasswordStore, key: &Identity, extra: Vec<Recipient>) -> (set: Vec<
    Recipient,
>)
    requires
        old(store)@.wf(),
    ensures
        final(store)@.wf(),
        strictly_sorted(final(store)@.recipients),
        encodings(set@) == new_recipients(old(store)@.recipients, None, key@, encodings(extra@)),
        final(store)@ == (StoreView { recipients: encodings(set@), ..old(store)@ }),
{
    proof {
        lemma_new_recipients(store@.recipients, None, key@, encodings(extra@));
    }
    let set = with_key_and_extras(store, key, extra);
    store.set_recipients(duplicate(set.as_slice()));
    set
}

/// Gives the store the key `new`, rotating `retired` out where one is given.
///
/// The recipients become the current ones, the public key of `new` and
/// `extra`, merged, without the public key of `retired`. Where a key is rotated
/// out, every item is then sealed anew: decrypted with `retired` and sealed for
/// the new recipients. Only when that went through are the key file and the
/// recipients of the store replaced. The operation fails only where the key
/// rotated out does not decrypt some item: the key file and the recipients
/// are then as they were, and the items before the failing one stay sealed
/// anew. Returns the new recipients.
pub fn rekey(
    store: &mut PasswordStore,
    key_file: &mut KeyFile,
    retired: Option<Identity>,
    new: Identity,
    extra: Vec<Recipient>,
) -> (r: Result<Vec<Recipient>, Error>)
    requires
        old(store)@.wf(),
    ensures
        final(store)@.wf(),
        final(store)@.names() == old(store)@.names(),
        retired is None ==> r is Ok,
        retired matches Some(key) && opens_all(old(store)@, key@) ==> r is Ok,
        r is Ok ==> strictly_sorted(final(store)@.recipients),
        r is Ok ==> holds_in_clear(final(key_file)@, new@),
        rekeyed(
            old(store)@,
            old(key_file)@,
            final(store)@,
            final(key_file)@,
            views(retired),
            new@,
            encodings(extra@),
            reported(r),
        ),
{
    let ghost store0 = store@;
    let ghost target = new_recipients(store0.recipients, views(retired), new@, encodings(extra@));
    proof {
        lemma_new_recipients(store0.recipients, views(retired), new@, encodings(extra@));
        use_type_invariant(&new);
        assert(seq![new@].last() == new@);
    }
    let mut set = with_key_and_extras(store, &new, extra);
    match retired {
        Some(retired_key) => {
            set = remove(set, &retired_key.to_public());
            assert(encodings(set@) == target);
            let previous = duplicate(store.recipients().as_slice());
            store.set_recipients(duplicate(set.as_slice()));
            assert(opens_all(store0, retired_key@) ==> opens_all(store@, retired_key@));
            match store.reencrypt(&retired_key) {
                Ok(()) => {},
                Err(e) => {
                    let ghost failed = store@;
                    store.set_recipients(previous);
                    proof {
                        assert(store@ == (StoreView { recipients: store0.recipients, ..failed }));
                        assert(failed == (StoreView { recipients: target, ..store@ }));
                        assert(store@.names() =~= store0.names());
                    }
                    return Err(e);
                },
            }
            assert(store@.names() =~= store0.names());
        },
        None => {
            assert(store@.names() =~= store0.names());
        },
    }
    let _ = save_secret_key(&new, key_file, true);
    store.set_recipients(duplicate(set.as_slice()));
    assert(store@.names() =~= store0.names());
    Ok(set)
}

/// Initializes the store, or rotates its key, given the key that the store
/// has. Where the store keeps its key, only its recipients change, as
/// [`keep_key`] says, and the key file is left as it is, locked or not.
/// Otherwise [`rotation`] picks the keys: `supplied` replaces a different key
/// that the store has, or becomes its key where it has none; where there is
/// neither, a new key is drawn. [`rekey`] does the rest.
pub fn init_with(
    store: &mut PasswordStore,
    key_file: &mut KeyFile,
    persisted: Option<Identity>,
    supplied: Option<Identity>,
    extra: Vec<Recipient>,
) -> (r: Result<Vec<Recipient>, Error>)
    requires
        old(store)@.wf(),
    ensures
        final(store)@.wf(),
        final(store)@.names() == old(store)@.names(),
        r is Ok ==> strictly_sorted(final(store)@.recipients),
        r is Ok ==> final(key_file)@ == old(key_file)@ || exists|key: Seq<char>| #[trigger]
            holds_in_clear(final(key_file)@, key),
        keeps_key(views(persisted), views(supplied)) ==> r is Ok && final(key_file)@ == old(
            key_file,
        )@,
        rotation(views(persisted), views(supplied)).0 is None ==> r is Ok,
        initialized(
            old(store)@,
            old(key_file)@,
            final(store)@,
            final(key_file)@,
            views(persisted),
            views(supplied),
            encodings(extra@),
            reported(r),
        ),
{
    let ghost had = views(persisted);
    let ghost given = views(supplied);
    let keep = keeps(&persisted, &supplied);
    let (retired, picked) = choose_identities(persisted, supplied);
    if keep {
        match picked {
            Some(key) => {
                let set = keep_key(store, &key, extra);
                assert(store@.names() =~= old(store)@.names());
                Ok(set)
            },
            None => unreached(),
        }
    } else {
        let new = match picked {
            Some(key) => key,
            None => Identity::generate(),
        };
        let ghost drawn = new@;
        let ghost extras = encodings(extra@);
        proof {
            use_type_invariant(&new);
        }
        let r = rekey(store, key_file, retired, new, extra);
        proof {
            if rotation(had, given).1 is None {
                assert(rekeyed(
                    old(store)@,
                    old(key_file)@,
                    store@,
                    key_file@,
                    None,
                    drawn,
                    extras,
                    reported(r),
                ));
            }
            if r is Ok {
                assert(holds_in_clear(key_file@, drawn));
            }
        }
        r
    }
}

/// Initializes the store, or rotates its key.
///
/// The key that the store has is read from the key file, a locked one with
/// `passphrase`; a key file that holds no key counts as none. [`init_with`]
/// does the rest, with the key within the key file.
///
/// A key file that cannot be read fails the operation before anything is
/// changed: with `DecryptError` where it is locked and no passphrase is given
/// or the passphrase does not open it, with `KeyNotEncrypted` where it holds
/// an envelope addressed to recipients. Whether a passphrase opens a locked
/// key file is decided by the passphrase and the machine.
pub fn init(
    store: &mut PasswordStore,
    key_file: &mut KeyFile,
    passphrase: Option<&str>,
    supplied: Option<Identity>,
    extra: Vec<Recipient>,
) -> (r: Result<Vec<Recipient>, Error>)
    requires
        old(store)@.wf(),
    ensures
        final(store)@.wf(),
        final(store)@.names() == old(store)@.names(),
        r is Ok ==> strictly_sorted(final(store)@.recipients),
        r is Ok ==> final(key_file)@ == old(key_file)@ || exists|key: Seq<char>| #[trigger]
            holds_in_clear(final(key_file)@, key),
        !is_locked(old(key_file)@) ==> initialized_from(
            old(store)@,
            old(key_file)@,
            final(store)@,
            final(key_file)@,
            key_within(old(key_file)@, passphrase_view(passphrase)),
            views(supplied),
            encodings(extra@),
            reported(r),
        ),
        is_locked(old(key_file)@) && passphrase is None ==> unchanged(
            old(store)@,
            old(key_file)@,
            final(store)@,
            final(key_file)@,
        ) && fails_with(r, ErrorView::DecryptError),
        is_locked(old(key_file)@) && passphrase is Some && addressed_to_recipients(
            old(key_file)@->0,
        ) ==> unchanged(old(store)@, old(key_file)@, final(store)@, final(key_file)@)
            && fails_with(r, ErrorView::KeyNotEncrypted),
        is_locked(old(key_file)@) && passphrase is Some && !addressed_to_recipients(
            old(key_file)@->0,
        ) ==> (unchanged(old(store)@, old(key_file)@, final(store)@, final(key_file)@)
            && fails_with(r, ErrorView::DecryptError)) || (key_text(
            old(key_file)@,
            passphrase_view(passphrase),
        ) is Some && initialized_from(
            old(store)@,
            old(key_file)@,
            final(store)@,
            final(key_file)@,
            key_within(old(key_file)@, passphrase_view(passphrase)),
            views(supplied),
            encodings(extra@),
            reported(r),
        )),
{
    let persisted = match read_secret_key(key_file, passphrase) {
        Ok(key) => Some(key),
        Err(Error::NoSecretKey) => None,
        Err(e) => {
            return Err(e);
        },
    };
    init_with(store, key_file, persisted, supplied, extra)
}

} // verus!
