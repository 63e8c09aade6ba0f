//! The secret key of a store, known by its text encoding.

use crate::recipients::{valid_recipient, Recipient};
use crate::utf8::texts;
use secrecy::ExposeSecret;
use vstd::pervasive::unreached;
use vstd::prelude::*;
use vstd::utf8::encode_utf8;

verus! {

/// The identities that a key file with these bytes holds, each by its
/// encoding and in the file's order; nothing where the bytes are not a key file.
pub uninterp spec fn identities_in(data: Seq<u8>) -> Option<Seq<Seq<char>>>;

/// The canonical encoding of the public key that belongs to the secret key
/// with this encoding; nothing where the text encodes no secret key.
pub uninterp spec fn public_key_of(identity: Seq<char>) -> Option<Seq<char>>;

/// The text is the encoding of a secret key as the key itself writes it: it has
/// a public key, and a key file that holds just this text holds just this key.
pub open spec fn valid_identity(encoding: Seq<char>) -> bool {
    &&& public_key_of(encoding) is Some
    &&& identities_in(encode_utf8(encoding)) == Some(seq![encoding])
}

/// A secret key, held as its encoding.
pub struct Identity {
    secret: String,
}

impl View for Identity {
    type V = Seq<char>;

    closed spec fn view(&self) -> Seq<char> {
        self.secret@
    }
}

/// `age::x25519::Identity::generate`, then the key's `to_string`: a new random
/// secret key, written out. Whatever key was drawn, the text is the encoding
/// that the key gives itself, so it encodes a secret key and reads back as it.
#[verifier::external_body]
fn fresh_encoding() -> (secret: String)
    ensures
        valid_identity(secret@),
{
    age::x25519::Identity::generate().to_string().expose_secret().clone()
}

/// `age::IdentityFile::from_buffer`, then `into_identities` and each key's
/// `to_string`: the bytes are read as a key file, line by line, and every key
/// found is written out again. Nothing comes back where the bytes are not
/// text or some line is neither blank, nor a comment, nor a key. Each text
/// that comes back is the encoding that a key gives itself, so it encodes a
/// secret key and reads back as it.
#[verifier::external_body]
fn identity_encodings(data: &[u8]) -> (found: Option<Vec<String>>)
    ensures
        found matches Some(v) ==> identities_in(data@) == Some(texts(v@)),
        found matches Some(v) ==> forall|i: int|
            0 <= i < v@.len() ==> valid_identity(#[trigger] v@[i]@),
        found is None ==> identities_in(data@) is None,
{
    let file = match age::IdentityFile::from_buffer(data) {
        Ok(file) => file,
        Err(_) => return None,
    };
    let mut found = Vec::new();
    for key in file.into_identities() {
        found.push(key.to_string().expose_secret().clone());
    }
    Some(found)
}

/// `<age::x25519::Identity as FromStr>::from_str`, then `to_public` and the
/// public key's `Display`: the public key of the secret key that the text
/// encodes, written out; nothing where the text encodes no secret key. What
/// the public key writes is its canonical encoding, which reads as itself.
#[verifier::external_body]
fn public_encoding(secret: &str) -> (public: Option<String>)
    ensures
        public matches Some(p) ==> public_key_of(secret@) == Some(p@) && valid_recipient(p@),
        public is None ==> public_key_of(secret@) is None,
{
    match secret.parse::<age::x25519::Identity>() {
        Ok(key) => Some(key.to_public().to_string()),
        Err(_) => None,
    }
}

impl Clone for Identity {
    fn clone(&self) -> (copy: Identity)
        ensures
            copy@ == self@,
    {
        proof {
            use_type_invariant(self);
        }
        Identity { secret: self.secret.clone() }
    }
}

impl Identity {
    #[verifier::type_invariant]
    pub(crate) open spec fn well_formed(self) -> bool {
        valid_identity(self@)
    }

    /// Draws a new secret key at random.
    pub fn generate() -> (key: Identity)
        ensures
            valid_identity(key@),
    {
        Identity { secret: fresh_encoding() }
    }

    /// The identities that a key file holds, in the file's order; nothing where
    /// the bytes are not a key file.
    pub fn parse_all(data: &[u8]) -> (found: Option<Vec<Identity>>)
        ensures
            found matches Some(keys) ==> identities_in(data@) == Some(identity_texts(keys@)),
            found is None ==> identities_in(data@) is None,
    {
        match identity_encodings(data) {
            None => None,
            Some(mut encodings) => {
                let ghost all = texts(encodings@);
                let mut keys: Vec<Identity> = Vec::new();
                assert(all.skip(encodings@.len() as int) =~= identity_texts(keys@));
                while encodings.len() > 0
                    invariant
                        encodings@.len() <= all.len(),
                        texts(encodings@) == all.take(encodings@.len() as int),
                        forall|i: int|
                            0 <= i < encodings@.len() ==> valid_identity(#[trigger] encodings@[i]@),
                        identity_texts(keys@) == all.skip(encodings@.len() as int),
                    decreases encodings.len(),
                {
                    let ghost n = encodings@.len() as int;
                    let ghost before = encodings@;
                    let ghost done = identity_texts(keys@);
                    let secret = encodings.pop().unwrap();
                    proof {
                        assert(secret@ == all[n - 1]) by {
                            assert(texts(before)[n - 1] == secret@);
                            assert(all.take(n)[n - 1] == all[n - 1]);
                        }
                        assert(secret == before[n - 1]);
                    }
                    keys.insert(0, Identity { secret });
                    proof {
                        assert(texts(encodings@) =~= all.take(n - 1)) by {
                            assert forall|k: int| 0 <= k < n - 1 implies texts(encodings@)[k]
                                == all[k] by {
                                assert(texts(before)[k] == all.take(n)[k]);
                            }
                        }
                        assert(identity_texts(keys@) =~= seq![all[n - 1]] + done);
                        assert(identity_texts(keys@) =~= all.skip(n - 1));
                    }
                }
                assert(all.skip(0) =~= all);
                Some(keys)
            },
        }
    }

    /// The encoding of this secret key.
    pub fn to_string(&self) -> (text: String)
        ensures
            text@ == self@,
            valid_identity(text@),
    {
        proof {
            use_type_invariant(self);
        }
        self.secret.clone()
    }

    /// The encoding of this secret key, borrowed.
    pub fn as_str(&self) -> (text: &str)
        ensures
            text@ == self@,
            valid_identity(text@),
    {
        proof {
            use_type_invariant(self);
        }
        self.secret.as_str()
    }

    /// The public key that belongs to this secret key.
    pub fn to_public(&self) -> (public: Recipient)
        ensures
            public_key_of(self@) == Some(public@),
            valid_recipient(public@),
    {
        proof {
            use_type_invariant(self);
        }
        match public_encoding(self.secret.as_str()) {
            Some(encoding) => Recipient::from_encoding(encoding),
            None => unreached(),
        }
    }

    /// Whether both are the same key, by encoding.
    pub fn same_as(&self, other: &Identity) -> (same: bool)
        ensures
            same == (self@ == other@),
    {
        self.secret == other.secret
    }
}

/// The encodings of a list of identities, in the same order.
pub open spec fn identity_texts(keys: Seq<Identity>) -> Seq<Seq<char>> {
    keys.map_values(|k: Identity| k@)
}

} // verus!
