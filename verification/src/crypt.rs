//! Sealing and opening envelopes: to public-key recipients, or with a passphrase.

use crate::error::{fails_with, outcome, Error, ErrorView};
use crate::identity::{identities_in, public_key_of, Identity};
use crate::recipients::{all_valid, encodings, note_valid, Recipient};
use crate::utf8::text_of;
use secrecy::Secret;
use std::io::{Read, Write};
use vstd::prelude::*;
use vstd::string::StringExecFns;
use vstd::utf8::{
    decode_utf8, decode_utf8_encode_utf8, encode_utf8, encode_utf8_decode_utf8,
    encode_utf8_valid_utf8, valid_utf8,
};

verus! {

/// What opening the envelope with the secret key of this encoding yields: the
/// plaintext, or nothing where the key does not open it or the bytes are no
/// envelope addressed to recipients.
pub uninterp spec fn opened_with_key(envelope: Seq<u8>, identity: Seq<char>) -> Option<Seq<u8>>;

/// Whether the bytes are framed as an envelope addressed to public-key recipients.
pub uninterp spec fn addressed_to_recipients(envelope: Seq<u8>) -> bool;

/// What the envelope holds under the passphrase: the plaintext that the
/// passphrase unseals, or nothing where the bytes are no envelope sealed with
/// a passphrase, the passphrase is not the one it was sealed with, or the
/// payload is damaged. This is what is in the envelope, whatever the effort of
/// getting at it: an attempt to open the envelope may give up on an envelope
/// that holds something.
pub uninterp spec fn held_under(envelope: Seq<u8>, passphrase: Seq<char>) -> Option<Seq<u8>>;

/// Every secret key whose public key is among `recipients` opens `envelope`
/// to `plaintext`.
pub open spec fn sealed_for(
    envelope: Seq<u8>,
    plaintext: Seq<u8>,
    recipients: Seq<Seq<char>>,
) -> bool {
    forall|identity: Seq<char>|
        (#[trigger] public_key_of(identity)) matches Some(p) && recipients.contains(p)
            ==> opened_with_key(envelope, identity) == Some(plaintext)
}

/// The outcome of decryption, given what opening the envelope yielded: the
/// plaintext as text, or `DecryptError` where nothing was opened or the
/// plaintext is not text.
pub open spec fn decrypted(opened: Option<Seq<u8>>) -> Result<Seq<char>, ErrorView> {
    match opened {
        Some(bytes) => if valid_utf8(bytes) {
            Ok(decode_utf8(bytes))
        } else {
            Err(ErrorView::DecryptError)
        },
        None => Err(ErrorView::DecryptError),
    }
}

/// What became of an attempt to open an envelope with a passphrase.
pub enum Unsealed {
    /// The envelope opened to this plaintext.
    Plaintext(Vec<u8>),
    /// The envelope is addressed to recipients, not sealed with a passphrase.
    ForRecipients,
    /// Nothing was opened: a wrong passphrase, or bytes that are no envelope
    /// or are damaged.
    Nothing,
}

/// The outcome of decryption with a passphrase, given what became of the
/// attempt to open the envelope: `KeyNotEncrypted` for an envelope addressed
/// to recipients, otherwise as [`decrypted`] says.
pub open spec fn unsealed_text(unsealed: Unsealed) -> Result<Seq<char>, ErrorView> {
    match unsealed {
        Unsealed::Plaintext(bytes) => decrypted(Some(bytes@)),
        Unsealed::ForRecipients => Err(ErrorView::KeyNotEncrypted),
        Unsealed::Nothing => Err(ErrorView::DecryptError),
    }
}

/// `age::Encryptor::with_recipients`, `wrap_output`, and the writer's
/// `write_all` and `finish`: the plaintext is sealed in an envelope addressed
/// to the recipients. The envelope differs from call to call. Whichever comes
/// back is framed as an envelope addressed to recipients, and every secret
/// key that belongs to one of the recipients opens it to the plaintext again:
/// the round trip that the crate documents for encrypting to recipients and
/// decrypting with an identity. One always comes back where every encoding
/// reads as a public key: wrapping the file key never fails, and the only
/// other failure is the writer's, which here writes to memory.
#[verifier::external_body]
fn seal_to_recipients(plaintext: &[u8], recipients: &[Recipient]) -> (envelope: Option<Vec<u8>>)
    ensures
        all_valid(encodings(recipients@)) ==> envelope is Some,
        envelope matches Some(e) ==> addressed_to_recipients(e@),
        envelope matches Some(e) ==> sealed_for(e@, plaintext@, encodings(recipients@)),
{
    let mut keys: Vec<Box<dyn age::Recipient>> = Vec::new();
    for r in recipients {
        keys.push(Box::new(r.as_str().parse::<age::x25519::Recipient>().ok()?));
    }
    let mut envelope = Vec::new();
    let mut writer = age::Encryptor::with_recipients(keys).wrap_output(&mut envelope).ok()?;
    writer.write_all(plaintext).ok()?;
    writer.finish().ok()?;
    Some(envelope)
}

/// `age::Decryptor::new`, the recipients decryptor's `decrypt` with one
/// identity, and the reader's `read_to_end`: the plaintext that the secret key
/// opens the envelope to. Nothing comes back where the bytes are no envelope
/// addressed to recipients, the key does not open it, or the payload is damaged.
#[verifier::external_body]
fn open_with_key(envelope: &[u8], secret: &str) -> (plaintext: Option<Vec<u8>>)
    ensures
        plaintext matches Some(p) ==> opened_with_key(envelope@, secret@) == Some(p@),
        plaintext is None ==> opened_with_key(envelope@, secret@) is None,
{
    let key: Box<dyn age::Identity> = Box::new(secret.parse::<age::x25519::Identity>().ok()?);
    let decryptor = match age::Decryptor::new(envelope).ok()? {
        age::Decryptor::Recipients(d) => d,
        age::Decryptor::Passphrase(_) => return None,
    };
    let mut plaintext = Vec::new();
    decryptor.decrypt(std::iter::once(key)).ok()?.read_to_end(&mut plaintext).ok()?;
    Some(plaintext)
}

/// `age::Encryptor::with_user_passphrase`, `wrap_output`, and the writer's
/// `write_all` and `finish`: the plaintext is sealed with the passphrase. The
/// envelope differs from call to call, and its cost setting follows the speed
/// of the machine. One always comes back: wrapping the file key never fails,
/// and the only other failure is the writer's, which here writes to memory.
/// It starts with the envelope's version line, so it never reads as a key
/// file, and it is framed as sealed with a passphrase, not as addressed to
/// recipients. What it holds under the passphrase is the plaintext: the key
/// derived from the passphrase and the envelope's own salt and cost unwraps
/// the file key that the payload was sealed with.
#[verifier::external_body]
fn seal_with_passphrase(plaintext: &[u8], passphrase: &str) -> (envelope: Option<Vec<u8>>)
    ensures
        envelope is Some,
        envelope matches Some(e) ==> identities_in(e@) is None,
        envelope matches Some(e) ==> !addressed_to_recipients(e@),
        envelope matches Some(e) ==> held_under(e@, passphrase@) == Some(plaintext@),
{
    let mut envelope = Vec::new();
    let encryptor = age::Encryptor::with_user_passphrase(Secret::new(passphrase.to_owned()));
    let mut writer = encryptor.wrap_output(&mut envelope).ok()?;
    writer.write_all(plaintext).ok()?;
    writer.finish().ok()?;
    Some(envelope)
}

/// `age::Decryptor::new`, the passphrase decryptor's `decrypt` with the default
/// work limit, and the reader's `read_to_end`. An envelope addressed to
/// recipients is told apart from every other failure, and that much depends on
/// the bytes alone. Whether a passphrase envelope opens does not: the default
/// work limit is measured on the machine at the time of the call, so an
/// envelope that holds something may still yield nothing. A plaintext that
/// does come back is what the envelope holds under the passphrase.
#[verifier::external_body]
fn open_with_passphrase(envelope: &[u8], passphrase: &str) -> (unsealed: Unsealed)
    ensures
        unsealed is ForRecipients <==> addressed_to_recipients(envelope@),
        unsealed matches Unsealed::Plaintext(p) ==> held_under(envelope@, passphrase@) == Some(p@),
{
    let decryptor = match age::Decryptor::new(envelope) {
        Ok(age::Decryptor::Passphrase(d)) => d,
        Ok(age::Decryptor::Recipients(_)) => return Unsealed::ForRecipients,
        Err(_) => return Unsealed::Nothing,
    };
    let mut plaintext = Vec::new();
    let mut reader = match decryptor.decrypt(&Secret::new(passphrase.to_owned()), None) {
        Ok(reader) => reader,
        Err(_) => return Unsealed::Nothing,
    };
    match reader.read_to_end(&mut plaintext) {
        Ok(_) => Unsealed::Plaintext(plaintext),
        Err(_) => Unsealed::Nothing,
    }
}

/// What sealing reports, given what the sealing produced: the envelope, or
/// `EncryptError` where there is none.
pub fn sealed(envelope: Option<Vec<u8>>) -> (r: Result<Vec<u8>, Error>)
    ensures
        envelope matches Some(e) ==> r == Ok::<Vec<u8>, Error>(e),
        envelope is None ==> fails_with(r, ErrorView::EncryptError),
{
    match envelope {
        Some(e) => Ok(e),
        None => Err(Error::EncryptError),
    }
}

/// What decryption reports, given what opening the envelope yielded: the
/// plaintext as text, or `DecryptError` where nothing was opened or the
/// plaintext is not text.
pub fn plaintext_of(opened: Option<Vec<u8>>) -> (r: Result<String, Error>)
    ensures
        outcome(r) == decrypted(bytes_of(opened)),
        r matches Ok(text) ==> bytes_of(opened) == Some(encode_utf8(text@)),
{
    proof {
        if opened is Some && valid_utf8(opened->0@) {
            decode_utf8_encode_utf8(opened->0@);
        }
    }
    match opened {
        Some(bytes) => match text_of(bytes.as_slice()) {
            Some(text) => Ok(String::from_str(text)),
            None => Err(Error::DecryptError),
        },
        None => Err(Error::DecryptError),
    }
}

/// What decryption with a passphrase reports, given what became of the
/// attempt to open the envelope.
pub fn text_of_unsealed(unsealed: Unsealed) -> (r: Result<String, Error>)
    ensures
        outcome(r) == unsealed_text(unsealed),
        r matches Ok(text) ==> unsealed matches Unsealed::Plaintext(bytes) && bytes@
            == encode_utf8(text@),
{
    match unsealed {
        Unsealed::Plaintext(bytes) => plaintext_of(Some(bytes)),
        Unsealed::ForRecipients => Err(Error::KeyNotEncrypted),
        Unsealed::Nothing => Err(Error::DecryptError),
    }
}

/// The bytes that were opened, if any.
pub open spec fn bytes_of(opened: Option<Vec<u8>>) -> Option<Seq<u8>> {
    match opened {
        Some(bytes) => Some(bytes@),
        None => None,
    }
}

/// Seals `plaintext` in an envelope that each of `recipients` can open. With no
/// recipients nobody can open it; that is not refused here.
///
/// Sealing always succeeds. The envelope differs from call to call. Every one
/// is addressed to recipients and is opened to `plaintext` by each secret key
/// that belongs to one of the recipients.
pub fn encrypt_with_keys(plaintext: &str, recipients: &[Recipient]) -> (r: Result<Vec<u8>, Error>)
    ensures
        r is Ok,
        r matches Ok(envelope) ==> addressed_to_recipients(envelope@) && sealed_for(
            envelope@,
            encode_utf8(plaintext@),
            encodings(recipients@),
        ),
{
    note_valid(recipients);
    sealed(seal_to_recipients(plaintext.as_bytes(), recipients))
}

/// Opens an envelope with a secret key and returns the plaintext as text. Fails
/// with `DecryptError` where the envelope was not sealed for this key, is
/// malformed or damaged, or its plaintext is not text.
pub fn decrypt_with_key(cypher: &[u8], key: &Identity) -> (r: Result<String, Error>)
    ensures
        outcome(r) == decrypted(opened_with_key(cypher@, key@)),
{
    plaintext_of(open_with_key(cypher, key.as_str()))
}

/// Seals `plaintext` with a passphrase.
///
/// Sealing always succeeds. The envelope differs from call to call. Every one
/// holds `plaintext` under `passphrase`; none of them reads as a key file, and
/// none is taken for one addressed to recipients.
pub fn encrypt_with_passphrase(plaintext: &str, passphrase: &str) -> (r: Result<Vec<u8>, Error>)
    ensures
        r is Ok,
        r matches Ok(envelope) ==> held_under(envelope@, passphrase@) == Some(
            encode_utf8(plaintext@),
        ),
        r matches Ok(envelope) ==> identities_in(envelope@) is None && !addressed_to_recipients(
            envelope@,
        ),
{
    sealed(seal_with_passphrase(plaintext.as_bytes(), passphrase))
}

/// Opens an envelope with a passphrase and returns the plaintext as text.
///
/// An envelope addressed to recipients is refused with `KeyNotEncrypted`.
/// Any other failure is a `DecryptError`: a wrong passphrase, bytes that are
/// no envelope or are damaged, a plaintext that is not text. Whether an
/// envelope opens depends on the machine too, so success is not promised;
/// the text of a success is what the envelope holds under the passphrase.
pub fn decrypt_with_passphrase(cypher: &[u8], passphrase: &str) -> (r: Result<String, Error>)
    ensures
        addressed_to_recipients(cypher@) ==> fails_with(r, ErrorView::KeyNotEncrypted),
        !addressed_to_recipients(cypher@) ==> r is Ok || fails_with(r, ErrorView::DecryptError),
        r matches Ok(text) ==> held_under(cypher@, passphrase@) == Some(encode_utf8(text@)),
{
    text_of_unsealed(open_with_passphrase(cypher, passphrase))
}

/// Text that was sealed with a passphrase is the text that comes back: whenever
/// opening the envelope with that passphrase succeeds, it yields the text that
/// was sealed.
pub proof fn lemma_seal_then_open_with_passphrase(
    envelope: Seq<u8>,
    passphrase: Seq<char>,
    sealed_text: Seq<char>,
    opened_text: Seq<char>,
)
    requires
        held_under(envelope, passphrase) == Some(encode_utf8(sealed_text)),
        held_under(envelope, passphrase) == Some(encode_utf8(opened_text)),
    ensures
        opened_text == sealed_text,
{
    encode_utf8_decode_utf8(sealed_text);
    encode_utf8_decode_utf8(opened_text);
}

/// Text that was sealed comes back as the same text once the envelope is opened
/// with a matching key.
pub proof fn lemma_seal_then_open(
    envelope: Seq<u8>,
    plaintext: Seq<char>,
    recipients: Seq<Seq<char>>,
    identity: Seq<char>,
)
    requires
        sealed_for(envelope, encode_utf8(plaintext), recipients),
        public_key_of(identity) matches Some(p) && recipients.contains(p),
    ensures
        decrypted(opened_with_key(envelope, identity)) == Ok::<Seq<char>, ErrorView>(plaintext),
{
    encode_utf8_valid_utf8(plaintext);
    encode_utf8_decode_utf8(plaintext);
}

} // verus!
