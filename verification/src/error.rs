//! The failures that store, key and crypto operations report.

use vstd::prelude::*;
use vstd::string::StringExecFns;

verus! {

/// Why an operation on the store, the key file or an envelope failed.
#[derive(Debug)]
pub enum Error {
    /// No item of this name is in the store.
    ItemNotFound(String),
    /// An item of this name is already in the store.
    ItemAlreadyExists(String),
    /// The store has not been initialized yet.
    StoreNotInitialized,
    /// There is no secret key to work with.
    NoSecretKey,
    /// A key file is already present and may not be overwritten.
    SecretKeyExists,
    /// The envelope is addressed to recipients, not sealed with a passphrase.
    KeyNotEncrypted,
    /// A secret and its confirmation differ.
    PasswordsDoNotMatch,
    /// An envelope could not be opened: wrong key or passphrase, or corrupt bytes.
    DecryptError,
    /// An envelope could not be produced.
    EncryptError,
    /// Any other fault, with its description.
    Other(String),
}

/// The mathematical value of an [`Error`]: names and descriptions as sequences
/// of characters.
pub enum ErrorView {
    ItemNotFound(Seq<char>),
    ItemAlreadyExists(Seq<char>),
    StoreNotInitialized,
    NoSecretKey,
    SecretKeyExists,
    KeyNotEncrypted,
    PasswordsDoNotMatch,
    DecryptError,
    EncryptError,
    Other(Seq<char>),
}

impl ErrorView {
    /// The sentence shown to the user for this failure.
    pub open spec fn message(self) -> Seq<char> {
        match self {
            ErrorView::ItemNotFound(item) => item + " is not in the password store."@,
            ErrorView::ItemAlreadyExists(item) => item + " already exists in the password store."@,
            ErrorView::StoreNotInitialized => "Password store is empty. Try \"passage init\"."@,
            ErrorView::NoSecretKey => "No secret key found. Try \"passage init\"."@,
            ErrorView::SecretKeyExists => "Secret key already exists. Use --force to overwrite."@,
            ErrorView::KeyNotEncrypted => "Password store is not encrypted."@,
            ErrorView::PasswordsDoNotMatch => "Passwords do not match."@,
            ErrorView::DecryptError => "Decryption failed."@,
            ErrorView::EncryptError => "Encryption failed."@,
            ErrorView::Other(msg) => msg,
        }
    }
}

impl View for Error {
    type V = ErrorView;

    open spec fn view(&self) -> ErrorView {
        match self {
            Error::ItemNotFound(item) => ErrorView::ItemNotFound(item@),
            Error::ItemAlreadyExists(item) => ErrorView::ItemAlreadyExists(item@),
            Error::StoreNotInitialized => ErrorView::StoreNotInitialized,
            Error::NoSecretKey => ErrorView::NoSecretKey,
            Error::SecretKeyExists => ErrorView::SecretKeyExists,
            Error::KeyNotEncrypted => ErrorView::KeyNotEncrypted,
            Error::PasswordsDoNotMatch => ErrorView::PasswordsDoNotMatch,
            Error::DecryptError => ErrorView::DecryptError,
            Error::EncryptError => ErrorView::EncryptError,
            Error::Other(msg) => ErrorView::Other(msg@),
        }
    }
}

/// A result as a mathematical value: what was returned, or why nothing was.
pub open spec fn outcome<T: View>(r: Result<T, Error>) -> Result<T::V, ErrorView> {
    match r {
        Ok(value) => Ok(value@),
        Err(e) => Err(e@),
    }
}

/// The result is the failure `cause`.
pub open spec fn fails_with<T>(r: Result<T, Error>, cause: ErrorView) -> bool {
    r matches Err(e) && e@ == cause
}

impl Error {
    /// The sentence shown to the user for this failure.
    pub fn message(&self) -> (text: String)
        ensures
            text@ == self@.message(),
    {
        match self {
            Error::ItemNotFound(item) => item.clone().concat(" is not in the password store."),
            Error::ItemAlreadyExists(item) => item.clone().concat(
                " already exists in the password store.",
            ),
            Error::StoreNotInitialized => String::from_str(
                "Password store is empty. Try \"passage init\".",
            ),
            Error::NoSecretKey => String::from_str("No secret key found. Try \"passage init\"."),
            Error::SecretKeyExists => String::from_str(
                "Secret key already exists. Use --force to overwrite.",
            ),
            Error::KeyNotEncrypted => String::from_str("Password store is not encrypted."),
            Error::PasswordsDoNotMatch => String::from_str("Passwords do not match."),
            Error::DecryptError => String::from_str("Decryption failed."),
            Error::EncryptError => String::from_str("Encryption failed."),
            Error::Other(msg) => msg.clone(),
        }
    }

    /// Wraps a free-form description as an error.
    pub fn from_message(msg: String) -> (e: Error)
        ensures
            e@ == ErrorView::Other(msg@),
    {
        Error::Other(msg)
    }
}

} // verus!
