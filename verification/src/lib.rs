//! A personal secret store: individually encrypted items, the recipients they
//! are encrypted to, and the secret key that opens them.
//!
//! The store, the key file and the recipients file are held as plain values;
//! reading them from disk and writing them back is left to the caller.

pub mod crypt;
pub mod error;
pub mod fuzzy;
pub mod identity;
pub mod init;
pub mod input;
pub mod key;
pub mod order;
pub mod recipients;
pub mod store;
pub mod utf8;

pub use crate::crypt::{
    decrypt_with_key, decrypt_with_passphrase, encrypt_with_keys, encrypt_with_passphrase,
};
pub use crate::error::{fails_with, outcome, Error, ErrorView};
pub use crate::fuzzy::{distance, suggest};
pub use crate::identity::Identity;
pub use crate::init::{init, init_with, keep_key, rekey};
pub use crate::input::confirm_secret;
pub use crate::key::{
    decrypt_secret_key, encrypt_secret_key, read_secret_key, save_secret_key, KeyFile,
};
pub use crate::recipients::Recipient;
pub use crate::store::PasswordStore;
