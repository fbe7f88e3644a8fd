//! Decryption of documents protected with the Office "agile" encryption scheme.
//!
//! The library reads the XML encryption descriptor of a protected document,
//! derives the file key from a password, and decrypts the encrypted package
//! stream segment by segment.

pub mod agile;
pub mod crypto;
pub mod encoding;
pub mod error;
pub mod xml;
