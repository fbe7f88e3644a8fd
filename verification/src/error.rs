use vstd::prelude::*;

verus! {

/// The ways in which reading or decrypting an encrypted document can fail.
#[derive(Debug)]
pub enum DecryptError {
    /// The encryption descriptor or the encrypted stream is malformed.
    InvalidStructure(String),
    /// The document uses a feature (such as a hash algorithm) that is recognised
    /// but not supported.
    Unimplemented(String),
    /// A failure inside the block cipher with no further detail.
    Unknown,
}

/// Builds an `InvalidStructure` error whose message is `context` followed by `detail`.
pub fn invalid_structure(context: &str, detail: &str) -> (e: DecryptError)
    ensures
        e matches DecryptError::InvalidStructure(message) && message@ == context@ + detail@,
{
    let mut message = String::from_str(context);
    message.append(detail);
    DecryptError::InvalidStructure(message)
}

/// Builds an `Unimplemented` error whose message is `context` followed by `detail`.
pub fn unimplemented(context: &str, detail: &str) -> (e: DecryptError)
    ensures
        e matches DecryptError::Unimplemented(message) && message@ == context@ + detail@,
{
    let mut message = String::from_str(context);
    message.append(detail);
    DecryptError::Unimplemented(message)
}

} // verus!
