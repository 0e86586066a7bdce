//! One-way password hashing and checking, through the bcrypt scheme.
//!
//! The outcome of checking a password against a stored hash is named
//! `bcrypt_check`: it depends on the password and the hash alone, since the
//! salt and cost are embedded in the hash text.

use vstd::prelude::*;

verus! {

/// What checking a password against a bcrypt hash returns: `Some(true)` on a
/// match, `Some(false)` on a mismatch, `None` where the hash bytes are not a
/// well-formed bcrypt string.
pub uninterp spec fn bcrypt_check(password: Seq<u8>, hash: Seq<u8>) -> Option<bool>;

/// Relies on `bcrypt::hash` at the crate's default cost: the salt is drawn
/// fresh, so nothing is assumed about which hash comes out, only that it is
/// the 60-byte bcrypt form and that `bcrypt::verify` matches exactly the
/// hashed password against it, which the crate's source shows it recomputes
/// from the salt and cost embedded there.
#[verifier::external_body]
pub(crate) fn bcrypt_hash(password: &[u8]) -> (r: Option<Vec<u8>>)
    ensures
        match r {
            Some(h) => bcrypt_check(password@, h@) == Some(true) && h@.len() == 60,
            None => true,
        },
{
    match bcrypt::hash(password, bcrypt::DEFAULT_COST) {
        Ok(s) => Some(s.into_bytes()),
        Err(_) => None,
    }
}

/// Relies on `bcrypt::verify`: a pure function of the password and the hash
/// text, re-deriving the hash with the embedded salt and cost and comparing
/// in constant time; it errs exactly on a malformed hash, and bytes that are
/// not text count as malformed.
#[verifier::external_body]
pub(crate) fn bcrypt_verify(password: &[u8], hash: &[u8]) -> (r: Option<bool>)
    ensures
        r == bcrypt_check(password@, hash@),
{
    match core::str::from_utf8(hash) {
        Ok(h) => match bcrypt::verify(password, h) {
            Ok(b) => Some(b),
            Err(_) => None,
        },
        Err(_) => None,
    }
}

} // verus!
