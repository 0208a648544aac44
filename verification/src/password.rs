//! The one-way password primitive: an opaque hash and its verifier.
//!
//! Hashing draws a fresh random salt, so nothing relates two hashes of the
//! same password; verification is a pure function of the encoded hash and the
//! candidate password, named `verify_of` so that contracts can speak of it.

use vstd::prelude::*;

verus! {

/// The outcome of checking `plain` against the encoded hash `hashed`.
/// This names the result of `argon2::verify_encoded`, which depends on its
/// two arguments alone.
pub uninterp spec fn verify_of(hashed: Seq<char>, plain: Seq<char>) -> bool;

/// Relies on rand::fill: fills the buffer with random bytes.
/// Nothing is promised of the result.
#[verifier::external_body]
fn random_salt() -> (salt: [u8; 32]) {
    let mut salt = [0u8; 32];
    rand::fill(&mut salt);
    salt
}

/// Relies on argon2::hash_encoded (package rust-argon2): with the default
/// config, a 32-byte salt and a password of fewer than 2^32 bytes it always
/// returns an encoded hash string. The encoding carries the salt and the
/// parameters, and verify_encoded recomputes the hash from exactly those, so
/// the returned encoding verifies against the password it was made from. The
/// salt is random, so nothing else is promised of the result.
#[verifier::external_body]
fn argon2_hash(plain: &str, salt: &[u8; 32]) -> (r: String)
    requires
        plain@.len() < 0x3FFF_FFFF,
    ensures
        verify_of(r@, plain@),
{
    argon2::hash_encoded(plain.as_bytes(), salt, &argon2::Config::default()).unwrap()
}

/// Relies on argon2::verify_encoded (package rust-argon2): a deterministic
/// function of the encoded hash and the password; a hash that does not parse
/// counts as a mismatch, never an error.
#[verifier::external_body]
fn argon2_verify(hashed: &str, plain: &str) -> (r: bool)
    ensures
        r == verify_of(hashed@, plain@),
{
    argon2::verify_encoded(hashed, plain.as_bytes()).unwrap_or(false)
}

/// Hash a password string under a fresh random salt. The result is opaque,
/// but it verifies against the password it was made from.
pub fn hash(password: &str) -> (r: String)
    requires
        password@.len() < 0x3FFF_FFFF,
    ensures
        verify_of(r@, password@),
{
    let salt = random_salt();
    argon2_hash(password, &salt)
}

/// Verify that a password matches a hashed version.
pub fn verify(hashed_password: &str, password: &str) -> (r: bool)
    ensures
        r == verify_of(hashed_password@, password@),
{
    argon2_verify(hashed_password, password)
}

} // verus!
