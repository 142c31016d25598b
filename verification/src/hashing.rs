//! Password hashing through the scrypt crate's PHC-string API.
//!
//! A stored credential is a self-describing PHC record: it embeds the
//! algorithm identifier, its parameters and the salt, so verification needs
//! nothing but the record text and a candidate password. Both the outcome of
//! parsing a record and the outcome of verifying a password against it are
//! functions of their text alone; they are given names here so that contracts
//! elsewhere can speak about them exactly.

use vstd::prelude::*;

verus! {

/// Whether scrypt's PHC parser accepts `record` as a well-formed stored hash.
/// Names the success of `password_hash::PasswordHash::new`, which depends on
/// the record text alone.
pub uninterp spec fn hash_parses(record: Seq<char>) -> bool;

/// Whether `password` matches the credential stored in `record`.
/// Names the success of `scrypt::Scrypt::verify_password`, which recomputes
/// the key derivation with the salt and parameters embedded in `record` and
/// compares outputs: a function of the two texts alone.
pub uninterp spec fn verifies(password: Seq<char>, record: Seq<char>) -> bool;

/// Relies on `SaltString::generate` (fresh random salt from the operating
/// system) and `scrypt::Scrypt::hash_password_customized`: the returned PHC
/// string parses back with `PasswordHash::new` (it is that type's canonical
/// rendering), and `Scrypt::verify_password` accepts the password it was
/// derived from, since verification recomputes the same derivation from the
/// salt and parameters embedded in the record. The call cannot fail: the
/// fixed parameters are valid (log2 N = 11 below the word size, r = 8 and
/// p = 1 within bounds, a 32-byte key in the accepted 10..=64 range), and a
/// generated salt always decodes. The cost is kept moderate so logins stay
/// interactive; the record embeds its parameters, so stored hashes made
/// with any other cost verify unchanged and the cost can be raised later
/// without migrating the store.
#[verifier::external_body]
pub(crate) fn hash_password(password: &str) -> (r: String)
    ensures
        hash_parses(r@),
        verifies(password@, r@),
{
    let salt = scrypt::password_hash::SaltString::generate(
        &mut scrypt::password_hash::rand_core::OsRng,
    );
    let params = scrypt::Params::new(11, 8, 1, 32)
        .expect("the fixed scrypt parameters are valid");
    scrypt::password_hash::PasswordHasher::hash_password_customized(
        &scrypt::Scrypt, password.as_bytes(), None, None, params, &salt,
    ).expect("scrypt key derivation cannot fail on valid parameters").to_string()
}

/// Relies on `password_hash::PasswordHash::new`: whether a stored record text
/// parses as a PHC string, a deterministic function of the text.
#[verifier::external_body]
pub(crate) fn hash_record_parses(record: &str) -> (r: bool)
    ensures
        r == hash_parses(record@),
{
    scrypt::password_hash::PasswordHash::new(record).is_ok()
}

/// Relies on `scrypt::Scrypt::verify_password` (through
/// `password_hash::PasswordVerifier`): recomputes the derivation with the
/// record's own salt and parameters and compares the outputs in constant
/// time; the outcome depends on the password and record texts alone.
#[verifier::external_body]
pub(crate) fn verify_password(password: &str, record: &str) -> (r: bool)
    requires
        hash_parses(record@),
    ensures
        r == verifies(password@, record@),
{
    match scrypt::password_hash::PasswordHash::new(record) {
        Ok(parsed) => scrypt::password_hash::PasswordVerifier::verify_password(
            &scrypt::Scrypt,
            password.as_bytes(),
            &parsed,
        ).is_ok(),
        Err(_) => false,
    }
}

} // verus!
