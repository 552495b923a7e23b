//! Password hashing for account credentials: argon2id, PHC-string encoded.
//!
//! A pure function pair with no storage of its own: it turns a password into a
//! self-describing PHC string (algorithm, cost parameters, and a random salt
//! embedded in the output) and checks a password against such a string. A wrong
//! password and a corrupt stored string are kept distinct, so a storage fault is
//! never counted as an ordinary failed login. Both are deliberately slow and
//! belong off the simulation thread.

use vstd::prelude::*;
use argon2::Argon2;
use argon2::password_hash::rand_core::OsRng;
use argon2::password_hash::{PasswordHash, PasswordHasher, PasswordVerifier, SaltString};

verus! {

#[verifier::external_type_specification]
#[verifier::external_body]
pub struct ExPasswordHashError(argon2::password_hash::Error);

/// How argon2 judges a password against a stored PHC string.
#[derive(Clone, Copy, Debug, PartialEq, Eq, Structural)]
pub enum PhcCheck {
    /// The password produces the stored output.
    Match,
    /// A well-formed string the password does not satisfy.
    Mismatch,
    /// The string does not parse, or names parameters argon2 cannot use.
    Malformed,
}

/// argon2's judgement of `password` against the PHC string `phc`.
pub uninterp spec fn argon2_judgement(password: Seq<char>, phc: Seq<char>) -> PhcCheck;

/// A password could not be hashed.
#[derive(Debug)]
pub struct HashError(argon2::password_hash::Error);

/// A stored hash string could not be parsed or used.
#[derive(Debug)]
pub struct VerifyError(argon2::password_hash::Error);

impl HashError {
    /// The argon2 failure behind this error.
    pub fn cause(&self) -> &argon2::password_hash::Error {
        &self.0
    }
}

impl VerifyError {
    /// The argon2 failure behind this error.
    pub fn cause(&self) -> &argon2::password_hash::Error {
        &self.0
    }
}

enum Checked {
    Match,
    Mismatch,
    Failed(argon2::password_hash::Error),
}

spec fn checked_kind(c: Checked) -> PhcCheck {
    match c {
        Checked::Match => PhcCheck::Match,
        Checked::Mismatch => PhcCheck::Mismatch,
        Checked::Failed(_) => PhcCheck::Malformed,
    }
}

/// Parses `phc` with `PasswordHash::new` and checks `password` against it with
/// argon2's default verifier (`PasswordVerifier::verify_password`), which
/// recomputes the hash with the string's own algorithm, version, parameters and
/// salt and compares outputs. Claimed: the outcome is argon2's judgement of the
/// two strings, a deterministic function of them; `Error::Password` is a
/// mismatch, any other error (a parse failure included) a malformed string.
#[verifier::external_body]
fn check_phc(password: &str, phc: &str) -> (r: Checked)
    ensures
        checked_kind(r) == argon2_judgement(password@, phc@),
{
    let parsed = match PasswordHash::new(phc) {
        Ok(parsed) => parsed,
        Err(e) => return Checked::Failed(e),
    };
    match Argon2::default().verify_password(password.as_bytes(), &parsed) {
        Ok(()) => Checked::Match,
        Err(argon2::password_hash::Error::Password) => Checked::Mismatch,
        Err(other) => Checked::Failed(other),
    }
}

/// Draws a fresh salt from the operating system's generator
/// (`SaltString::generate` with `OsRng`), hashes `password` with argon2's
/// default parameters (`PasswordHasher::hash_password`), and renders the
/// result as a PHC string. Claimed: a produced string embeds the algorithm,
/// version, parameters and salt used, so checking the same password against it
/// recomputes the same output and matches. Claimed too: with the default
/// parameters and a generated salt the only refusal is a password longer than
/// `u32::MAX` bytes, so a password of at most `0x3fff_ffff` characters (four
/// bytes each at most) is hashed. Nothing is claimed of which string comes
/// back: the salt is random.
#[verifier::external_body]
fn argon2_hash(password: &str) -> (r: Result<String, argon2::password_hash::Error>)
    ensures
        r matches Ok(s) ==> argon2_judgement(password@, s@) == PhcCheck::Match,
        password@.len() <= 0x3fff_ffff ==> r is Ok,
{
    let salt = SaltString::generate(&mut OsRng);
    match Argon2::default().hash_password(password.as_bytes(), &salt) {
        Ok(hash) => Ok(hash.to_string()),
        Err(e) => Err(e),
    }
}

/// Hash `password` into a self-describing PHC string with a fresh random
/// salt. Any string produced verifies against the same password, and every
/// password short of the hasher's length limit is hashed.
pub fn hash_password(password: &str) -> (r: Result<String, HashError>)
    ensures
        r matches Ok(s) ==> argon2_judgement(password@, s@) == PhcCheck::Match,
        password@.len() <= 0x3fff_ffff ==> r is Ok,
{
    match argon2_hash(password) {
        Ok(s) => Ok(s),
        Err(e) => Err(HashError(e)),
    }
}

/// Check `password` against a stored PHC string: `Ok(true)` on a match,
/// `Ok(false)` for a well-formed string the password does not satisfy, and an
/// error for a string that will not parse.
pub fn verify_password(password: &str, phc: &str) -> (r: Result<bool, VerifyError>)
    ensures
        match argon2_judgement(password@, phc@) {
            PhcCheck::Match => r matches Ok(b) && b,
            PhcCheck::Mismatch => r matches Ok(b) && !b,
            PhcCheck::Malformed => r is Err,
        },
{
    match check_phc(password, phc) {
        Checked::Match => Ok(true),
        Checked::Mismatch => Ok(false),
        Checked::Failed(e) => Err(VerifyError(e)),
    }
}

} // verus!
