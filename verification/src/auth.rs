//! Operator authentication against the shared password hash.
//!
//! When the state holds a password hash, a request must carry a password
//! whose argon2 verification against that hash succeeds; when it holds
//! none, every request is allowed.

use vstd::prelude::*;

verus! {

/// Whether argon2 verification of `password` against the encoded `hash`
/// succeeds. The outcome depends on the two arguments alone.
pub uninterp spec fn argon2_verdict(hash: Seq<char>, password: Seq<char>) -> bool;

/// Verifies a password against an argon2-encoded hash.
///
/// Relies on `argon2::verify_encoded` (the `rust-argon2` crate): a pure
/// check of the password's bytes against the encoded hash; a malformed
/// hash fails the check.
#[verifier::external_body]
fn argon2_verify(hash: &str, password: &str) -> (r: bool)
    ensures
        r == argon2_verdict(hash@, password@),
{
    match argon2::verify_encoded(hash, password.as_bytes()) {
        Ok(b) => b,
        Err(_) => false,
    }
}

/// What an operator request is owed: entry when no hash is set; otherwise
/// only with a password that verifies against the hash.
pub open spec fn spec_authorize(hash: Option<Seq<char>>, password: Option<Seq<char>>) -> bool {
    match hash {
        None => true,
        Some(h) => match password {
            Some(p) => argon2_verdict(h, p),
            None => false,
        },
    }
}

/// Decides an operator request: open when no hash is set; otherwise the
/// request must carry a password that verifies against the hash.
pub fn authorize(password_hash: &Option<String>, password: &Option<String>) -> (r: bool)
    ensures
        r == spec_authorize(
            crate::state::opt_str_view(*password_hash),
            crate::state::opt_str_view(*password),
        ),
{
    match password_hash {
        None => true,
        Some(h) => match password {
            Some(p) => argon2_verify(h.as_str(), p.as_str()),
            None => false,
        },
    }
}

} // verus!
