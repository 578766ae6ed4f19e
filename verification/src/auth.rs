//! Master-password authentication and vault-key derivation.
//!
//! The stored authentication artifact is a single PHC password-hash string
//! produced by Argon2 with default parameters and a fresh random 16-byte
//! salt. Verifying a password and deriving the 32-byte vault key are the
//! trusted Argon2 calls; `verifies_of`, `salt_of` and `derived_key_of` name
//! their deterministic results.

use vstd::prelude::*;
use vstd::utf8::encode_utf8;
use argon2::{Argon2, PasswordHash, PasswordHasher, PasswordVerifier};

verus! {

/// Whether Argon2 verification accepts password bytes `pw` against the PHC
/// record `rec`.
pub uninterp spec fn verifies_of(pw: Seq<u8>, rec: Seq<char>) -> bool;

/// Whether a stored record parses as a PHC password-hash string.
pub uninterp spec fn record_parses(rec: Seq<char>) -> bool;

/// The raw salt bytes embedded in a PHC record, when the record parses and
/// carries a salt.
pub uninterp spec fn salt_of(rec: Seq<char>) -> Option<Seq<u8>>;

/// The 32-byte Argon2 output for password bytes and a salt, with default
/// parameters: a deterministic function of its two arguments.
pub uninterp spec fn derived_key_of(pw: Seq<u8>, salt: Seq<u8>) -> Seq<u8>;

/// Relies on argon2::Argon2::hash_password (default parameters, fresh random
/// 16-byte salt): the produced PHC string parses, embeds its 16-byte salt,
/// and verifies against the password it was produced from.
#[verifier::external_body]
fn hash_password_record(pw: &[u8]) -> (r: Option<String>)
    ensures
        r matches Some(rec) ==> record_parses(rec@) && verifies_of(pw@, rec@) && (salt_of(rec@)
            matches Some(s) && s.len() == 16),
{
    Argon2::default().hash_password(pw).ok().map(|h| h.to_string())
}

/// Relies on phc::PasswordHash::new and argon2's verify_password: parsing
/// succeeds exactly when the record is a PHC string, and the boolean is the
/// verification outcome.
#[verifier::external_body]
fn verify_password_record(pw: &[u8], rec: &str) -> (r: Option<bool>)
    ensures
        r matches Some(b) ==> b == verifies_of(pw@, rec@),
        r is Some <==> record_parses(rec@),
{
    match PasswordHash::new(rec) {
        Ok(h) => Some(Argon2::default().verify_password(pw, &h).is_ok()),
        Err(_) => None,
    }
}

/// Relies on phc::PasswordHash::new: the record's decoded salt bytes, when
/// the record parses and has a salt.
#[verifier::external_body]
fn salt_from_record(rec: &str) -> (r: Option<Vec<u8>>)
    ensures
        r matches Some(s) ==> salt_of(rec@) == Some(s@),
        r is Some <==> salt_of(rec@) is Some,
{
    match PasswordHash::new(rec) {
        Ok(h) => h.salt.map(|s| s.as_ref().to_vec()),
        Err(_) => None,
    }
}

/// Relies on argon2::Argon2::hash_password_into with a 32-byte output: a
/// deterministic function of the password and salt (default parameters).
#[verifier::external_body]
fn derive_key_raw(pw: &[u8], salt: &[u8]) -> (r: Option<[u8; 32]>)
    requires
        8 <= salt@.len() < 0x1_0000_0000,
        pw@.len() < 0x1_0000_0000,
    ensures
        r matches Some(k) ==> k@ == derived_key_of(pw@, salt@),
{
    let mut key = [0u8; 32];
    match Argon2::default().hash_password_into(pw, salt, &mut key) {
        Ok(()) => Some(key),
        Err(_) => None,
    }
}

/// Creates a fresh master-password record and derives the vault key from the
/// same password and embedded salt. First-time setup: any prior record is to
/// be overwritten by the caller.
pub fn set_master_password_record(password: &str) -> (r: Option<(String, [u8; 32])>)
    ensures
        encode_utf8(password@).len() >= 0x1_0000_0000 ==> r is None,
        r matches Some((rec, key)) ==> {
            &&& record_parses(rec@)
            &&& verifies_of(encode_utf8(password@), rec@)
            &&& salt_of(rec@) matches Some(s) && key@ == derived_key_of(
                encode_utf8(password@),
                s,
            )
        },
{
    let pw = password.as_bytes();
    if (pw.len() as u64) >= 0x1_0000_0000u64 {
        return None;
    }
    let rec = match hash_password_record(pw) {
        Option::Some(rec) => rec,
        Option::None => {
            return None;
        },
    };
    let salt = match salt_from_record(rec.as_str()) {
        Option::Some(s) => s,
        Option::None => {
            return None;
        },
    };
    let key = match derive_key_raw(pw, salt.as_slice()) {
        Option::Some(k) => k,
        Option::None => {
            return None;
        },
    };
    Some((rec, key))
}

/// Verifies a password against the stored record. `None` means the record
/// itself is corrupt (it does not parse as a PHC string) — fatal at startup —
/// while a wrong password is the `Some(false)` outcome.
pub fn authenticate_password(password: &str, record: &str) -> (r: Option<bool>)
    ensures
        r matches Some(b) ==> b == verifies_of(encode_utf8(password@), record@),
        r is Some <==> record_parses(record@),
{
    verify_password_record(password.as_bytes(), record)
}

/// Recomputes the vault key from a password and the salt embedded in the
/// stored record. Deterministic: the result is fixed by the password and the
/// record. To be called only after `authenticate_password` returned true; a
/// wrong password silently yields a wrong key.
pub fn derive_key(password: &str, record: &str) -> (r: Option<[u8; 32]>)
    ensures
        r matches Some(k) ==> (salt_of(record@) matches Some(s) && k@ == derived_key_of(
            encode_utf8(password@),
            s,
        )),
        salt_of(record@) is None ==> r is None,
        encode_utf8(password@).len() >= 0x1_0000_0000 ==> r is None,
        (salt_of(record@) matches Some(s) && (s.len() < 8 || s.len() >= 0x1_0000_0000)) ==> r
            is None,
{
    let pw = password.as_bytes();
    if (pw.len() as u64) >= 0x1_0000_0000u64 {
        return None;
    }
    let salt = match salt_from_record(record) {
        Option::Some(s) => s,
        Option::None => {
            return None;
        },
    };
    if salt.len() < 8 || (salt.len() as u64) >= 0x1_0000_0000u64 {
        return None;
    }
    derive_key_raw(pw, salt.as_slice())
}

/// Key derivation is deterministic: two keys derived from the same password
/// bytes and the same salt are identical.
pub proof fn lemma_derive_key_deterministic(pw: Seq<u8>, salt: Seq<u8>, k1: Seq<u8>, k2: Seq<u8>)
    requires
        k1 == derived_key_of(pw, salt),
        k2 == derived_key_of(pw, salt),
    ensures
        k1 == k2,
{
}

} // verus!
