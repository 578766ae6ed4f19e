//! Authenticated encryption of one secret under the 256-bit vault key.
//!
//! The AES-256-GCM and base64 calls are trusted at their documented
//! contracts; everything around them — the canonical plaintext codec and the
//! composition proofs — is verified. `aead_dec` names the deterministic
//! AES-256-GCM decryption function; `b64_of`/`b64inv` name the canonical
//! base64 encoding and its inverse.

use vstd::prelude::*;
use crate::secret::{
    Secret, EncryptedSecret, SecretView, EncSecretView, secret_bytes, parse_secret,
    wf_secret_view, lemma_parse_secret_roundtrip,
};
use aes_gcm::KeyInit;
use aes_gcm::aead::{Aead, Generate};
use base64::Engine;

verus! {

/// What AES-256-GCM decryption returns for a key, nonce and ciphertext:
/// `Some` plaintext when the tag verifies, `None` otherwise.
pub uninterp spec fn aead_dec(key: Seq<u8>, nonce: Seq<u8>, ct: Seq<u8>) -> Option<Seq<u8>>;

/// The canonical padded base64 text of a byte string (standard alphabet).
pub uninterp spec fn b64_of(b: Seq<u8>) -> Seq<char>;

/// The byte string a canonical base64 text decodes to.
pub uninterp spec fn b64inv(s: Seq<char>) -> Seq<u8>;

/// The characters canonical base64 text is made of.
pub open spec fn is_b64_char(c: char) -> bool {
    let u = c as u32;
    (65 <= u && u <= 90) || (97 <= u && u <= 122) || (48 <= u && u <= 57) || u == 43 || u == 47
        || u == 61
}

/// Relies on aes_gcm::Aes256Gcm encryption with a fresh random nonce:
/// decrypting the result under the same key and nonce returns the plaintext,
/// and the ciphertext is the plaintext plus the 16-byte tag.
#[verifier::external_body]
fn aead_encrypt(key: &[u8; 32], pt: &Vec<u8>) -> (r: ([u8; 12], Vec<u8>))
    requires
        pt@.len() < 0x1_0000_0000,
    ensures
        aead_dec(key@, r.0@, r.1@) == Some(pt@),
        r.1@.len() == pt@.len() + 16,
{
    let k = aes_gcm::Key::<aes_gcm::Aes256Gcm>::from(*key);
    let cipher = aes_gcm::Aes256Gcm::new(&k);
    let nonce = aes_gcm::aead::Nonce::<aes_gcm::Aes256Gcm>::generate();
    let ct = cipher.encrypt(&nonce, pt.as_slice()).expect("plaintext within AES-GCM bounds");
    (nonce.into(), ct)
}

/// Relies on aes_gcm::Aes256Gcm decryption: returns the plaintext exactly
/// when the key/nonce/ciphertext triple is authentic, and fails otherwise.
#[verifier::external_body]
fn aead_decrypt(key: &[u8; 32], nonce: &[u8; 12], ct: &Vec<u8>) -> (r: Option<Vec<u8>>)
    ensures
        r matches Some(p) ==> aead_dec(key@, nonce@, ct@) == Some(p@),
        r is None ==> aead_dec(key@, nonce@, ct@) is None,
{
    let k = aes_gcm::Key::<aes_gcm::Aes256Gcm>::from(*key);
    let cipher = aes_gcm::Aes256Gcm::new(&k);
    let n = aes_gcm::aead::Nonce::<aes_gcm::Aes256Gcm>::from(*nonce);
    cipher.decrypt(&n, ct.as_slice()).ok()
}

/// Relies on base64::engine::general_purpose::STANDARD.encode: canonical
/// padded base64 over the standard alphabet, one text per byte string.
#[verifier::external_body]
pub fn b64_encode(b: &Vec<u8>) -> (r: String)
    ensures
        r@ == b64_of(b@),
        b64inv(r@) == b@,
        forall|i: int| 0 <= i < r@.len() ==> is_b64_char(#[trigger] r@[i]),
{
    base64::engine::general_purpose::STANDARD.encode(b.as_slice())
}

/// Relies on base64::engine::general_purpose::STANDARD.decode: succeeds
/// exactly on canonical padded base64 and inverts the encoding.
#[verifier::external_body]
pub fn b64_decode(s: &str) -> (r: Option<Vec<u8>>)
    ensures
        r matches Some(b) ==> s@ == b64_of(b@) && b@ == b64inv(s@),
        (exists|b: Seq<u8>| s@ == #[trigger] b64_of(b)) ==> r is Some,
{
    base64::engine::general_purpose::STANDARD.decode(s).ok()
}

/// Why an encrypted record could not be produced or read back.
#[derive(Debug, Clone, Copy, PartialEq, Eq, Structural)]
pub enum CryptoError {
    /// The secret's serialized form exceeds the single-record size bound.
    TooLarge,
    /// The stored ciphertext is not canonical base64.
    Encoding,
    /// The authentication tag did not verify: wrong key, wrong nonce, or a
    /// tampered ciphertext. The store cannot be trusted.
    Authentication,
    /// The decrypted plaintext is not a canonical secret encoding.
    Format,
}

impl Secret {
    /// Encrypts this secret's canonical serialized form under `key` with a
    /// fresh random nonce.
    pub fn encrypt(&self, key: [u8; 32]) -> (r: Result<EncryptedSecret, CryptoError>)
        ensures
            r matches Ok(es) ==> {
                &&& es@.ciphertext == b64_of(b64inv(es@.ciphertext))
                &&& b64inv(es@.ciphertext).len() == secret_bytes(self@).len() + 16
                &&& aead_dec(key@, es@.nonce, b64inv(es@.ciphertext)) == Some(secret_bytes(self@))
                &&& forall|i: int|
                    0 <= i < es@.ciphertext.len() ==> is_b64_char(#[trigger] es@.ciphertext[i])
                &&& wf_secret_view(self@)
            },
            r is Err <==> secret_bytes(self@).len() >= 0x1_0000_0000,
            r matches Err(e) ==> e == CryptoError::TooLarge,
    {
        let pt = self.to_bytes();
        if (pt.len() as u64) >= 0x1_0000_0000u64 {
            return Err(CryptoError::TooLarge);
        }
        let (nonce, ct) = aead_encrypt(&key, &pt);
        let ciphertext = b64_encode(&ct);
        Ok(EncryptedSecret { nonce, ciphertext })
    }
}

impl EncryptedSecret {
    /// Decrypts this record under `key` and parses the canonical form.
    /// An `Authentication` failure means the record cannot be trusted; it is
    /// distinct from the `Encoding` and `Format` shape errors. The per-record
    /// plaintext format is this library's own canonical encoding: a record
    /// whose plaintext was produced by any other serializer decrypts but is
    /// rejected as `Format` — a deliberate fail-closed stance, with no schema
    /// migration.
    pub fn decrypt(&self, key: [u8; 32]) -> (r: Result<Secret, CryptoError>)
        ensures
            ({
                let canon = exists|cb: Seq<u8>| self@.ciphertext == #[trigger] b64_of(cb);
                let pt = aead_dec(key@, self@.nonce, b64inv(self@.ciphertext));
                &&& (r is Ok <==> canon && (pt matches Some(p) && parse_secret(p) is Some))
                &&& (r matches Ok(s) ==> pt matches Some(p) && parse_secret(p) == Some(s@))
                &&& (r == Err::<Secret, CryptoError>(CryptoError::Encoding) <==> !canon)
                &&& (r == Err::<Secret, CryptoError>(CryptoError::Authentication) <==> canon
                    && pt is None)
                &&& (r == Err::<Secret, CryptoError>(CryptoError::Format) <==> canon && (
                pt matches Some(p) && parse_secret(p) is None))
            }),
    {
        let ct = match b64_decode(self.ciphertext.as_str()) {
            Option::Some(v) => v,
            Option::None => {
                return Err(CryptoError::Encoding);
            },
        };
        let pt = match aead_decrypt(&key, &self.nonce, &ct) {
            Option::Some(p) => p,
            Option::None => {
                return Err(CryptoError::Authentication);
            },
        };
        match Secret::from_bytes(&pt) {
            Option::Some(s) => Ok(s),
            Option::None => Err(CryptoError::Format),
        }
    }
}

/// Round trip: a record that `encrypt` produced from secret view `v` under a
/// key decrypts and parses back to exactly `v`. Together with the contracts
/// of `Secret::encrypt` and `EncryptedSecret::decrypt` this says that
/// decrypting an encryption of a secret under the same key returns the same
/// secret, bit for bit in every field.
pub proof fn lemma_encrypt_then_decrypt(key: Seq<u8>, v: SecretView, es: EncSecretView)
    requires
        wf_secret_view(v),
        es.ciphertext == b64_of(b64inv(es.ciphertext)),
        aead_dec(key, es.nonce, b64inv(es.ciphertext)) == Some(secret_bytes(v)),
    ensures
        exists|cb: Seq<u8>| es.ciphertext == #[trigger] b64_of(cb),
        aead_dec(key, es.nonce, b64inv(es.ciphertext)) matches Some(p) && parse_secret(p) == Some(
            v,
        ),
{
    lemma_parse_secret_roundtrip(v);
    assert(es.ciphertext == b64_of(b64inv(es.ciphertext)));
}

} // verus!
