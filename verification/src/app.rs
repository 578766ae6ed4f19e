//! The vault: lock state, vault key and the in-memory secret collection,
//! together with the interactive session state built on top of it.
//!
//! The vault is the single source of truth for "is the store currently
//! decryptable and queryable". It starts `Init` (no master-password record)
//! or `Login` (record present, locked); `set_master_password` moves an
//! uninitialized vault straight to unlocked, `authenticate` unlocks a locked
//! one, and there is no unlock-to-locked transition. Data-returning
//! operations are gated on `unlocked`.

use vstd::prelude::*;
use vstd::utf8::encode_utf8;
use std::collections::VecDeque;
use crate::secret::{Secret, Pair, SecretView, PairView, pairs_view, secret_bytes, parse_secret};
use crate::crypto::{aead_dec, b64_of, b64inv, is_b64_char, CryptoError};
use crate::auth::{
    verifies_of, record_parses, salt_of, derived_key_of, set_master_password_record,
    authenticate_password, derive_key,
};
use crate::store::{find_spec, upsert_spec, secrets_views, find_credentials, upsert_credentials};
use crate::storefile::{store_views, wf_store, parse_store_text, emit_store_x, parse_store_x, lemma_parse_store_roundtrip};
use crate::domain::normalize_spec;
use crate::text::chars_of;

verus! {

#[derive(Clone, Copy, PartialEq, Eq, Structural, Debug)]
pub enum CurrentScreen {
    Main,
    Searching,
    Editing,
    New,
    Login,
    Init,
}

#[derive(Clone, Copy, PartialEq, Eq, Structural, Debug)]
pub enum CurrentlyEditing {
    Name,
    Key(usize),
    Value(usize),
}

/// Why an unlock or a store write failed.
#[derive(Clone, Copy, PartialEq, Eq, Structural, Debug)]
pub enum VaultError {
    /// The stored master-password record is missing or does not parse.
    /// Fatal at startup, not retryable.
    CorruptRecord,
    /// The key-derivation pass failed.
    KeyDerivation,
    /// The persisted store file is not a store file this vault wrote.
    StoreSyntax,
    /// A record in the store failed to decrypt: the whole load is abandoned
    /// rather than returning silently wrong or partial plaintext.
    Integrity(CryptoError),
}

pub struct App {
    pub secrets: Vec<Secret>,
    pub current_screen: CurrentScreen,
    pub currently_editing: Option<CurrentlyEditing>,
    pub currently_selected_secret_idx: Option<usize>,
    pub secrets_per_row: usize,
    pub name_input: String,
    pub key_input: String,
    pub value_input: String,
    pub secret_scratch_content: Vec<Pair>,
    pub search_buffer: VecDeque<usize>,
    pub scratch: String,
    pub unlocked: bool,
    master_record: Option<String>,
    key: [u8; 32],
}

pub struct AppView {
    pub secrets: Seq<SecretView>,
    pub screen: CurrentScreen,
    pub editing: Option<CurrentlyEditing>,
    pub selected: Option<usize>,
    pub secrets_per_row: usize,
    pub name_input: Seq<char>,
    pub key_input: Seq<char>,
    pub value_input: Seq<char>,
    pub scratch_content: Seq<PairView>,
    pub search_buffer: Seq<usize>,
    pub scratch: Seq<char>,
    pub unlocked: bool,
    pub master_record: Option<Seq<char>>,
    pub key: Seq<u8>,
}

impl View for App {
    type V = AppView;

    closed spec fn view(&self) -> AppView {
        AppView {
            secrets: secrets_views(self.secrets@),
            screen: self.current_screen,
            editing: self.currently_editing,
            selected: self.currently_selected_secret_idx,
            secrets_per_row: self.secrets_per_row,
            name_input: self.name_input@,
            key_input: self.key_input@,
            value_input: self.value_input@,
            scratch_content: pairs_view(self.secret_scratch_content@),
            search_buffer: self.search_buffer@,
            scratch: self.scratch@,
            unlocked: self.unlocked,
            master_record: match self.master_record {
                Option::Some(r) => Some(r@),
                Option::None => None,
            },
            key: self.key@,
        }
    }
}

/// Each stored entry decrypts under `key` to exactly the corresponding
/// in-memory secret.
pub open spec fn store_matches_secrets(
    es: Seq<crate::secret::EncSecretView>,
    key: Seq<u8>,
    ss: Seq<SecretView>,
) -> bool {
    &&& es.len() == ss.len()
    &&& forall|i: int|
        0 <= i < es.len() ==> {
            &&& (exists|cb: Seq<u8>| (#[trigger] es[i]).ciphertext == #[trigger] b64_of(cb))
            &&& (aead_dec(key, es[i].nonce, b64inv(es[i].ciphertext)) matches Some(pt)
                && parse_secret(pt) == Some(ss[i]))
        }
}

/// Whether one stored entry can decrypt at all under `key`: canonical base64,
/// a verifying tag, and a plaintext in the canonical form.
pub open spec fn entry_decrypts(e: crate::secret::EncSecretView, key: Seq<u8>) -> bool {
    &&& (exists|cb: Seq<u8>| e.ciphertext == #[trigger] b64_of(cb))
    &&& (aead_dec(key, e.nonce, b64inv(e.ciphertext)) matches Some(pt) && parse_secret(pt) is Some)
}

/// Every stored entry decrypts under `key`.
pub open spec fn all_entries_decrypt(es: Seq<crate::secret::EncSecretView>, key: Seq<u8>) -> bool {
    forall|j: int| 0 <= j < es.len() ==> entry_decrypts(#[trigger] es[j], key)
}

/// How one remove-then-append rewrite relates the session state before and
/// after: the selected secret (when the selection is valid) is removed, and
/// when the name input is nonempty a secret built from the editing inputs is
/// appended at the end.
pub open spec fn update_secret_rel(was: AppView, now: AppView) -> bool {
    let mid = match was.selected {
        Option::Some(i) => {
            if i < was.secrets.len() {
                was.secrets.remove(i as int)
            } else {
                was.secrets
            }
        },
        Option::None => was.secrets,
    };
    if was.name_input.len() == 0 {
        now == (AppView { secrets: mid, ..was })
    } else {
        &&& now.secrets.len() == mid.len() + 1
        &&& now.secrets.last().name == was.name_input
        &&& now.secrets.last().contents == was.scratch_content
        &&& now.secrets == mid.push(now.secrets.last())
        &&& now == (AppView { secrets: now.secrets, ..was })
    }
}

/// Deleting the pair at `i` removes it from the scratch contents and then
/// rewrites the selected secret from the updated inputs.
pub open spec fn delete_pair_rel(was: AppView, now: AppView, i: int) -> bool {
    if 0 <= i < was.scratch_content.len() {
        update_secret_rel(
            AppView { scratch_content: was.scratch_content.remove(i), ..was },
            now,
        )
    } else {
        now == was
    }
}

impl App {
    /// A fresh vault around the stored master-password record, if any: the
    /// session starts at first-time setup when no non-empty record exists,
    /// else at the login prompt, locked.
    pub fn new(master_record: Option<String>) -> (r: App)
        ensures
            r@.secrets == Seq::<SecretView>::empty(),
            !r@.unlocked,
            r@.editing is None,
            r@.selected is None,
            r@.scratch_content == Seq::<PairView>::empty(),
            r@.search_buffer == Seq::<usize>::empty(),
            r@.name_input == Seq::<char>::empty(),
            r@.key_input == Seq::<char>::empty(),
            r@.value_input == Seq::<char>::empty(),
            r@.scratch == Seq::<char>::empty(),
            r@.secrets_per_row == 3,
            r@.key == Seq::new(32, |i: int| 0u8),
            r@.screen == (match r@.master_record {
                Option::Some(rec) => if rec.len() == 0 {
                    CurrentScreen::Init
                } else {
                    CurrentScreen::Login
                },
                Option::None => CurrentScreen::Init,
            }),
            r@.master_record == (match master_record {
                Option::Some(rec) => Some::<Seq<char>>(rec@),
                Option::None => None::<Seq<char>>,
            }),
    {
        let screen = match &master_record {
            Option::Some(rec) => {
                if rec.as_str().unicode_len() == 0 {
                    CurrentScreen::Init
                } else {
                    CurrentScreen::Login
                }
            },
            Option::None => CurrentScreen::Init,
        };
        let app = App {
            secrets: Vec::new(),
            current_screen: screen,
            currently_editing: None,
            currently_selected_secret_idx: None,
            secrets_per_row: 3,
            name_input: String::new(),
            key_input: String::new(),
            value_input: String::new(),
            secret_scratch_content: Vec::new(),
            search_buffer: VecDeque::new(),
            scratch: String::new(),
            unlocked: false,
            master_record,
            key: [0u8; 32],
        };
        proof {
            assert(secrets_views(app.secrets@) =~= Seq::<SecretView>::empty());
            assert(pairs_view(app.secret_scratch_content@) =~= Seq::<PairView>::empty());
            assert(app.key@ =~= Seq::new(32, |i: int| 0u8));
        }
        app
    }

    /// First-time setup: makes a fresh master-password record, derives the
    /// vault key from it and unlocks. Returns the record for the caller to
    /// persist (overwriting any prior record). `None` only when the hashing
    /// scheme fails.
    pub fn set_master_password(&mut self, password: &str) -> (r: Option<String>)
        ensures
            r matches Some(rec) ==> {
                &&& record_parses(rec@)
                &&& verifies_of(encode_utf8(password@), rec@)
                &&& salt_of(rec@) matches Some(s) && final(self)@.key == derived_key_of(
                    encode_utf8(password@),
                    s,
                )
                &&& final(self)@.unlocked
                &&& final(self)@.master_record == Some(rec@)
                &&& final(self)@.secrets == old(self)@.secrets
            },
            r is None ==> final(self)@ == old(self)@,
    {
        match set_master_password_record(password) {
            Option::Some((rec, key)) => {
                self.key = key;
                self.unlocked = true;
                self.master_record = Some(rec.clone());
                Some(rec)
            },
            Option::None => None,
        }
    }

    /// Verifies the master password; on success derives the vault key and
    /// decrypts the whole persisted store into memory. A wrong password is
    /// `Ok(false)` with the vault left locked; a corrupt record, a corrupt
    /// store file or any record that fails to decrypt abandons the unlock.
    pub fn authenticate(&mut self, master_password: &str, store_text: &str) -> (r: Result<
        bool,
        VaultError,
    >)
        ensures
            r matches Ok(b) ==> (old(self)@.master_record matches Some(rec) && b == verifies_of(
                encode_utf8(master_password@),
                rec,
            )),
            r == Ok::<bool, VaultError>(false) ==> final(self)@ == old(self)@,
            r == Ok::<bool, VaultError>(true) ==> {
                &&& final(self)@.master_record == old(self)@.master_record
                &&& final(self)@.unlocked
                &&& old(self)@.master_record matches Some(rec) && (salt_of(rec) matches Some(s)
                    && final(self)@.key == derived_key_of(encode_utf8(master_password@), s))
                &&& parse_store_text(store_text@) matches Some(es) && store_matches_secrets(
                    es,
                    final(self)@.key,
                    final(self)@.secrets,
                )
            },
            r is Err ==> final(self)@ == old(self)@,
            r == Err::<bool, VaultError>(VaultError::CorruptRecord) <==> (old(self)@.master_record is None || (old(self)@.master_record matches Some(rec)
                && !record_parses(rec))),
            (old(self)@.master_record matches Some(rec) && record_parses(rec) && !verifies_of(
                encode_utf8(master_password@),
                rec,
            )) ==> r == Ok::<bool, VaultError>(false),
            r == Err::<bool, VaultError>(VaultError::KeyDerivation) ==> (old(self)@.master_record matches Some(rec) && record_parses(rec) && verifies_of(
                encode_utf8(master_password@),
                rec,
            )),
            r == Err::<bool, VaultError>(VaultError::StoreSyntax) ==> (old(self)@.master_record matches Some(rec) && verifies_of(encode_utf8(master_password@), rec)
                && parse_store_text(store_text@) is None),
            parse_store_text(store_text@) is Some ==> r != Err::<bool, VaultError>(
                VaultError::StoreSyntax,
            ),
            (match r {
                Result::Err(VaultError::Integrity(_)) => (old(self)@.master_record matches Some(
                    rec,
                ) && (salt_of(rec) matches Some(salt) && (parse_store_text(store_text@)
                    matches Some(es) && !all_entries_decrypt(
                    es,
                    derived_key_of(encode_utf8(master_password@), salt),
                )))),
                _ => true,
            }),
            (old(self)@.master_record matches Some(rec) && record_parses(rec) && verifies_of(
                encode_utf8(master_password@),
                rec,
            ) && (salt_of(rec) matches Some(salt) && (parse_store_text(store_text@) matches Some(
                es,
            ) && all_entries_decrypt(
                es,
                derived_key_of(encode_utf8(master_password@), salt),
            )))) ==> (r == Ok::<bool, VaultError>(true) || r == Err::<bool, VaultError>(
                VaultError::KeyDerivation,
            )),
    {
        let rec: &String = match &self.master_record {
            Option::Some(r) => r,
            Option::None => {
                return Err(VaultError::CorruptRecord);
            },
        };
        let ok = match authenticate_password(master_password, rec.as_str()) {
            Option::Some(b) => b,
            Option::None => {
                return Err(VaultError::CorruptRecord);
            },
        };
        if !ok {
            return Ok(false);
        }
        let key = match derive_key(master_password, rec.as_str()) {
            Option::Some(k) => k,
            Option::None => {
                return Err(VaultError::KeyDerivation);
            },
        };
        let encs = match parse_store_x(store_text) {
            Option::Some(v) => v,
            Option::None => {
                return Err(VaultError::StoreSyntax);
            },
        };
        let ghost esv = store_views(encs@);
        let mut secrets: Vec<Secret> = Vec::new();
        let mut i: usize = 0;
        while i < encs.len()
            invariant
                i <= encs@.len(),
                self@ == old(self)@,
                old(self)@.master_record matches Some(rv) && record_parses(rv) && verifies_of(
                    encode_utf8(master_password@),
                    rv,
                ),
                old(self)@.master_record matches Some(rv) && (salt_of(rv) matches Some(s) && key@
                    == derived_key_of(encode_utf8(master_password@), s)),
                parse_store_text(store_text@) == Some(esv),
                esv == store_views(encs@),
                esv.len() == encs@.len(),
                secrets@.len() == i,
                forall|j: int|
                    0 <= j < i ==> {
                        &&& (exists|cb: Seq<u8>| (#[trigger] esv[j]).ciphertext == #[trigger] b64_of(
                            cb,
                        ))
                        &&& (aead_dec(key@, esv[j].nonce, b64inv(esv[j].ciphertext)) matches Some(
                            pt,
                        ) && parse_secret(pt) == Some(secrets_views(secrets@)[j]))
                    },
            decreases encs@.len() - i,
        {
            let s = match encs[i].decrypt(key) {
                Result::Ok(s) => s,
                Result::Err(e) => {
                    proof {
                        assert(esv[i as int] == encs@[i as int]@);
                        assert(!entry_decrypts(esv[i as int], key@));
                        match old(self)@.master_record {
                            Option::Some(rec) => {
                                match salt_of(rec) {
                                    Option::Some(salt) => {
                                        let dk = derived_key_of(
                                            encode_utf8(master_password@),
                                            salt,
                                        );
                                        assert(key@ == dk);
                                        assert(!entry_decrypts(esv[i as int], dk));
                                        assert(!all_entries_decrypt(esv, dk));
                                    },
                                    Option::None => {},
                                }
                            },
                            Option::None => {},
                        }
                    }
                    return Err(VaultError::Integrity(e));
                },
            };
            proof {
                assert(esv[i as int] == encs@[i as int]@);
            }
            let ghost oldsec = secrets@;
            secrets.push(s);
            proof {
                assert(secrets_views(secrets@) =~= secrets_views(oldsec).push(s@));
                assert forall|j: int| 0 <= j < i + 1 implies (exists|cb: Seq<u8>|
                    (#[trigger] esv[j]).ciphertext == #[trigger] b64_of(cb)) && (aead_dec(
                    key@,
                    esv[j].nonce,
                    b64inv(esv[j].ciphertext),
                ) matches Some(pt) && parse_secret(pt) == Some(secrets_views(secrets@)[j])) by {
                    if j < i {
                        assert(secrets_views(secrets@)[j] == secrets_views(oldsec)[j]);
                    } else {
                        assert(secrets_views(secrets@)[j] == s@);
                    }
                }
            }
            i = i + 1;
        }
        self.key = key;
        self.unlocked = true;
        self.secrets = secrets;
        Ok(true)
    }

    /// Re-encrypts every secret under the vault key with fresh nonces and
    /// renders the whole store file text; the caller overwrites the persisted
    /// file with it. Fails only when one record's serialized form exceeds the
    /// size bound.
    pub fn save_all(&self) -> (r: Result<String, CryptoError>)
        ensures
            r matches Ok(text) ==> (parse_store_text(text@) matches Some(es)
                && store_matches_secrets(es, self@.key, self@.secrets)),
            (forall|j: int|
                0 <= j < self@.secrets.len() ==> secret_bytes(#[trigger] self@.secrets[j]).len()
                    < 0x1_0000_0000) ==> r is Ok,
            r is Err ==> exists|j: int|
                0 <= j < self@.secrets.len() && secret_bytes(#[trigger] self@.secrets[j]).len()
                    >= 0x1_0000_0000,
    {
        let mut encs: Vec<crate::secret::EncryptedSecret> = Vec::new();
        let mut i: usize = 0;
        while i < self.secrets.len()
            invariant
                i <= self.secrets@.len(),
                encs@.len() == i,
                forall|j: int| 0 <= j < i ==> crate::secret::wf_secret_view(#[trigger] self@.secrets[j]),
                forall|j: int|
                    0 <= j < i ==> {
                        &&& (#[trigger] store_views(encs@)[j]).nonce.len() == 12
                        &&& (forall|m: int|
                            0 <= m < store_views(encs@)[j].ciphertext.len() ==> is_b64_char(
                                #[trigger] store_views(encs@)[j].ciphertext[m],
                            ))
                        &&& store_views(encs@)[j].ciphertext == b64_of(
                            b64inv(store_views(encs@)[j].ciphertext),
                        )
                        &&& aead_dec(
                            self@.key,
                            store_views(encs@)[j].nonce,
                            b64inv(store_views(encs@)[j].ciphertext),
                        ) == Some(secret_bytes(self@.secrets[j]))
                    },
            decreases self.secrets@.len() - i,
        {
            let es = match self.secrets[i].encrypt(self.key) {
                Result::Ok(es) => es,
                Result::Err(e) => {
                    proof {
                        assert(self@.secrets[i as int] == self.secrets@[i as int]@);
                        assert(secret_bytes(self@.secrets[i as int]).len() >= 0x1_0000_0000);
                    }
                    return Err(e);
                },
            };
            let ghost oldencs = encs@;
            encs.push(es);
            proof {
                assert(store_views(encs@) =~= store_views(oldencs).push(es@));
                assert(self@.secrets[i as int] == self.secrets@[i as int]@);
                assert forall|j: int| 0 <= j < i + 1 implies ((#[trigger] store_views(
                    encs@,
                )[j]).nonce.len() == 12 && (forall|m: int|
                    0 <= m < store_views(encs@)[j].ciphertext.len() ==> is_b64_char(
                        #[trigger] store_views(encs@)[j].ciphertext[m],
                    )) && store_views(encs@)[j].ciphertext == b64_of(
                    b64inv(store_views(encs@)[j].ciphertext),
                ) && aead_dec(
                    self@.key,
                    store_views(encs@)[j].nonce,
                    b64inv(store_views(encs@)[j].ciphertext),
                ) == Some(secret_bytes(self@.secrets[j]))) by {
                    if j < i {
                        assert(store_views(encs@)[j] == store_views(oldencs)[j]);
                    } else {
                        assert(store_views(encs@)[j] == es@);
                    }
                }
            }
            i = i + 1;
        }
        let text = emit_store_x(&encs);
        proof {
            let es = store_views(encs@);
            assert(wf_store(es));
            lemma_parse_store_roundtrip(es);
            assert forall|j: int| 0 <= j < es.len() implies (exists|cb: Seq<u8>|
                (#[trigger] es[j]).ciphertext == #[trigger] b64_of(cb)) && (aead_dec(
                self@.key,
                es[j].nonce,
                b64inv(es[j].ciphertext),
            ) matches Some(pt) && parse_secret(pt) == Some(self@.secrets[j])) by {
                assert(es[j].ciphertext == b64_of(b64inv(es[j].ciphertext)));
                crate::secret::lemma_parse_secret_roundtrip(self@.secrets[j]);
            }
            assert(store_matches_secrets(es, self@.key, self@.secrets));
        }
        Ok(text)
    }

    /// Whether the vault is currently unlocked.
    pub fn is_unlocked(&self) -> (r: bool)
        ensures
            r == self@.unlocked,
    {
        self.unlocked
    }

    /// First-match-wins credential lookup for a domain; see `find_spec`.
    /// Does not itself check the lock state: the query surface gates on it.
    pub fn get_credentials_for_domain(&self, domain: &str) -> (r: Option<(String, String)>)
        ensures
            r matches Some((u, p)) ==> find_spec(self@.secrets, normalize_spec(domain@)) == Some(
                (u@, p@),
            ),
            r is None ==> find_spec(self@.secrets, normalize_spec(domain@)) is None,
    {
        find_credentials(&self.secrets, domain)
    }

    /// Create-or-update for a domain; see `upsert_spec`. Returns whether the
    /// store changed, so the caller knows to persist.
    pub fn upsert_credentials_for_domain(
        &mut self,
        domain: &str,
        username: &str,
        password: &str,
    ) -> (changed: bool)
        ensures
            changed == (find_spec(old(self)@.secrets, normalize_spec(domain@)) is None),
            final(self)@.secrets == upsert_spec(
                old(self)@.secrets,
                domain@,
                username@,
                password@,
                crate::store::upsert_ts(old(self)@.secrets, final(self)@.secrets),
            ),
            final(self)@.unlocked == old(self)@.unlocked,
            final(self)@.key == old(self)@.key,
            final(self)@.master_record == old(self)@.master_record,
    {
        upsert_credentials(&mut self.secrets, domain, username, password)
    }
}


/// A key press, as the interactive loop hands it to the state machine.
#[derive(Clone, Copy, PartialEq, Eq, Structural, Debug)]
pub enum KeyInput {
    Char(char),
    Enter,
    Esc,
    Backspace,
    Tab,
    BackTab,
    Delete,
    Left,
    Right,
    Up,
    Down,
    Other,
}

/// The indices of the secrets whose name contains `q`, in ascending order,
/// starting the scan at `i`.
pub open spec fn matching_idxs(ss: Seq<SecretView>, q: Seq<char>, i: int) -> Seq<usize>
    decreases ss.len() - i,
{
    if i < 0 || i >= ss.len() {
        Seq::empty()
    } else if crate::text::contains_seq(ss[i].name, q) {
        seq![i as usize] + matching_idxs(ss, q, i + 1)
    } else {
        matching_idxs(ss, q, i + 1)
    }
}

/// The editing slot after one forward step: name, then each pair's key and
/// value in turn, wrapping back to the name after the extra input row.
pub open spec fn next_editing(e: Option<CurrentlyEditing>, len: nat) -> Option<CurrentlyEditing> {
    match e {
        Option::None => Some(CurrentlyEditing::Name),
        Option::Some(CurrentlyEditing::Name) => Some(CurrentlyEditing::Key(0)),
        Option::Some(CurrentlyEditing::Key(idx)) => Some(CurrentlyEditing::Value(idx)),
        Option::Some(CurrentlyEditing::Value(idx)) => {
            if idx >= len {
                Some(CurrentlyEditing::Name)
            } else {
                Some(CurrentlyEditing::Key((idx + 1) as usize))
            }
        },
    }
}

/// The editing slot after one backward step.
pub open spec fn prev_editing(e: Option<CurrentlyEditing>, len: nat) -> Option<CurrentlyEditing> {
    match e {
        Option::None => {
            if len == 0 {
                Some(CurrentlyEditing::Name)
            } else {
                Some(CurrentlyEditing::Value((len - 1) as usize))
            }
        },
        Option::Some(CurrentlyEditing::Name) => Some(CurrentlyEditing::Value(len as usize)),
        Option::Some(CurrentlyEditing::Key(idx)) => {
            if idx == 0 {
                Some(CurrentlyEditing::Name)
            } else {
                Some(CurrentlyEditing::Value((idx - 1) as usize))
            }
        },
        Option::Some(CurrentlyEditing::Value(idx)) => Some(CurrentlyEditing::Key(idx)),
    }
}

/// The grid cursor after an arrow key: left/right step by one, up/down by a
/// row, all wrapping over `len` cards.
pub open spec fn select_secret_spec(
    cur: Option<usize>,
    key: KeyInput,
    len: nat,
    per_row: nat,
) -> Option<usize> {
    if len == 0 {
        cur
    } else {
        match cur {
            Option::None => Some(0usize),
            Option::Some(i) => Some(
                (match key {
                    KeyInput::Left => if i == 0 {
                        (len - 1) as usize
                    } else {
                        (i - 1) as usize
                    },
                    KeyInput::Right => (((i + per_row * 0 + 1) as int) % (len as int)) as usize,
                    KeyInput::Down => (((i + per_row) as int) % (len as int)) as usize,
                    KeyInput::Up => if i < per_row {
                        if len + i >= per_row {
                            (((len + i - per_row) as int) % (len as int)) as usize
                        } else {
                            0usize
                        }
                    } else {
                        (i - per_row) as usize
                    },
                    _ => i,
                }),
            ),
        }
    }
}

/// The pair cursor after an arrow key in the editing popup.
pub open spec fn select_pair_spec(
    cur: Option<CurrentlyEditing>,
    key: KeyInput,
    len: nat,
) -> CurrentlyEditing {
    let c = match cur {
        Option::Some(e) => e,
        Option::None => CurrentlyEditing::Name,
    };
    match c {
        CurrentlyEditing::Name => match key {
            KeyInput::Down => CurrentlyEditing::Key(0),
            KeyInput::Up => CurrentlyEditing::Key(len as usize),
            _ => CurrentlyEditing::Name,
        },
        CurrentlyEditing::Key(idx) => select_pair_arrow(idx, key, len),
        CurrentlyEditing::Value(idx) => select_pair_arrow(idx, key, len),
    }
}

pub open spec fn select_pair_arrow(idx: usize, key: KeyInput, len: nat) -> CurrentlyEditing {
    match key {
        KeyInput::Down => {
            if idx >= len {
                CurrentlyEditing::Name
            } else {
                CurrentlyEditing::Key((idx + 1) as usize)
            }
        },
        KeyInput::Up => {
            if idx == 0 {
                CurrentlyEditing::Name
            } else {
                CurrentlyEditing::Key((idx - 1) as usize)
            }
        },
        KeyInput::Left => CurrentlyEditing::Key(idx),
        KeyInput::Right => CurrentlyEditing::Value(idx),
        _ => CurrentlyEditing::Key(idx),
    }
}

impl App {
    /// Fills the search buffer with the indices of the secrets whose name
    /// contains the search input, in stored order, and selects the first hit.
    pub fn search_secrets(&mut self)
        ensures
            final(self)@.search_buffer == matching_idxs(old(self)@.secrets, old(self)@.scratch, 0),
            final(self)@.selected == (if final(self)@.search_buffer.len() > 0 {
                Some(final(self)@.search_buffer[0])
            } else {
                old(self)@.selected
            }),
            final(self)@ == (AppView {
                search_buffer: final(self)@.search_buffer,
                selected: final(self)@.selected,
                ..old(self)@
            }),
    {
        let q = chars_of(self.scratch.as_str());
        let ghost sv = self@.secrets;
        let mut buf: VecDeque<usize> = VecDeque::new();
        let mut i: usize = 0;
        proof {
            assert(matching_idxs(sv, q@, 0) == buf@ + matching_idxs(sv, q@, 0)) by {
                assert(buf@ + matching_idxs(sv, q@, 0) =~= matching_idxs(sv, q@, 0));
            }
        }
        while i < self.secrets.len()
            invariant
                i <= self.secrets@.len(),
                sv == secrets_views(self.secrets@),
                sv.len() == self.secrets@.len(),
                q@ == self.scratch@,
                matching_idxs(sv, q@, 0) == buf@ + matching_idxs(sv, q@, i as int),
            decreases self.secrets@.len() - i,
        {
            let name_chars = chars_of(self.secrets[i].get_name());
            let ghost oldbuf = buf@;
            proof {
                assert(sv[i as int] == self.secrets@[i as int]@);
            }
            if crate::text::contains_x(&name_chars, &q) {
                buf.push_back(i);
                proof {
                    assert(matching_idxs(sv, q@, i as int) == seq![i as usize] + matching_idxs(
                        sv,
                        q@,
                        i as int + 1,
                    ));
                    assert(oldbuf + (seq![i as usize] + matching_idxs(sv, q@, i as int + 1)) =~= buf@
                        + matching_idxs(sv, q@, i as int + 1));
                }
            } else {
                proof {
                    assert(matching_idxs(sv, q@, i as int) == matching_idxs(sv, q@, i as int + 1));
                }
            }
            i = i + 1;
        }
        proof {
            assert(matching_idxs(sv, q@, sv.len() as int) =~= Seq::<usize>::empty());
            assert(buf@ + Seq::<usize>::empty() =~= buf@);
        }
        if buf.len() > 0 {
            self.currently_selected_secret_idx = Some(buf[0]);
        }
        self.search_buffer = buf;
    }

    /// Rotates the search buffer one step and selects its new first hit.
    pub fn increment_search_buffer(&mut self)
        ensures
            old(self)@.search_buffer.len() == 0 ==> final(self)@ == old(self)@,
            old(self)@.search_buffer.len() > 0 ==> {
                &&& final(self)@.search_buffer == old(self)@.search_buffer.subrange(
                    1,
                    old(self)@.search_buffer.len() as int,
                ).push(old(self)@.search_buffer[0])
                &&& final(self)@.selected == Some(final(self)@.search_buffer[0])
                &&& final(self)@ == (AppView {
                    search_buffer: final(self)@.search_buffer,
                    selected: final(self)@.selected,
                    ..old(self)@
                })
            },
    {
        if self.search_buffer.len() > 0 {
            let first = match self.search_buffer.pop_front() {
                Option::Some(x) => x,
                Option::None => {
                    return ;
                },
            };
            self.search_buffer.push_back(first);
            let sel = self.search_buffer[0];
            self.currently_selected_secret_idx = Some(sel);
        }
    }

    /// Adds the key/value inputs as a new pair of the secret being edited;
    /// an empty key is ignored.
    pub fn add_pair(&mut self)
        ensures
            old(self)@.key_input.len() == 0 ==> final(self)@ == old(self)@,
            old(self)@.key_input.len() > 0 ==> final(self)@ == (AppView {
                scratch_content: old(self)@.scratch_content.push(
                    PairView { key: old(self)@.key_input, value: old(self)@.value_input },
                ),
                ..old(self)@
            }),
    {
        let pair = Pair { key: self.key_input.clone(), value: self.value_input.clone() };
        if pair.key.as_str().unicode_len() > 0 {
            let ghost oldsc = pairs_view(self.secret_scratch_content@);
            self.secret_scratch_content.push(pair);
            proof {
                assert(pairs_view(self.secret_scratch_content@) =~= oldsc.push(
                    PairView { key: old(self)@.key_input, value: old(self)@.value_input },
                ));
            }
        }
    }

    /// Saves the edited inputs as a new secret at the end of the store;
    /// an empty name is ignored. The caller persists afterwards.
    pub fn save_secret(&mut self)
        ensures
            old(self)@.name_input.len() == 0 ==> final(self)@ == old(self)@,
            old(self)@.name_input.len() > 0 ==> {
                &&& final(self)@.secrets.len() == old(self)@.secrets.len() + 1
                &&& final(self)@.secrets.last().name == old(self)@.name_input
                &&& final(self)@.secrets.last().contents == old(self)@.scratch_content
                &&& final(self)@.secrets == old(self)@.secrets.push(final(self)@.secrets.last())
                &&& final(self)@ == (AppView { secrets: final(self)@.secrets, ..old(self)@ })
            },
    {
        if self.name_input.as_str().unicode_len() > 0 {
            let contents = clone_pairs(&self.secret_scratch_content);
            let s = Secret::new(self.name_input.as_str(), contents);
            let ghost oldv = secrets_views(self.secrets@);
            self.secrets.push(s);
            proof {
                assert(secrets_views(self.secrets@) =~= oldv.push(s@));
            }
        }
    }

    /// Deletes the selected secret. The caller persists afterwards.
    pub fn delete_secret(&mut self)
        ensures
            final(self)@ == (match old(self)@.selected {
                Option::Some(i) => {
                    if i < old(self)@.secrets.len() {
                        AppView {
                            secrets: old(self)@.secrets.remove(i as int),
                            ..old(self)@
                        }
                    } else {
                        old(self)@
                    }
                },
                Option::None => old(self)@,
            }),
    {
        match self.currently_selected_secret_idx {
            Option::Some(i) => {
                if i < self.secrets.len() {
                    let ghost oldv = secrets_views(self.secrets@);
                    let _ = self.secrets.remove(i);
                    proof {
                        assert(secrets_views(self.secrets@) =~= oldv.remove(i as int));
                    }
                }
            },
            Option::None => {},
        }
    }

    /// Loads the selected secret into the editing inputs.
    pub fn load_secret(&mut self)
        ensures
            final(self)@ == (match old(self)@.selected {
                Option::Some(i) => {
                    if i < old(self)@.secrets.len() {
                        AppView {
                            name_input: old(self)@.secrets[i as int].name,
                            scratch_content: old(self)@.secrets[i as int].contents,
                            ..old(self)@
                        }
                    } else {
                        old(self)@
                    }
                },
                Option::None => old(self)@,
            }),
    {
        match self.currently_selected_secret_idx {
            Option::Some(i) => {
                if i < self.secrets.len() {
                    proof {
                        assert(secrets_views(self.secrets@)[i as int] == self.secrets@[i as int]@);
                    }
                    self.name_input = self.secrets[i].get_name().to_owned();
                    self.secret_scratch_content = self.secrets[i].get_contents();
                }
            },
            Option::None => {},
        }
    }

    /// Rewrites the selected secret from the editing inputs: it is removed
    /// and re-saved with the new values (updates are remove-then-append).
    pub fn update_secret(&mut self)
        ensures
            update_secret_rel(old(self)@, final(self)@),
            final(self)@.unlocked == old(self)@.unlocked,
            final(self)@.key == old(self)@.key,
            final(self)@.master_record == old(self)@.master_record,
    {
        self.delete_secret();
        self.save_secret();
    }

    /// Removes the pair being edited from the secret under edit (when the
    /// cursor sits on a stored pair) and rewrites the secret.
    pub fn delete_pair(&mut self)
        ensures
            (match old(self)@.editing {
                Option::Some(CurrentlyEditing::Key(i)) => delete_pair_rel(old(self)@, final(self)@, i as int),
                Option::Some(CurrentlyEditing::Value(i)) => delete_pair_rel(old(self)@, final(self)@, i as int),
                _ => final(self)@ == old(self)@,
            }),
            final(self)@.unlocked == old(self)@.unlocked,
            final(self)@.key == old(self)@.key,
            final(self)@.master_record == old(self)@.master_record,
    {
        match self.currently_editing {
            Option::Some(CurrentlyEditing::Key(idx)) | Option::Some(
                CurrentlyEditing::Value(idx),
            ) => {
                if idx < self.secret_scratch_content.len() {
                    let ghost oldsc = pairs_view(self.secret_scratch_content@);
                    let _ = self.secret_scratch_content.remove(idx);
                    proof {
                        assert(pairs_view(self.secret_scratch_content@) =~= oldsc.remove(idx as int));
                    }
                    self.update_secret();
                }
            },
            _ => {},
        }
    }

    /// Steps the editing cursor forward, as `next_editing` describes.
    pub fn increment_currently_editing(&mut self)
        ensures
            final(self)@ == (AppView {
                editing: next_editing(
                    old(self)@.editing,
                    old(self)@.scratch_content.len(),
                ),
                ..old(self)@
            }),
    {
        let len = self.secret_scratch_content.len();
        self.currently_editing = match self.currently_editing {
            Option::None => Some(CurrentlyEditing::Name),
            Option::Some(CurrentlyEditing::Name) => Some(CurrentlyEditing::Key(0)),
            Option::Some(CurrentlyEditing::Key(idx)) => Some(CurrentlyEditing::Value(idx)),
            Option::Some(CurrentlyEditing::Value(idx)) => {
                if idx >= len {
                    Some(CurrentlyEditing::Name)
                } else {
                    Some(CurrentlyEditing::Key(idx + 1))
                }
            },
        };
        proof {
            assert(pairs_view(self.secret_scratch_content@).len()
                == self.secret_scratch_content@.len());
        }
    }

    /// Steps the editing cursor backward, as `prev_editing` describes.
    pub fn decrement_currently_editing(&mut self)
        ensures
            final(self)@ == (AppView {
                editing: prev_editing(
                    old(self)@.editing,
                    old(self)@.scratch_content.len(),
                ),
                ..old(self)@
            }),
    {
        let len = self.secret_scratch_content.len();
        self.currently_editing = match self.currently_editing {
            Option::None => {
                if len == 0 {
                    Some(CurrentlyEditing::Name)
                } else {
                    Some(CurrentlyEditing::Value(len - 1))
                }
            },
            Option::Some(CurrentlyEditing::Name) => Some(CurrentlyEditing::Value(len)),
            Option::Some(CurrentlyEditing::Key(idx)) => {
                if idx == 0 {
                    Some(CurrentlyEditing::Name)
                } else {
                    Some(CurrentlyEditing::Value(idx - 1))
                }
            },
            Option::Some(CurrentlyEditing::Value(idx)) => Some(CurrentlyEditing::Key(idx)),
        };
    }

    /// Clears every transient input and the selection.
    pub fn clear_input_fields(&mut self)
        ensures
            final(self)@ == (AppView {
                selected: None,
                editing: None,
                name_input: Seq::empty(),
                key_input: Seq::empty(),
                value_input: Seq::empty(),
                scratch_content: Seq::empty(),
                scratch: Seq::empty(),
                search_buffer: Seq::empty(),
                ..old(self)@
            }),
    {
        self.currently_selected_secret_idx = None;
        self.currently_editing = None;
        self.name_input = String::new();
        self.key_input = String::new();
        self.value_input = String::new();
        self.secret_scratch_content = Vec::new();
        self.scratch = String::new();
        self.search_buffer = VecDeque::new();
        proof {
            assert(pairs_view(self.secret_scratch_content@) =~= Seq::<PairView>::empty());
        }
    }

    /// Clears the key/value inputs.
    pub fn clear_key_value_fields(&mut self)
        ensures
            final(self)@ == (AppView {
                key_input: Seq::empty(),
                value_input: Seq::empty(),
                ..old(self)@
            }),
    {
        self.key_input = String::new();
        self.value_input = String::new();
    }

    /// Moves the grid selection for an arrow key, as `select_secret_spec`
    /// describes.
    pub fn select_new_secret(&mut self, input: KeyInput)
        ensures
            final(self)@ == (AppView {
                selected: select_secret_spec(
                    old(self)@.selected,
                    input,
                    old(self)@.secrets.len(),
                    old(self)@.secrets_per_row as nat,
                ),
                ..old(self)@
            }),
    {
        let len = self.secrets.len();
        proof {
            assert(secrets_views(self.secrets@).len() == self.secrets@.len());
        }
        if len == 0 {
            return ;
        }
        let per_row = self.secrets_per_row;
        self.currently_selected_secret_idx = Some(
            match self.currently_selected_secret_idx {
                Option::None => 0,
                Option::Some(i) => match input {
                    KeyInput::Left => {
                        if i == 0 {
                            len - 1
                        } else {
                            i - 1
                        }
                    },
                    KeyInput::Right => (((i as u128 + 1) % (len as u128)) as usize),
                    KeyInput::Down => (((i as u128 + per_row as u128) % (len as u128)) as usize),
                    KeyInput::Up => {
                        if i < per_row {
                            if (len as u128) + (i as u128) >= (per_row as u128) {
                                ((((len as u128) + (i as u128) - (per_row as u128)) % (
                                len as u128)) as usize)
                            } else {
                                0
                            }
                        } else {
                            i - per_row
                        }
                    },
                    _ => i,
                },
            },
        );
    }

    /// Moves the pair cursor in the editing popup, as `select_pair_spec`
    /// describes.
    pub fn select_new_pair(&mut self, input: KeyInput)
        ensures
            final(self)@ == (AppView {
                editing: Some(
                    select_pair_spec(
                        old(self)@.editing,
                        input,
                        old(self)@.scratch_content.len(),
                    ),
                ),
                ..old(self)@
            }),
    {
        let len = self.secret_scratch_content.len();
        proof {
            assert(pairs_view(self.secret_scratch_content@).len()
                == self.secret_scratch_content@.len());
        }
        let current = match self.currently_editing {
            Option::Some(e) => e,
            Option::None => CurrentlyEditing::Name,
        };
        let next = match current {
            CurrentlyEditing::Name => match input {
                KeyInput::Down => CurrentlyEditing::Key(0),
                KeyInput::Up => CurrentlyEditing::Key(len),
                _ => CurrentlyEditing::Name,
            },
            CurrentlyEditing::Key(idx) => self.pair_arrow(idx, input, len),
            CurrentlyEditing::Value(idx) => self.pair_arrow(idx, input, len),
        };
        self.currently_editing = Some(next);
    }

    fn pair_arrow(&self, idx: usize, input: KeyInput, len: usize) -> (r: CurrentlyEditing)
        ensures
            r == select_pair_arrow(idx, input, len as nat),
    {
        match input {
            KeyInput::Down => {
                if idx >= len {
                    CurrentlyEditing::Name
                } else {
                    CurrentlyEditing::Key(idx + 1)
                }
            },
            KeyInput::Up => {
                if idx == 0 {
                    CurrentlyEditing::Name
                } else {
                    CurrentlyEditing::Key(idx - 1)
                }
            },
            KeyInput::Left => CurrentlyEditing::Key(idx),
            KeyInput::Right => CurrentlyEditing::Value(idx),
            _ => CurrentlyEditing::Key(idx),
        }
    }
}

fn clone_pairs(v: &Vec<Pair>) -> (r: Vec<Pair>)
    ensures
        pairs_view(r@) == pairs_view(v@),
{
    let mut r: Vec<Pair> = Vec::new();
    let mut i: usize = 0;
    while i < v.len()
        invariant
            i <= v@.len(),
            r@.len() == i,
            forall|j: int| 0 <= j < i ==> r@[j]@ == v@[j]@,
        decreases v@.len() - i,
    {
        r.push(v[i].clone());
        i = i + 1;
    }
    assert(pairs_view(r@) =~= pairs_view(v@));
    r
}


/// What the interactive loop must do after one key press: leave, persist the
/// store, write the new master-password record, put text on the clipboard,
/// or fetch the clipboard and hand it back through `paste_text`.
pub struct KeyAction {
    pub quit: bool,
    pub persist: bool,
    pub save_record: Option<String>,
    pub copy_text: Option<String>,
    pub request_paste: bool,
}

fn no_action() -> (r: KeyAction)
    ensures
        !r.quit && !r.persist && r.save_record is None && r.copy_text is None && !r.request_paste,
{
    KeyAction { quit: false, persist: false, save_record: None, copy_text: None, request_paste: false }
}

fn pop_char_str(s: &mut String)
    ensures
        old(s)@.len() == 0 ==> final(s)@ == old(s)@,
        old(s)@.len() > 0 ==> final(s)@ == old(s)@.drop_last(),
{
    let cs = chars_of(s.as_str());
    if cs.len() == 0 {
        return ;
    }
    let mut out = String::new();
    let mut i: usize = 0;
    while i < cs.len() - 1
        invariant
            cs@.len() > 0,
            i <= cs@.len() - 1,
            out@ == cs@.subrange(0, i as int),
        decreases cs@.len() - 1 - i,
    {
        crate::text::push_char(&mut out, cs[i]);
        i = i + 1;
        assert(out@ =~= cs@.subrange(0, i as int));
    }
    proof {
        assert(cs@.subrange(0, cs@.len() - 1) =~= cs@.drop_last());
    }
    *s = out;
}

fn append_str(s: &mut String, other: &str)
    ensures
        final(s)@ == old(s)@ + other@,
{
    let cs = chars_of(other);
    let mut i: usize = 0;
    while i < cs.len()
        invariant
            i <= cs@.len(),
            cs@ == other@,
            s@ == old(s)@ + cs@.subrange(0, i as int),
        decreases cs@.len() - i,
    {
        crate::text::push_char(s, cs[i]);
        i = i + 1;
        assert(s@ =~= old(s)@ + cs@.subrange(0, i as int));
    }
    assert(s@ =~= old(s)@ + other@);
}

impl App {
    /// One key press against the current screen: the whole interactive
    /// state machine. The lock only ever opens here through the login or
    /// first-time-setup paths, and the master-password record only changes
    /// on first-time setup.
    pub fn handle_key(&mut self, key: KeyInput, ctrl: bool, store_text: &str) -> (r: KeyAction)
        ensures
            final(self)@.unlocked != old(self)@.unlocked ==> ((old(self)@.screen
                == CurrentScreen::Login || old(self)@.screen == CurrentScreen::Init) && key
                == KeyInput::Enter),
            final(self)@.master_record != old(self)@.master_record ==> (old(self)@.screen
                == CurrentScreen::Init && key == KeyInput::Enter),
            // the returned action is a function of the old state and the key
            r.quit == (((old(self)@.screen == CurrentScreen::Init || old(self)@.screen
                == CurrentScreen::Login) && key == KeyInput::Esc) || (old(self)@.screen
                == CurrentScreen::Main && (key == KeyInput::Char('q') || (key == KeyInput::Esc
                && old(self)@.selected is None)))),
            r.persist == ((old(self)@.screen == CurrentScreen::Main && (key == KeyInput::Char('x')
                || key == KeyInput::Delete)) || ((old(self)@.screen == CurrentScreen::New || old(self)@.screen == CurrentScreen::Editing) && (key == KeyInput::Esc || key
                == KeyInput::Delete))),
            r.request_paste == (ctrl && key == KeyInput::Char('v') && (old(self)@.screen
                == CurrentScreen::Searching || old(self)@.screen == CurrentScreen::New || old(self)@.screen == CurrentScreen::Editing)),
            r.save_record is Some ==> (old(self)@.screen == CurrentScreen::Init && key
                == KeyInput::Enter),
            r.copy_text is Some ==> (ctrl && key == KeyInput::Char('c') && (old(self)@.screen
                == CurrentScreen::New || old(self)@.screen == CurrentScreen::Editing)),
            // the password prompts edit their input buffer
            (match key {
                KeyInput::Char(c) => (old(self)@.screen == CurrentScreen::Init || old(self)@.screen
                    == CurrentScreen::Login) ==> final(self)@ == (AppView {
                    scratch: old(self)@.scratch + seq![c],
                    ..old(self)@
                }),
                _ => true,
            }),
            ((old(self)@.screen == CurrentScreen::Init || old(self)@.screen
                == CurrentScreen::Login) && key == KeyInput::Backspace) ==> final(self)@ == (
            AppView {
                scratch: (if old(self)@.scratch.len() > 0 {
                    old(self)@.scratch.drop_last()
                } else {
                    old(self)@.scratch
                }),
                ..old(self)@
            }),
            ((old(self)@.screen == CurrentScreen::Init || old(self)@.screen
                == CurrentScreen::Login) && key == KeyInput::Esc) ==> final(self)@ == old(self)@,
            // first-time setup: a fresh record unlocks and moves to the main screen
            (old(self)@.screen == CurrentScreen::Init && key == KeyInput::Enter) ==> (
            match r.save_record {
                Option::Some(rec) => record_parses(rec@) && verifies_of(
                    encode_utf8(old(self)@.scratch),
                    rec@,
                ) && final(self)@.unlocked && final(self)@.screen == CurrentScreen::Main && final(self)@.master_record == Some(rec@) && final(self)@.scratch == Seq::<char>::empty()
                    && final(self)@.secrets == old(self)@.secrets,
                Option::None => final(self)@ == old(self)@,
            }),
            // login: unlocking requires the typed password to verify, and loads
            // the persisted store; a failed attempt clears the prompt and stays
            (old(self)@.screen == CurrentScreen::Login && key == KeyInput::Enter && !old(self)@.unlocked) ==> {
                &&& final(self)@.scratch == Seq::<char>::empty()
                &&& (final(self)@.unlocked ==> (old(self)@.master_record matches Some(rec)
                    && verifies_of(encode_utf8(old(self)@.scratch), rec) && final(self)@.screen
                    == CurrentScreen::Main && (parse_store_text(store_text@) matches Some(es)
                    && store_matches_secrets(es, final(self)@.key, final(self)@.secrets))))
                &&& (!final(self)@.unlocked ==> final(self)@.screen == CurrentScreen::Login)
            },
    {
        let mut action = no_action();
        match self.current_screen {
            CurrentScreen::Init => {
                match key {
                    KeyInput::Enter => {
                        let pw = self.scratch.clone();
                        let rec = self.set_master_password(pw.as_str());
                        match rec {
                            Option::Some(r) => {
                                action.save_record = Some(r);
                                self.clear_input_fields();
                                self.current_screen = CurrentScreen::Main;
                            },
                            Option::None => {},
                        }
                    },
                    KeyInput::Esc => {
                        action.quit = true;
                    },
                    KeyInput::Backspace => {
                        pop_char_str(&mut self.scratch);
                    },
                    KeyInput::Char(c) => {
                        crate::text::push_char(&mut self.scratch, c);
                    },
                    _ => {},
                }
            },
            CurrentScreen::Login => {
                match key {
                    KeyInput::Enter => {
                        let pw = self.scratch.clone();
                        let attempt = self.authenticate(pw.as_str(), store_text);
                        match attempt {
                            Result::Ok(true) => {
                                self.current_screen = CurrentScreen::Main;
                            },
                            _ => {},
                        }
                        self.clear_input_fields();
                    },
                    KeyInput::Esc => {
                        action.quit = true;
                    },
                    KeyInput::Backspace => {
                        pop_char_str(&mut self.scratch);
                    },
                    KeyInput::Char(c) => {
                        crate::text::push_char(&mut self.scratch, c);
                    },
                    _ => {},
                }
            },
            CurrentScreen::Main => {
                match key {
                    KeyInput::Char(c) => {
                        if c == 'q' {
                            action.quit = true;
                        } else if c == 'n' {
                            self.current_screen = CurrentScreen::New;
                            self.currently_editing = Some(CurrentlyEditing::Name);
                        } else if c == 'x' {
                            self.delete_secret();
                            self.clear_input_fields();
                            action.persist = true;
                        } else if c == '/' {
                            self.clear_input_fields();
                            self.current_screen = CurrentScreen::Searching;
                        }
                    },
                    KeyInput::Esc => {
                        match self.currently_selected_secret_idx {
                            Option::Some(_) => {
                                self.currently_selected_secret_idx = None;
                            },
                            Option::None => {
                                action.quit = true;
                            },
                        }
                    },
                    KeyInput::Delete => {
                        self.delete_secret();
                        self.clear_input_fields();
                        action.persist = true;
                    },
                    KeyInput::Enter => {
                        self.load_secret();
                        self.current_screen = CurrentScreen::Editing;
                        self.currently_editing = Some(CurrentlyEditing::Name);
                    },
                    KeyInput::Left | KeyInput::Right | KeyInput::Up | KeyInput::Down => {
                        self.select_new_secret(key);
                    },
                    _ => {},
                }
            },
            CurrentScreen::Searching => {
                match key {
                    KeyInput::Esc => {
                        self.current_screen = CurrentScreen::Main;
                    },
                    KeyInput::Backspace => {
                        pop_char_str(&mut self.scratch);
                    },
                    KeyInput::Char(c) => {
                        if ctrl && c == 'v' {
                            action.request_paste = true;
                        } else {
                            crate::text::push_char(&mut self.scratch, c);
                            self.search_secrets();
                        }
                    },
                    KeyInput::Enter => {
                        self.load_secret();
                        self.current_screen = CurrentScreen::Editing;
                        self.currently_editing = Some(CurrentlyEditing::Name);
                    },
                    KeyInput::Tab => {
                        self.increment_search_buffer();
                    },
                    _ => {},
                }
            },
            CurrentScreen::New => {
                action = self.handle_edit_key(key, ctrl, false);
            },
            CurrentScreen::Editing => {
                action = self.handle_edit_key(key, ctrl, true);
            },
        }
        action
    }

    /// The editing screens' shared key handling. `rewrite` tells whether
    /// leaving the screen rewrites the selected secret (the editing screen)
    /// or saves a new one (the creation screen).
    fn handle_edit_key(&mut self, key: KeyInput, ctrl: bool, rewrite: bool) -> (r: KeyAction)
        ensures
            final(self)@.unlocked == old(self)@.unlocked,
            final(self)@.master_record == old(self)@.master_record,
            r.quit == false && r.save_record is None,
            r.persist == (key == KeyInput::Esc || key == KeyInput::Delete),
            r.request_paste == (ctrl && key == KeyInput::Char('v')),
            r.copy_text is Some ==> (ctrl && key == KeyInput::Char('c')),
            // on the creation screen typing lands in the active input buffer
            (match key {
                KeyInput::Char(c) => (!rewrite && !ctrl) ==> (match old(self)@.editing {
                    Option::Some(CurrentlyEditing::Name) => final(self)@ == (AppView {
                        name_input: old(self)@.name_input + seq![c],
                        ..old(self)@
                    }),
                    Option::Some(CurrentlyEditing::Key(i)) => final(self)@ == (AppView {
                        key_input: old(self)@.key_input + seq![c],
                        ..old(self)@
                    }),
                    Option::Some(CurrentlyEditing::Value(i)) => final(self)@ == (AppView {
                        value_input: old(self)@.value_input + seq![c],
                        ..old(self)@
                    }),
                    Option::None => final(self)@ == old(self)@,
                }),
                _ => true,
            }),
    {
        let mut action = no_action();
        match key {
            KeyInput::Esc => {
                self.current_screen = CurrentScreen::Main;
                if rewrite {
                    self.update_secret();
                } else {
                    self.save_secret();
                }
                self.clear_input_fields();
                action.persist = true;
            },
            KeyInput::Tab => {
                self.increment_currently_editing();
            },
            KeyInput::Delete => {
                self.delete_pair();
                action.persist = true;
            },
            KeyInput::Enter => {
                self.add_pair();
                self.clear_key_value_fields();
                if rewrite {
                    self.increment_currently_editing();
                }
            },
            KeyInput::BackTab => {
                self.decrement_currently_editing();
            },
            KeyInput::Left | KeyInput::Right | KeyInput::Up | KeyInput::Down => {
                self.select_new_pair(key);
            },
            KeyInput::Backspace => {
                match self.currently_editing {
                    Option::Some(CurrentlyEditing::Name) => {
                        pop_char_str(&mut self.name_input);
                    },
                    Option::Some(CurrentlyEditing::Key(idx)) => {
                        if !rewrite || idx >= self.secret_scratch_content.len() {
                            pop_char_str(&mut self.key_input);
                        } else {
                            let mut pair = self.secret_scratch_content.remove(idx);
                            pop_char_str(&mut pair.key);
                            self.secret_scratch_content.insert(idx, pair);
                        }
                    },
                    Option::Some(CurrentlyEditing::Value(idx)) => {
                        if !rewrite || idx >= self.secret_scratch_content.len() {
                            pop_char_str(&mut self.value_input);
                        } else {
                            let mut pair = self.secret_scratch_content.remove(idx);
                            pop_char_str(&mut pair.value);
                            self.secret_scratch_content.insert(idx, pair);
                        }
                    },
                    Option::None => {},
                }
            },
            KeyInput::Char(c) => {
                if ctrl && c == 'c' {
                    action.copy_text = self.copy_text();
                } else if ctrl && c == 'v' {
                    action.request_paste = true;
                } else {
                    match self.currently_editing {
                        Option::Some(CurrentlyEditing::Name) => {
                            crate::text::push_char(&mut self.name_input, c);
                        },
                        Option::Some(CurrentlyEditing::Key(idx)) => {
                            // the creation screen types into the inputs only;
                            // the editing screen edits stored pairs in place
                            if !rewrite || idx >= self.secret_scratch_content.len() {
                                crate::text::push_char(&mut self.key_input, c);
                            } else {
                                let mut pair = self.secret_scratch_content.remove(idx);
                                crate::text::push_char(&mut pair.key, c);
                                self.secret_scratch_content.insert(idx, pair);
                            }
                        },
                        Option::Some(CurrentlyEditing::Value(idx)) => {
                            if !rewrite || idx >= self.secret_scratch_content.len() {
                                crate::text::push_char(&mut self.value_input, c);
                            } else {
                                let mut pair = self.secret_scratch_content.remove(idx);
                                crate::text::push_char(&mut pair.value, c);
                                self.secret_scratch_content.insert(idx, pair);
                            }
                        },
                        Option::None => {},
                    }
                }
            },
            _ => {},
        }
        action
    }

    /// The text under the editing cursor, for the clipboard.
    fn copy_text(&self) -> (r: Option<String>)
    {
        match self.currently_editing {
            Option::Some(CurrentlyEditing::Name) => Some(self.name_input.clone()),
            Option::Some(CurrentlyEditing::Key(idx)) => {
                if idx >= self.secret_scratch_content.len() {
                    Some(self.key_input.clone())
                } else {
                    Some(self.secret_scratch_content[idx].key.clone())
                }
            },
            Option::Some(CurrentlyEditing::Value(idx)) => {
                if idx >= self.secret_scratch_content.len() {
                    Some(self.value_input.clone())
                } else {
                    Some(self.secret_scratch_content[idx].value.clone())
                }
            },
            Option::None => None,
        }
    }

    /// Applies clipboard text after a paste request: into the search input
    /// on the search screen, else into the field under the editing cursor.
    pub fn paste_text(&mut self, text: &str)
        ensures
            final(self)@.unlocked == old(self)@.unlocked,
            final(self)@.master_record == old(self)@.master_record,
            final(self)@.secrets == old(self)@.secrets,
    {
        match self.current_screen {
            CurrentScreen::Searching => {
                append_str(&mut self.scratch, text);
            },
            CurrentScreen::New | CurrentScreen::Editing => {
                match self.currently_editing {
                    Option::Some(CurrentlyEditing::Name) => {
                        append_str(&mut self.name_input, text);
                    },
                    Option::Some(CurrentlyEditing::Key(idx)) => {
                        if idx >= self.secret_scratch_content.len() {
                            append_str(&mut self.key_input, text);
                        } else {
                            let mut pair = self.secret_scratch_content.remove(idx);
                            append_str(&mut pair.key, text);
                            self.secret_scratch_content.insert(idx, pair);
                        }
                    },
                    Option::Some(CurrentlyEditing::Value(idx)) => {
                        if idx >= self.secret_scratch_content.len() {
                            append_str(&mut self.value_input, text);
                        } else {
                            let mut pair = self.secret_scratch_content.remove(idx);
                            append_str(&mut pair.value, text);
                            self.secret_scratch_content.insert(idx, pair);
                        }
                    },
                    Option::None => {},
                }
            },
            _ => {},
        }
    }
}

} // verus!
