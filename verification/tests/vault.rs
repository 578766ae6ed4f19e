use grimoire::app::{App, CurrentScreen, VaultError};
use grimoire::crypto::CryptoError;
use grimoire::secret::{Pair, Secret, EncryptedSecret};
use grimoire::storefile::{emit_store_x, parse_store_x};
use base64::Engine;

fn key_a() -> [u8; 32] {
    let mut k = [0u8; 32];
    let mut i = 0usize;
    while i < 32 {
        k[i] = (i as u8) * 7 + 3;
        i += 1;
    }
    k
}

fn sample_secret() -> Secret {
    Secret::new(
        "github",
        vec![
            Pair { key: "user".to_string(), value: "alice".to_string() },
            Pair { key: "password".to_string(), value: "p1".to_string() },
        ],
    )
}

#[test]
fn encrypt_decrypt_roundtrip() {
    let s = sample_secret();
    let es = s.encrypt(key_a()).expect("encrypt");
    let back = es.decrypt(key_a()).expect("decrypt");
    assert_eq!(back.get_name(), "github");
    let contents = back.get_contents();
    assert_eq!(contents.len(), 2);
    assert_eq!(contents[0].key, "user");
    assert_eq!(contents[0].value, "alice");
    assert_eq!(contents[1].key, "password");
    assert_eq!(contents[1].value, "p1");
}

#[test]
fn decrypt_with_wrong_key_fails() {
    let s = sample_secret();
    let es = s.encrypt(key_a()).expect("encrypt");
    let mut wrong = key_a();
    wrong[0] ^= 1;
    assert_eq!(es.decrypt(wrong).unwrap_err(), CryptoError::Authentication);
}

#[test]
fn tampered_nonce_fails_authentication() {
    let s = sample_secret();
    let es = s.encrypt(key_a()).expect("encrypt");
    for bit in 0..8 {
        let mut nonce = es.nonce;
        nonce[5] ^= 1u8 << bit;
        let t = EncryptedSecret { nonce, ciphertext: es.ciphertext.clone() };
        assert_eq!(t.decrypt(key_a()).unwrap_err(), CryptoError::Authentication);
    }
}

#[test]
fn tampered_ciphertext_fails() {
    let s = sample_secret();
    let es = s.encrypt(key_a()).expect("encrypt");
    let raw = base64::engine::general_purpose::STANDARD
        .decode(&es.ciphertext)
        .expect("own ciphertext is canonical base64");
    for pos in [0usize, raw.len() / 2, raw.len() - 1] {
        for bit in 0..8 {
            let mut flipped = raw.clone();
            flipped[pos] ^= 1u8 << bit;
            let ct = base64::engine::general_purpose::STANDARD.encode(&flipped);
            let t = EncryptedSecret { nonce: es.nonce, ciphertext: ct };
            assert_eq!(t.decrypt(key_a()).unwrap_err(), CryptoError::Authentication);
        }
    }
}

#[test]
fn key_derivation_is_deterministic() {
    let mut app = App::new(None);
    let record = app.set_master_password("correct-horse").expect("setup");
    let k1 = grimoire::auth::derive_key("correct-horse", &record).expect("derive");
    let k2 = grimoire::auth::derive_key("correct-horse", &record).expect("derive");
    assert_eq!(k1, k2);
    let k3 = grimoire::auth::derive_key("wrong", &record).expect("derive");
    assert_ne!(k1, k3);
}

#[test]
fn authenticate_accepts_only_the_right_password() {
    let mut app = App::new(None);
    let record = app.set_master_password("correct-horse").expect("setup");
    assert!(app.is_unlocked());
    let store = app.save_all().expect("empty store");

    let mut fresh = App::new(Some(record.clone()));
    assert!(!fresh.is_unlocked());
    assert_eq!(fresh.authenticate("wrong", &store), Ok(false));
    assert!(!fresh.is_unlocked());
    assert_eq!(fresh.authenticate("correct-horse", &store), Ok(true));
    assert!(fresh.is_unlocked());
}

#[test]
fn corrupt_record_is_fatal_not_false() {
    let mut app = App::new(Some("not a phc string".to_string()));
    assert_eq!(app.authenticate("anything", "[]"), Err(VaultError::CorruptRecord));
    let mut none = App::new(None);
    assert_eq!(none.authenticate("anything", "[]"), Err(VaultError::CorruptRecord));
}

#[test]
fn fresh_vault_screens() {
    let a = App::new(None);
    assert_eq!(a.current_screen, CurrentScreen::Init);
    let b = App::new(Some(String::new()));
    assert_eq!(b.current_screen, CurrentScreen::Init);
    let c = App::new(Some("$argon2id$...".to_string()));
    assert_eq!(c.current_screen, CurrentScreen::Login);
}

#[test]
fn lookup_matches_normalized_domain() {
    let mut app = App::new(None);
    app.set_master_password("pw").expect("setup");
    app.secrets.push(sample_secret());
    let got = app.get_credentials_for_domain("https://www.github.com/login");
    assert_eq!(got, Some(("alice".to_string(), "p1".to_string())));
}

#[test]
fn lookup_needs_both_fields_and_first_match_wins() {
    let mut app = App::new(None);
    app.set_master_password("pw").expect("setup");
    // name matches but has no password-like field: skipped
    app.secrets.push(Secret::new(
        "github notes",
        vec![Pair { key: "user".to_string(), value: "nobody".to_string() }],
    ));
    app.secrets.push(Secret::new(
        "github",
        vec![
            Pair { key: "Email".to_string(), value: "a@b".to_string() },
            Pair { key: "PASS".to_string(), value: "p2".to_string() },
        ],
    ));
    app.secrets.push(sample_secret());
    // last-occurrence-wins inside a secret, first matching secret overall
    let got = app.get_credentials_for_domain("github.com");
    assert_eq!(got, Some(("a@b".to_string(), "p2".to_string())));
    assert_eq!(app.get_credentials_for_domain("nosuchsite.example"), None);
}

#[test]
fn upsert_is_idempotent() {
    let mut app = App::new(None);
    app.set_master_password("pw").expect("setup");
    assert!(app.upsert_credentials_for_domain("github.com", "alice", "p1"));
    assert_eq!(app.secrets.len(), 1);
    // the second call finds the secret it created and appends nothing
    assert!(!app.upsert_credentials_for_domain("github.com", "alice", "p1"));
    assert_eq!(app.secrets.len(), 1);
    assert_eq!(app.secrets[0].get_name(), "github.com");
    let got = app.get_credentials_for_domain("github.com");
    assert_eq!(got, Some(("alice".to_string(), "p1".to_string())));
}

#[test]
fn upsert_leaves_differing_values_unmodified() {
    let mut app = App::new(None);
    app.set_master_password("pw").expect("setup");
    app.upsert_credentials_for_domain("github.com", "alice", "p1");
    // a matching secret with other values is deliberately left alone
    assert!(!app.upsert_credentials_for_domain("github.com", "bob", "p9"));
    assert_eq!(app.secrets.len(), 1);
    let got = app.get_credentials_for_domain("github.com");
    assert_eq!(got, Some(("alice".to_string(), "p1".to_string())));
}

#[test]
fn upserts_for_distinct_domains_do_not_interfere() {
    let mut app = App::new(None);
    app.set_master_password("pw").expect("setup");
    let domains = ["alpha.example", "beta.example", "gamma.example", "delta.example"];
    for (i, d) in domains.iter().enumerate() {
        let user = format!("user{}", i);
        let pass = format!("pass{}", i);
        assert!(app.upsert_credentials_for_domain(d, &user, &pass));
    }
    assert_eq!(app.secrets.len(), domains.len());
    // every earlier upsert is still resolvable: no lost updates
    for (i, d) in domains.iter().enumerate() {
        let got = app.get_credentials_for_domain(d);
        assert_eq!(got, Some((format!("user{}", i), format!("pass{}", i))));
    }
    // and the persisted store holds one record per domain
    let text = app.save_all().expect("save");
    let encs = parse_store_x(&text).expect("parse back");
    assert_eq!(encs.len(), domains.len());
}

#[test]
fn store_file_roundtrip() {
    let mut app = App::new(None);
    app.set_master_password("pw").expect("setup");
    app.secrets.push(sample_secret());
    app.secrets.push(Secret::new(
        "mail",
        vec![
            Pair { key: "username".to_string(), value: "bob".to_string() },
            Pair { key: "pass".to_string(), value: "hunter2".to_string() },
        ],
    ));
    let text = app.save_all().expect("save");
    // the persisted text is real JSON of the documented shape
    let v: serde_json::Value = serde_json::from_str(&text).expect("valid JSON");
    let arr = v.as_array().expect("array");
    assert_eq!(arr.len(), 2);
    assert!(arr[0].get("nonce").unwrap().as_array().unwrap().len() == 12);
    assert!(arr[0].get("ciphertext").unwrap().is_string());
    // and the strict parser reads back exactly what was written
    let encs = parse_store_x(&text).expect("parse");
    assert_eq!(encs.len(), 2);
    let round = emit_store_x(&encs);
    assert_eq!(round, text);
}

#[test]
fn empty_store_roundtrip() {
    let v: Vec<EncryptedSecret> = Vec::new();
    let text = emit_store_x(&v);
    assert_eq!(text, "[]");
    assert_eq!(parse_store_x(&text).expect("parse").len(), 0);
    assert!(parse_store_x("[").is_none());
    assert!(parse_store_x("{}").is_none());
    assert!(parse_store_x("[{}]").is_none());
}

#[test]
fn end_to_end_setup_unlock_upsert_restart() {
    // first run: no record yet
    let mut app = App::new(None);
    let record = app.set_master_password("correct-horse").expect("setup");
    assert!(app.is_unlocked());
    assert!(app.upsert_credentials_for_domain("example.com", "bob", "hunter2"));
    let got = app.get_credentials_for_domain("http://www.example.com/path");
    assert_eq!(got, Some(("bob".to_string(), "hunter2".to_string())));
    let store = app.save_all().expect("persist");

    // restart: record exists, vault locked until the password verifies
    let mut app2 = App::new(Some(record));
    assert_eq!(app2.current_screen, CurrentScreen::Login);
    assert_eq!(app2.authenticate("wrong", &store), Ok(false));
    assert_eq!(app2.authenticate("correct-horse", &store), Ok(true));
    let got2 = app2.get_credentials_for_domain("http://www.example.com/path");
    assert_eq!(got2, Some(("bob".to_string(), "hunter2".to_string())));
}

#[test]
fn load_fails_closed_on_corrupt_store() {
    let mut app = App::new(None);
    let record = app.set_master_password("pw").expect("setup");
    app.upsert_credentials_for_domain("example.com", "bob", "hunter2");
    let store = app.save_all().expect("persist");

    let mut app2 = App::new(Some(record.clone()));
    assert!(matches!(app2.authenticate("pw", "not json"), Err(VaultError::StoreSyntax)));
    assert!(!app2.is_unlocked());

    // corrupt one base64 character of the stored ciphertext
    let mut encs = parse_store_x(&store).expect("parse");
    let mut ct = encs[0].ciphertext.clone();
    let replacement = if ct.starts_with('A') { "B" } else { "A" };
    ct.replace_range(0..1, replacement);
    encs[0].ciphertext = ct;
    let bad = emit_store_x(&encs);
    let mut app3 = App::new(Some(record));
    assert!(matches!(app3.authenticate("pw", &bad), Err(VaultError::Integrity(_))));
    assert!(!app3.is_unlocked());
}
