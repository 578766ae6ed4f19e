//! Domain-based credential lookup and create-or-update over the in-memory
//! secret collection.
//!
//! A secret matches a domain when its lower-cased name contains the
//! normalized domain as a substring and its contents carry both a
//! username-like and a password-like field (case-insensitive key match, last
//! occurrence wins). The first matching secret in stored order is used.

use vstd::prelude::*;
use crate::secret::{Secret, Pair, SecretView, PairView, pairs_view};
use crate::text::{
    lower, contains_seq, chars_of, string_of, lower_chars, contains_x, eq_chars,
};
use crate::domain::{normalize_spec, normalize_domain, lemma_normalize_in_lower};

verus! {

pub open spec fn username_key() -> Seq<char> {
    seq!['u', 's', 'e', 'r', 'n', 'a', 'm', 'e']
}

pub open spec fn user_key() -> Seq<char> {
    seq!['u', 's', 'e', 'r']
}

pub open spec fn email_key() -> Seq<char> {
    seq!['e', 'm', 'a', 'i', 'l']
}

pub open spec fn password_key() -> Seq<char> {
    seq!['p', 'a', 's', 's', 'w', 'o', 'r', 'd']
}

pub open spec fn pass_key() -> Seq<char> {
    seq!['p', 'a', 's', 's']
}

pub open spec fn is_user_key(k: Seq<char>) -> bool {
    lower(k) == username_key() || lower(k) == user_key() || lower(k) == email_key()
}

pub open spec fn is_pass_key(k: Seq<char>) -> bool {
    lower(k) == password_key() || lower(k) == pass_key()
}

/// The username value of a pair list: the last pair whose key lower-cases to
/// `username`, `user` or `email`.
pub open spec fn last_user(cs: Seq<PairView>) -> Option<Seq<char>>
    decreases cs.len(),
{
    if cs.len() == 0 {
        None
    } else if is_user_key(cs.last().key) {
        Some(cs.last().value)
    } else {
        last_user(cs.drop_last())
    }
}

/// The password value: the last pair whose key lower-cases to `password` or
/// `pass`.
pub open spec fn last_pass(cs: Seq<PairView>) -> Option<Seq<char>>
    decreases cs.len(),
{
    if cs.len() == 0 {
        None
    } else if is_pass_key(cs.last().key) {
        Some(cs.last().value)
    } else {
        last_pass(cs.drop_last())
    }
}

/// The credentials a pair list yields, when both parts are present.
pub open spec fn cred_of(cs: Seq<PairView>) -> Option<(Seq<char>, Seq<char>)> {
    match (last_user(cs), last_pass(cs)) {
        (Option::Some(u), Option::Some(p)) => Some((u, p)),
        _ => None,
    }
}

/// Whether a secret is used for a normalized domain `nd`.
pub open spec fn secret_matches(s: SecretView, nd: Seq<char>) -> bool {
    contains_seq(lower(s.name), nd) && cred_of(s.contents) is Some
}

/// First-match-wins credential lookup over the stored order.
pub open spec fn find_spec(ss: Seq<SecretView>, nd: Seq<char>) -> Option<(Seq<char>, Seq<char>)>
    decreases ss.len(),
{
    if ss.len() == 0 {
        None
    } else if secret_matches(ss[0], nd) {
        cred_of(ss[0].contents)
    } else {
        find_spec(ss.drop_first(), nd)
    }
}

/// The view of a secret freshly created for a domain: named after the raw
/// (non-normalized) domain, with a `username` and a `password` pair.
pub open spec fn new_secret_view(d: Seq<char>, u: Seq<char>, p: Seq<char>, ts: i64) -> SecretView {
    SecretView {
        name: d,
        contents: seq![
            PairView { key: username_key(), value: u },
            PairView { key: password_key(), value: p },
        ],
        last_modified: ts,
    }
}

/// Create-or-update: when some secret already matches the normalized domain
/// the store is left unchanged (identical values are a no-op; differing
/// values are deliberately left unmodified); otherwise a new secret named
/// after the raw domain is appended.
pub open spec fn upsert_spec(
    ss: Seq<SecretView>,
    d: Seq<char>,
    u: Seq<char>,
    p: Seq<char>,
    ts: i64,
) -> Seq<SecretView> {
    if find_spec(ss, normalize_spec(d)) is Some {
        ss
    } else {
        ss.push(new_secret_view(d, u, p, ts))
    }
}

pub open spec fn secrets_views(ss: Seq<Secret>) -> Seq<SecretView> {
    ss.map_values(|s: Secret| s@)
}

/// The creation timestamp an upsert used, read off the store it produced:
/// the appended secret is the last one.
pub open spec fn upsert_ts(was: Seq<SecretView>, now: Seq<SecretView>) -> i64 {
    if now.len() > 0 {
        now.last().last_modified
    } else {
        0
    }
}

/// Appending a secret never changes an existing first match, and is the only
/// way a miss can turn into a hit.
pub proof fn lemma_find_push(ss: Seq<SecretView>, nd: Seq<char>, x: SecretView)
    ensures
        find_spec(ss.push(x), nd) == (if find_spec(ss, nd) is Some {
            find_spec(ss, nd)
        } else if secret_matches(x, nd) {
            cred_of(x.contents)
        } else {
            None::<(Seq<char>, Seq<char>)>
        }),
    decreases ss.len(),
{
    if ss.len() == 0 {
        assert(find_spec(ss, nd) is None);
        assert(ss.push(x)[0] == x);
        assert(ss.push(x).drop_first() =~= Seq::<SecretView>::empty());
        assert(find_spec(Seq::<SecretView>::empty(), nd) is None);
    } else {
        assert(ss.push(x)[0] == ss[0]);
        assert(ss.push(x).drop_first() =~= ss.drop_first().push(x));
        lemma_find_push(ss.drop_first(), nd, x);
    }
}

proof fn lemma_lower_fixed_keys()
    ensures
        lower(username_key()) == username_key(),
        lower(password_key()) == password_key(),
{
    assert(lower(username_key()) =~= username_key());
    assert(lower(password_key()) =~= password_key());
}

/// A freshly created secret for domain `d` matches `d` itself and yields
/// exactly the credentials it was created with.
pub proof fn lemma_new_secret_matches(d: Seq<char>, u: Seq<char>, p: Seq<char>, ts: i64)
    ensures
        secret_matches(new_secret_view(d, u, p, ts), normalize_spec(d)),
        cred_of(new_secret_view(d, u, p, ts).contents) == Some((u, p)),
{
    let ns = new_secret_view(d, u, p, ts);
    // the normalized domain is a contiguous piece of the lower-cased name
    lemma_normalize_in_lower(d);
    let (a, b) = choose|a: int, b: int|
        0 <= a <= b <= d.len() && normalize_spec(d) == #[trigger] lower(d).subrange(a, b);
    assert(contains_seq(lower(ns.name), normalize_spec(d))) by {
        assert(lower(d).subrange(a, a + normalize_spec(d).len()) == normalize_spec(d));
    }
    // last-occurrence scan: the password pair is the last, the username pair
    // the one before it
    lemma_lower_fixed_keys();
    let cs = ns.contents;
    assert(cs.last() == PairView { key: password_key(), value: p });
    assert(is_pass_key(password_key()));
    assert(!is_user_key(password_key())) by {
        assert(lower(password_key()) != username_key());
        assert(lower(password_key()) != user_key());
        assert(lower(password_key()) != email_key());
    }
    assert(cs.drop_last() =~= seq![PairView { key: username_key(), value: u }]);
    assert(is_user_key(username_key()));
    assert(last_user(seq![PairView { key: username_key(), value: u }]) == Some(u));
    assert(last_user(cs) == Some(u));
    assert(last_pass(cs) == Some(p));
}

/// Create-or-update is idempotent: repeating an upsert with the same domain
/// and values leaves the store exactly as after the first call, and the
/// first call guarantees that a matching secret exists.
pub proof fn lemma_upsert_idempotent(
    ss: Seq<SecretView>,
    d: Seq<char>,
    u: Seq<char>,
    p: Seq<char>,
    ts1: i64,
    ts2: i64,
)
    ensures
        find_spec(upsert_spec(ss, d, u, p, ts1), normalize_spec(d)) is Some,
        upsert_spec(upsert_spec(ss, d, u, p, ts1), d, u, p, ts2) == upsert_spec(ss, d, u, p, ts1),
        find_spec(ss, normalize_spec(d)) is None ==> find_spec(
            upsert_spec(ss, d, u, p, ts1),
            normalize_spec(d),
        ) == Some((u, p)),
{
    let nd = normalize_spec(d);
    if find_spec(ss, nd) is Some {
    } else {
        let ns = new_secret_view(d, u, p, ts1);
        lemma_new_secret_matches(d, u, p, ts1);
        lemma_find_push(ss, nd, ns);
    }
}

/// An upsert for one domain never disturbs the credentials another domain
/// already resolves to: no lost updates under any interleaving of upserts.
pub proof fn lemma_upsert_preserves_other(
    ss: Seq<SecretView>,
    d2: Seq<char>,
    u2: Seq<char>,
    p2: Seq<char>,
    ts: i64,
    d1: Seq<char>,
)
    requires
        find_spec(ss, normalize_spec(d1)) is Some,
    ensures
        find_spec(upsert_spec(ss, d2, u2, p2, ts), normalize_spec(d1)) == find_spec(
            ss,
            normalize_spec(d1),
        ),
{
    if find_spec(ss, normalize_spec(d2)) is Some {
    } else {
        lemma_find_push(ss, normalize_spec(d1), new_secret_view(d2, u2, p2, ts));
    }
}

fn username_vec() -> (r: Vec<char>)
    ensures
        r@ == username_key(),
{
    let r = vec!['u', 's', 'e', 'r', 'n', 'a', 'm', 'e'];
    assert(r@ =~= username_key());
    r
}

fn user_vec() -> (r: Vec<char>)
    ensures
        r@ == user_key(),
{
    let r = vec!['u', 's', 'e', 'r'];
    assert(r@ =~= user_key());
    r
}

fn email_vec() -> (r: Vec<char>)
    ensures
        r@ == email_key(),
{
    let r = vec!['e', 'm', 'a', 'i', 'l'];
    assert(r@ =~= email_key());
    r
}

fn password_vec() -> (r: Vec<char>)
    ensures
        r@ == password_key(),
{
    let r = vec!['p', 'a', 's', 's', 'w', 'o', 'r', 'd'];
    assert(r@ =~= password_key());
    r
}

fn pass_vec() -> (r: Vec<char>)
    ensures
        r@ == pass_key(),
{
    let r = vec!['p', 'a', 's', 's'];
    assert(r@ =~= pass_key());
    r
}

/// The credentials of one pair list, as `cred_of` describes.
fn cred_of_pairs(contents: &Vec<Pair>) -> (r: Option<(String, String)>)
    ensures
        r matches Some((u, p)) ==> cred_of(pairs_view(contents@)) == Some((u@, p@)),
        r is None ==> cred_of(pairs_view(contents@)) is None,
{
    let username = username_vec();
    let user = user_vec();
    let email = email_vec();
    let password = password_vec();
    let pass = pass_vec();
    let ghost cv = pairs_view(contents@);
    let mut cu: Option<String> = None;
    let mut cp: Option<String> = None;
    let mut j: usize = 0;
    while j < contents.len()
        invariant
            j <= contents@.len(),
            cv == pairs_view(contents@),
            cv.len() == contents@.len(),
            username@ == username_key(),
            user@ == user_key(),
            email@ == email_key(),
            password@ == password_key(),
            pass@ == pass_key(),
            match cu {
                Option::None => last_user(cv.take(j as int)) is None,
                Option::Some(s) => last_user(cv.take(j as int)) == Some(s@),
            },
            match cp {
                Option::None => last_pass(cv.take(j as int)) is None,
                Option::Some(s) => last_pass(cv.take(j as int)) == Some(s@),
            },
        decreases contents@.len() - j,
    {
        let kc = chars_of(contents[j].key.as_str());
        let lk = lower_chars(&kc);
        let is_u = eq_chars(&lk, &username) || eq_chars(&lk, &user) || eq_chars(&lk, &email);
        let is_p = eq_chars(&lk, &password) || eq_chars(&lk, &pass);
        proof {
            assert(cv[j as int] == contents@[j as int]@);
            assert(cv.take(j as int + 1).last() == cv[j as int]);
            assert(cv.take(j as int + 1).drop_last() =~= cv.take(j as int));
        }
        if is_u {
            cu = Some(contents[j].value.clone());
            assert(is_user_key(cv[j as int].key));
        } else {
            assert(!is_user_key(cv[j as int].key));
        }
        if is_p {
            cp = Some(contents[j].value.clone());
            assert(is_pass_key(cv[j as int].key));
        } else {
            assert(!is_pass_key(cv[j as int].key));
        }
        j = j + 1;
    }
    proof {
        assert(cv.take(cv.len() as int) =~= cv);
    }
    match (cu, cp) {
        (Option::Some(u), Option::Some(p)) => Some((u, p)),
        _ => None,
    }
}

/// First-match-wins lookup, as `find_spec` describes, over the normalized
/// domain.
pub fn find_credentials(secrets: &Vec<Secret>, domain: &str) -> (r: Option<(String, String)>)
    ensures
        r matches Some((u, p)) ==> find_spec(secrets_views(secrets@), normalize_spec(domain@))
            == Some((u@, p@)),
        r is None ==> find_spec(secrets_views(secrets@), normalize_spec(domain@)) is None,
{
    let nd = normalize_domain(domain);
    let ndc = chars_of(nd.as_str());
    let ghost sv = secrets_views(secrets@);
    let ghost ndv = normalize_spec(domain@);
    proof {
        assert(sv.skip(0) =~= sv);
    }
    let mut i: usize = 0;
    while i < secrets.len()
        invariant
            i <= secrets@.len(),
            sv == secrets_views(secrets@),
            sv.len() == secrets@.len(),
            ndc@ == ndv,
            ndv == normalize_spec(domain@),
            find_spec(sv, ndv) == find_spec(sv.skip(i as int), ndv),
        decreases secrets@.len() - i,
    {
        let ghost cur = sv.skip(i as int);
        proof {
            assert(cur[0] == sv[i as int]);
            assert(cur.drop_first() =~= sv.skip(i as int + 1));
            assert(sv[i as int] == secrets@[i as int]@);
        }
        let name_chars = chars_of(secrets[i].get_name());
        let lname = lower_chars(&name_chars);
        if contains_x(&lname, &ndc) {
            let contents = secrets[i].get_contents();
            match cred_of_pairs(&contents) {
                Option::Some(c) => {
                    assert(secret_matches(sv[i as int], ndv));
                    return Some(c);
                },
                Option::None => {
                    assert(!secret_matches(sv[i as int], ndv));
                },
            }
        } else {
            assert(!secret_matches(sv[i as int], ndv));
        }
        i = i + 1;
    }
    proof {
        assert(sv.skip(sv.len() as int) =~= Seq::<SecretView>::empty());
    }
    None
}

/// Create-or-update, as `upsert_spec` describes. Returns whether the store
/// changed (a new secret was appended); the caller persists when it did.
pub fn upsert_credentials(secrets: &mut Vec<Secret>, domain: &str, username: &str, password: &str) -> (changed: bool)
    ensures
        changed == (find_spec(secrets_views(old(secrets)@), normalize_spec(domain@)) is None),
        secrets_views(final(secrets)@) == upsert_spec(
            secrets_views(old(secrets)@),
            domain@,
            username@,
            password@,
            upsert_ts(secrets_views(old(secrets)@), secrets_views(final(secrets)@)),
        ),
{
    let existing = find_credentials(secrets, domain);
    match existing {
        Option::Some(_) => {
            false
        },
        Option::None => {
            let unv = username_vec();
            let pnv = password_vec();
            let mut contents: Vec<Pair> = Vec::new();
            contents.push(Pair { key: string_of(&unv), value: username.to_owned() });
            contents.push(Pair { key: string_of(&pnv), value: password.to_owned() });
            proof {
                assert(pairs_view(contents@) =~= seq![
                    PairView { key: username_key(), value: username@ },
                    PairView { key: password_key(), value: password@ },
                ]);
            }
            let s = Secret::new(domain, contents);
            let ghost ts = s@.last_modified;
            let ghost oldv = secrets_views(secrets@);
            secrets.push(s);
            proof {
                assert(s@ == new_secret_view(domain@, username@, password@, ts));
                assert(secrets_views(secrets@) =~= oldv.push(s@));
                assert(secrets_views(secrets@) == upsert_spec(
                    oldv,
                    domain@,
                    username@,
                    password@,
                    ts,
                ));
            }
            true
        },
    }
}

} // verus!
