//! Domain normalization: canonicalizing a URL/host string for substring
//! matching against secret names.
//!
//! A domain is normalized by trimming ASCII whitespace (deliberately only
//! the ASCII set), ASCII lower-casing,
//! stripping one leading `https://` or `http://`, stripping one leading
//! `www.`, truncating at the first `/`, and removing one trailing `.com`.

use vstd::prelude::*;
use crate::text::{
    is_space, is_space_x, lower, lower_char, lower_chars, chars_of, string_of, has_prefix,
    has_suffix, has_prefix_x, has_suffix_x, lemma_lower_idempotent, lemma_lower_subrange,
};

verus! {

/// ASCII whitespace removed from both ends.
pub open spec fn trim(s: Seq<char>) -> Seq<char>
    decreases s.len(),
{
    if s.len() == 0 {
        s
    } else if is_space(s[0]) {
        trim(s.drop_first())
    } else if is_space(s[s.len() - 1]) {
        trim(s.drop_last())
    } else {
        s
    }
}

pub open spec fn https_prefix() -> Seq<char> {
    seq!['h', 't', 't', 'p', 's', ':', '/', '/']
}

pub open spec fn http_prefix() -> Seq<char> {
    seq!['h', 't', 't', 'p', ':', '/', '/']
}

pub open spec fn www_prefix() -> Seq<char> {
    seq!['w', 'w', 'w', '.']
}

pub open spec fn com_suffix() -> Seq<char> {
    seq!['.', 'c', 'o', 'm']
}

pub open spec fn strip_prefix(s: Seq<char>, p: Seq<char>) -> Seq<char> {
    if has_prefix(s, p) {
        s.subrange(p.len() as int, s.len() as int)
    } else {
        s
    }
}

pub open spec fn strip_suffix(s: Seq<char>, p: Seq<char>) -> Seq<char> {
    if has_suffix(s, p) {
        s.subrange(0, s.len() - p.len())
    } else {
        s
    }
}

/// One leading scheme is removed; `https://` is preferred when both apply.
pub open spec fn strip_scheme(s: Seq<char>) -> Seq<char> {
    if has_prefix(s, https_prefix()) {
        s.subrange(https_prefix().len() as int, s.len() as int)
    } else if has_prefix(s, http_prefix()) {
        s.subrange(http_prefix().len() as int, s.len() as int)
    } else {
        s
    }
}

/// Index of the first occurrence of `c`, or `s.len()` if absent.
pub open spec fn first_idx(s: Seq<char>, c: char) -> int
    decreases s.len(),
{
    if s.len() == 0 {
        0
    } else if s[0] == c {
        0
    } else {
        1 + first_idx(s.drop_first(), c)
    }
}

pub open spec fn cut_at_slash(s: Seq<char>) -> Seq<char> {
    s.subrange(0, first_idx(s, '/'))
}

/// The normalized form of a domain string.
pub open spec fn normalize_spec(d: Seq<char>) -> Seq<char> {
    strip_suffix(
        cut_at_slash(strip_prefix(strip_scheme(lower(trim(d))), www_prefix())),
        com_suffix(),
    )
}

pub proof fn lemma_first_idx_props(s: Seq<char>, c: char)
    ensures
        0 <= first_idx(s, c) <= s.len(),
        forall|j: int| 0 <= j < first_idx(s, c) ==> s[j] != c,
        first_idx(s, c) < s.len() ==> s[first_idx(s, c)] == c,
    decreases s.len(),
{
    if s.len() == 0 {
    } else if s[0] == c {
    } else {
        lemma_first_idx_props(s.drop_first(), c);
        assert forall|j: int| 0 <= j < first_idx(s, c) implies s[j] != c by {
            if j >= 1 {
                assert(s.drop_first()[j - 1] == s[j]);
            }
        }
    }
}

pub proof fn lemma_first_idx_of(s: Seq<char>, c: char, i: int)
    requires
        0 <= i <= s.len(),
        forall|j: int| 0 <= j < i ==> s[j] != c,
        i < s.len() ==> s[i] == c,
    ensures
        first_idx(s, c) == i,
    decreases s.len(),
{
    if s.len() == 0 {
    } else if s[0] == c {
        assert(i == 0);
    } else {
        assert(i >= 1);
        lemma_first_idx_of(s.drop_first(), c, i - 1);
    }
}

/// The trimmed string is a contiguous piece of the original.
#[verifier::rlimit(50)]
pub proof fn lemma_trim_is_subrange(s: Seq<char>)
    ensures
        exists|a: int, b: int|
            0 <= a <= b <= s.len() && trim(s) == #[trigger] s.subrange(a, b),
    decreases s.len(),
{
    if s.len() == 0 {
        assert(trim(s) == s.subrange(0, 0));
    } else if is_space(s[0]) {
        lemma_trim_is_subrange(s.drop_first());
        let (a, b) = choose|a: int, b: int|
            0 <= a <= b <= s.drop_first().len() && trim(s.drop_first()) == #[trigger] s
                .drop_first()
                .subrange(a, b);
        assert(s.drop_first().subrange(a, b) =~= s.subrange(a + 1, b + 1));
        assert(trim(s) == s.subrange(a + 1, b + 1));
    } else if is_space(s[s.len() - 1]) {
        lemma_trim_is_subrange(s.drop_last());
        let (a, b) = choose|a: int, b: int|
            0 <= a <= b <= s.drop_last().len() && trim(s.drop_last()) == #[trigger] s
                .drop_last()
                .subrange(a, b);
        assert(s.drop_last().subrange(a, b) =~= s.subrange(a, b));
        assert(trim(s) == s.subrange(a, b));
    } else {
        assert(trim(s) == s.subrange(0, s.len() as int)) by {
            assert(s.subrange(0, s.len() as int) =~= s);
        }
    }
}

/// The normalized domain is a contiguous piece of the lower-cased original.
#[verifier::rlimit(80)]
pub proof fn lemma_normalize_in_lower(d: Seq<char>)
    ensures
        exists|a: int, b: int|
            0 <= a <= b <= d.len() && normalize_spec(d) == #[trigger] lower(d).subrange(a, b),
{
    lemma_trim_is_subrange(d);
    let (ta, tb) = choose|a: int, b: int|
        0 <= a <= b <= d.len() && trim(d) == #[trigger] d.subrange(a, b);
    let l = lower(trim(d));
    lemma_lower_subrange(d, ta, tb);
    assert(l == lower(d).subrange(ta, tb));
    // each later stage keeps a contiguous piece of `l`
    let s1 = strip_scheme(l);
    let o1: int = if has_prefix(l, https_prefix()) {
        8
    } else if has_prefix(l, http_prefix()) {
        7
    } else {
        0
    };
    assert(s1 == l.subrange(o1, l.len() as int));
    let s2 = strip_prefix(s1, www_prefix());
    let o2: int = if has_prefix(s1, www_prefix()) {
        4
    } else {
        0
    };
    assert(s2 == s1.subrange(o2, s1.len() as int));
    let s3 = cut_at_slash(s2);
    lemma_first_idx_props(s2, '/');
    let e3 = first_idx(s2, '/');
    assert(s3 == s2.subrange(0, e3));
    let s4 = strip_suffix(s3, com_suffix());
    let e4: int = if has_suffix(s3, com_suffix()) {
        s3.len() - 4
    } else {
        s3.len() as int
    };
    assert(s4 == s3.subrange(0, e4));
    assert(s4 =~= l.subrange(o1 + o2, o1 + o2 + e4));
    assert(l.subrange(o1 + o2, o1 + o2 + e4) =~= lower(d).subrange(
        ta + o1 + o2,
        ta + o1 + o2 + e4,
    ));
    assert(normalize_spec(d) == lower(d).subrange(ta + o1 + o2, ta + o1 + o2 + e4));
}

/// A normalized domain contains no `/`.
pub proof fn lemma_normalize_no_slash(d: Seq<char>)
    ensures
        forall|j: int| 0 <= j < normalize_spec(d).len() ==> normalize_spec(d)[j] != '/',
{
    let s2 = strip_prefix(strip_scheme(lower(trim(d))), www_prefix());
    lemma_first_idx_props(s2, '/');
    let s3 = cut_at_slash(s2);
    assert(forall|j: int| 0 <= j < s3.len() ==> s3[j] != '/');
    let r = normalize_spec(d);
    assert(forall|j: int| 0 <= j < r.len() ==> r[j] == s3[j]);
}

/// Normalizing is idempotent on every domain whose normalized form has no
/// ASCII whitespace at either end, no leading `www.` and no trailing `.com`.
/// (On the remaining inputs a second pass strips further: for example a
/// domain whose normalized form still ends in `.com`.)
pub proof fn lemma_normalize_idempotent(d: Seq<char>)
    requires
        trim(normalize_spec(d)) == normalize_spec(d),
        !has_prefix(normalize_spec(d), www_prefix()),
        !has_suffix(normalize_spec(d), com_suffix()),
    ensures
        normalize_spec(normalize_spec(d)) == normalize_spec(d),
{
    let r = normalize_spec(d);
    // r is already lower-case
    lemma_normalize_in_lower(d);
    let (a, b) = choose|a: int, b: int|
        0 <= a <= b <= d.len() && normalize_spec(d) == #[trigger] lower(d).subrange(a, b);
    lemma_lower_subrange(d, a, b);
    lemma_lower_idempotent(d.subrange(a, b));
    assert(lower(r) == r) by {
        assert(r == lower(d.subrange(a, b)));
        assert(lower(r) == lower(lower(d.subrange(a, b))));
    }
    // r contains no slash, so no scheme prefix applies and the slash cut keeps all
    lemma_normalize_no_slash(d);
    assert(!has_prefix(r, https_prefix())) by {
        if has_prefix(r, https_prefix()) {
            assert(r.subrange(0, 8)[6] == '/');
        }
    }
    assert(!has_prefix(r, http_prefix())) by {
        if has_prefix(r, http_prefix()) {
            assert(r.subrange(0, 7)[5] == '/');
        }
    }
    assert(strip_scheme(lower(trim(r))) == r);
    assert(strip_prefix(r, www_prefix()) == r);
    lemma_first_idx_of(r, '/', r.len() as int);
    assert(cut_at_slash(r) =~= r);
    assert(strip_suffix(r, com_suffix()) == r);
}


proof fn lemma_trim_shrinks(s: Seq<char>)
    ensures
        trim(s) == s || trim(s).len() < s.len(),
    decreases s.len(),
{
    if s.len() == 0 {
    } else if is_space(s[0]) {
        lemma_trim_shrinks(s.drop_first());
    } else if is_space(s[s.len() - 1]) {
        lemma_trim_shrinks(s.drop_last());
    }
}

/// The converse of `lemma_normalize_idempotent`: on every input that lemma
/// leaves out — the normalized form has whitespace at an end, a leading
/// `www.` or a trailing `.com` — a second pass strips further and differs.
pub proof fn lemma_normalize_not_idempotent_on_excluded(d: Seq<char>)
    requires
        trim(normalize_spec(d)) != normalize_spec(d) || has_prefix(
            normalize_spec(d),
            www_prefix(),
        ) || has_suffix(normalize_spec(d), com_suffix()),
    ensures
        normalize_spec(normalize_spec(d)) != normalize_spec(d),
{
    let r = normalize_spec(d);
    let t = trim(r);
    let l = lower(t);
    let s1 = strip_scheme(l);
    let s2 = strip_prefix(s1, www_prefix());
    let s3 = cut_at_slash(s2);
    let s4 = strip_suffix(s3, com_suffix());
    // no stage grows the string
    lemma_trim_shrinks(r);
    lemma_first_idx_props(s2, '/');
    assert(l.len() == t.len());
    assert(s1.len() <= l.len());
    assert(s2.len() <= s1.len());
    assert(s3.len() <= s2.len());
    assert(s4.len() <= s3.len());
    // and under any excluded condition some stage strictly shrinks
    if t != r {
        assert(t.len() < r.len());
    } else {
        // the whole pipeline works on l == lower(r), which keeps every
        // character that is already lower-case and never makes a slash
        lemma_normalize_no_slash(d);
        assert(forall|j: int| 0 <= j < l.len() ==> l[j] == lower_char(r[j]));
        assert(forall|j: int| 0 <= j < l.len() ==> l[j] != '/') by {
            assert(forall|j: int|
                0 <= j < r.len() ==> (r[j] != '/' ==> #[trigger] lower_char(r[j]) != '/'));
        }
        assert(!has_prefix(l, https_prefix())) by {
            if has_prefix(l, https_prefix()) {
                assert(l.subrange(0, 8)[6] == '/');
            }
        }
        assert(!has_prefix(l, http_prefix())) by {
            if has_prefix(l, http_prefix()) {
                assert(l.subrange(0, 7)[5] == '/');
            }
        }
        assert(s1 == l);
        if has_prefix(s1, www_prefix()) {
            assert(s2.len() < s1.len());
        } else if has_prefix(r, www_prefix()) {
            // a lower-case prefix of r survives lower-casing
            assert(has_prefix(l, www_prefix())) by {
                assert forall|j: int| 0 <= j < 4 implies l.subrange(0, 4)[j] == www_prefix()[j] by {
                    assert(r.subrange(0, 4)[j] == www_prefix()[j]);
                    assert(lower_char(www_prefix()[j]) == www_prefix()[j]);
                }
                assert(l.subrange(0, 4) =~= www_prefix());
            }
            assert(false);
        } else {
            // neither pass strips a scheme or a www; the slash cut keeps all
            assert(has_suffix(r, com_suffix()));
            lemma_first_idx_of(s2, '/', s2.len() as int);
            assert(s3 =~= s2);
            assert(has_suffix(s3, com_suffix())) by {
                let n = s3.len() as int;
                assert forall|j: int| 0 <= j < 4 implies s3.subrange(n - 4, n)[j] == com_suffix()[j] by {
                    assert(r.subrange(r.len() - 4, r.len() as int)[j] == com_suffix()[j]);
                    assert(s3[n - 4 + j] == lower_char(r[r.len() - 4 + j]));
                    assert(lower_char(com_suffix()[j]) == com_suffix()[j]);
                }
                assert(s3.subrange(n - 4, n) =~= com_suffix());
            }
            assert(s4.len() < s3.len());
        }
    }
    assert(s4.len() < r.len());
    assert(normalize_spec(r) == s4);
}

fn sub_vec(v: &Vec<char>, a: usize, b: usize) -> (r: Vec<char>)
    requires
        a <= b <= v@.len(),
    ensures
        r@ == v@.subrange(a as int, b as int),
{
    let mut r: Vec<char> = Vec::new();
    let mut i: usize = a;
    while i < b
        invariant
            a <= i <= b <= v@.len(),
            r@ == v@.subrange(a as int, i as int),
        decreases b - i,
    {
        r.push(v[i]);
        i = i + 1;
        assert(r@ =~= v@.subrange(a as int, i as int));
    }
    r
}

fn trim_chars(v: &Vec<char>) -> (r: Vec<char>)
    ensures
        r@ == trim(v@),
{
    let n = v.len();
    proof {
        assert(v@.subrange(0, n as int) =~= v@);
    }
    let mut a: usize = 0;
    while a < n && is_space_x(v[a])
        invariant
            a <= n,
            n == v@.len(),
            trim(v@) == trim(v@.subrange(a as int, n as int)),
        decreases n - a,
    {
        proof {
            let u = v@.subrange(a as int, n as int);
            assert(u.drop_first() =~= v@.subrange(a as int + 1, n as int));
            assert(trim(u) == trim(u.drop_first()));
        }
        a = a + 1;
    }
    let mut b: usize = n;
    while b > a && is_space_x(v[b - 1])
        invariant
            a <= b <= n,
            n == v@.len(),
            trim(v@) == trim(v@.subrange(a as int, b as int)),
            a < b ==> !is_space(v@[a as int]),
        decreases b,
    {
        proof {
            let u = v@.subrange(a as int, b as int);
            assert(u.drop_last() =~= v@.subrange(a as int, b as int - 1));
            assert(!is_space(u[0]) && is_space(u[u.len() - 1]));
            assert(trim(u) == trim(u.drop_last()));
        }
        b = b - 1;
    }
    proof {
        let u = v@.subrange(a as int, b as int);
        if a == b {
            assert(u.len() == 0);
            assert(trim(u) == u);
        } else {
            assert(!is_space(u[0]) && !is_space(u[u.len() - 1]));
            assert(trim(u) == u);
        }
    }
    sub_vec(v, a, b)
}

fn https_vec() -> (r: Vec<char>)
    ensures
        r@ == https_prefix(),
{
    let r = vec!['h', 't', 't', 'p', 's', ':', '/', '/'];
    assert(r@ =~= https_prefix());
    r
}

fn http_vec() -> (r: Vec<char>)
    ensures
        r@ == http_prefix(),
{
    let r = vec!['h', 't', 't', 'p', ':', '/', '/'];
    assert(r@ =~= http_prefix());
    r
}

fn www_vec() -> (r: Vec<char>)
    ensures
        r@ == www_prefix(),
{
    let r = vec!['w', 'w', 'w', '.'];
    assert(r@ =~= www_prefix());
    r
}

fn com_vec() -> (r: Vec<char>)
    ensures
        r@ == com_suffix(),
{
    let r = vec!['.', 'c', 'o', 'm'];
    assert(r@ =~= com_suffix());
    r
}

fn strip_prefix_x(s: &Vec<char>, p: &Vec<char>) -> (r: Vec<char>)
    ensures
        r@ == strip_prefix(s@, p@),
{
    if has_prefix_x(s, p) {
        sub_vec(s, p.len(), s.len())
    } else {
        sub_vec(s, 0, s.len())
    }
}

fn strip_suffix_x(s: &Vec<char>, p: &Vec<char>) -> (r: Vec<char>)
    ensures
        r@ == strip_suffix(s@, p@),
{
    if has_suffix_x(s, p) {
        sub_vec(s, 0, s.len() - p.len())
    } else {
        sub_vec(s, 0, s.len())
    }
}

fn strip_scheme_x(s: &Vec<char>) -> (r: Vec<char>)
    ensures
        r@ == strip_scheme(s@),
{
    let https = https_vec();
    let http = http_vec();
    if has_prefix_x(s, &https) {
        sub_vec(s, 8, s.len())
    } else if has_prefix_x(s, &http) {
        sub_vec(s, 7, s.len())
    } else {
        sub_vec(s, 0, s.len())
    }
}

fn cut_at_slash_x(s: &Vec<char>) -> (r: Vec<char>)
    ensures
        r@ == cut_at_slash(s@),
{
    let n = s.len();
    let mut i: usize = 0;
    while i < n && s[i] != '/'
        invariant
            i <= n,
            n == s@.len(),
            forall|j: int| 0 <= j < i ==> s@[j] != '/',
        decreases n - i,
    {
        i = i + 1;
    }
    proof {
        lemma_first_idx_of(s@, '/', i as int);
    }
    sub_vec(s, 0, i)
}

/// Normalized form of `d`, as `normalize_spec` describes.
pub fn normalize_domain(d: &str) -> (r: String)
    ensures
        r@ == normalize_spec(d@),
{
    let cs = chars_of(d);
    let t = trim_chars(&cs);
    let l = lower_chars(&t);
    let s1 = strip_scheme_x(&l);
    let www = www_vec();
    let s2 = strip_prefix_x(&s1, &www);
    let s3 = cut_at_slash_x(&s2);
    let com = com_vec();
    let s4 = strip_suffix_x(&s3, &com);
    string_of(&s4)
}

} // verus!
