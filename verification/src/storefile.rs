//! The persisted store file: a JSON array with one object per secret,
//! `{"nonce":[..12 bytes..],"ciphertext":"<base64>"}`, order-preserving,
//! rewritten wholesale on every mutation.
//!
//! The emitter produces exactly this compact form; the parser accepts exactly
//! what the emitter produces (the store reads back what it wrote; any
//! deviation is treated as corruption). `lemma_parse_store_roundtrip` proves
//! the parse of an emitted store returns the same entries.

use vstd::prelude::*;
use crate::secret::{EncryptedSecret, EncSecretView};
use crate::crypto::is_b64_char;
use crate::text::{has_prefix, chars_of, string_of};
use crate::domain::{first_idx, lemma_first_idx_of};

verus! {

pub open spec fn store_views(v: Seq<EncryptedSecret>) -> Seq<EncSecretView> {
    v.map_values(|e: EncryptedSecret| e@)
}

/// Entries the emitter can represent faithfully: 12-byte nonces and base64
/// ciphertext text (so the quoted string needs no escaping).
pub open spec fn wf_store(es: Seq<EncSecretView>) -> bool {
    forall|i: int|
        0 <= i < es.len() ==> (#[trigger] es[i]).nonce.len() == 12 && (forall|j: int|
            0 <= j < es[i].ciphertext.len() ==> is_b64_char(#[trigger] es[i].ciphertext[j]))
}

pub open spec fn is_digit(c: char) -> bool {
    48 <= c as u32 <= 57
}

pub open spec fn digit_char(d: u8) -> char {
    ((48 + d) as u8) as char
}

/// Canonical decimal text of one byte (no leading zeros).
pub open spec fn dec_u8(n: u8) -> Seq<char> {
    if n < 10 {
        seq![digit_char(n)]
    } else if n < 100 {
        seq![digit_char((n / 10) as u8), digit_char((n % 10) as u8)]
    } else {
        seq![
            digit_char((n / 100) as u8),
            digit_char(((n / 10) % 10) as u8),
            digit_char((n % 10) as u8),
        ]
    }
}

pub open spec fn nonce_open() -> Seq<char> {
    seq!['{', '"', 'n', 'o', 'n', 'c', 'e', '"', ':', '[']
}

pub open spec fn ct_open() -> Seq<char> {
    seq![']', ',', '"', 'c', 'i', 'p', 'h', 'e', 'r', 't', 'e', 'x', 't', '"', ':', '"']
}

pub open spec fn entry_close() -> Seq<char> {
    seq!['"', '}']
}

pub open spec fn emit_nonce(ns: Seq<u8>) -> Seq<char>
    decreases ns.len(),
{
    if ns.len() == 0 {
        Seq::empty()
    } else if ns.len() == 1 {
        dec_u8(ns[0])
    } else {
        dec_u8(ns[0]) + seq![','] + emit_nonce(ns.drop_first())
    }
}

pub open spec fn emit_entry(e: EncSecretView) -> Seq<char> {
    nonce_open() + emit_nonce(e.nonce) + ct_open() + e.ciphertext + entry_close()
}

pub open spec fn emit_entries(es: Seq<EncSecretView>) -> Seq<char>
    decreases es.len(),
{
    if es.len() == 0 {
        Seq::empty()
    } else if es.len() == 1 {
        emit_entry(es[0])
    } else {
        emit_entry(es[0]) + seq![','] + emit_entries(es.drop_first())
    }
}

/// The whole store file text.
pub open spec fn emit_store(es: Seq<EncSecretView>) -> Seq<char> {
    seq!['['] + emit_entries(es) + seq![']']
}

/// Index of the first non-digit, or `s.len()` if all digits.
pub open spec fn digits_end(s: Seq<char>) -> int
    decreases s.len(),
{
    if s.len() == 0 {
        0
    } else if !is_digit(s[0]) {
        0
    } else {
        1 + digits_end(s.drop_first())
    }
}

/// The value of a digit string, most significant first.
pub open spec fn num_of(s: Seq<char>) -> int
    decreases s.len(),
{
    if s.len() == 0 {
        0
    } else {
        num_of(s.drop_last()) * 10 + (s.last() as u32 - 48)
    }
}

pub open spec fn parse_u8(s: Seq<char>) -> Option<(u8, Seq<char>)> {
    let e = digits_end(s);
    if 1 <= e <= 3 && num_of(s.take(e)) <= 255 && (s[0] == '0' ==> e == 1) {
        Some((num_of(s.take(e)) as u8, s.subrange(e, s.len() as int)))
    } else {
        None
    }
}

pub open spec fn parse_nums(s: Seq<char>, k: nat) -> Option<(Seq<u8>, Seq<char>)>
    decreases k,
{
    if k == 0 {
        Some((Seq::empty(), s))
    } else {
        match parse_u8(s) {
            Option::None => None,
            Option::Some((n, r)) => {
                if k == 1 {
                    Some((seq![n], r))
                } else if r.len() > 0 && r[0] == ',' {
                    match parse_nums(r.drop_first(), (k - 1) as nat) {
                        Option::None => None,
                        Option::Some((ns, rest)) => Some((seq![n] + ns, rest)),
                    }
                } else {
                    None
                }
            },
        }
    }
}

pub open spec fn parse_entry(s: Seq<char>) -> Option<(EncSecretView, Seq<char>)> {
    if !has_prefix(s, nonce_open()) {
        None
    } else {
        let s1 = s.subrange(nonce_open().len() as int, s.len() as int);
        match parse_nums(s1, 12) {
            Option::None => None,
            Option::Some((ns, r)) => {
                if !has_prefix(r, ct_open()) {
                    None
                } else {
                    let r1 = r.subrange(ct_open().len() as int, r.len() as int);
                    let e = first_idx(r1, '"');
                    if e < r1.len() && r1.len() - e >= 2 && r1[e + 1] == '}' {
                        Some(
                            (
                                EncSecretView { nonce: ns, ciphertext: r1.take(e) },
                                r1.subrange(e + 2, r1.len() as int),
                            ),
                        )
                    } else {
                        None
                    }
                }
            },
        }
    }
}

pub open spec fn parse_entries(s: Seq<char>) -> Option<Seq<EncSecretView>>
    decreases s.len(),
{
    match parse_entry(s) {
        Option::None => None,
        Option::Some((e, rest)) => {
            if rest.len() == 0 {
                Some(seq![e])
            } else if rest[0] == ',' && rest.len() < s.len() {
                match parse_entries(rest.drop_first()) {
                    Option::None => None,
                    Option::Some(es) => Some(seq![e] + es),
                }
            } else {
                None
            }
        },
    }
}

/// Strict parse of the whole store file text.
pub open spec fn parse_store_text(s: Seq<char>) -> Option<Seq<EncSecretView>> {
    if s == seq!['[', ']'] {
        Some(Seq::empty())
    } else if s.len() >= 2 && s[0] == '[' && s[s.len() - 1] == ']' {
        parse_entries(s.subrange(1, s.len() - 1))
    } else {
        None
    }
}

proof fn lemma_digits_end_of(s: Seq<char>, i: int)
    requires
        0 <= i <= s.len(),
        forall|j: int| 0 <= j < i ==> is_digit(s[j]),
        i < s.len() ==> !is_digit(s[i]),
    ensures
        digits_end(s) == i,
    decreases s.len(),
{
    if s.len() == 0 {
    } else if !is_digit(s[0]) {
        assert(i == 0);
    } else {
        assert(i >= 1);
        assert forall|j: int| 0 <= j < i - 1 implies is_digit(s.drop_first()[j]) by {
            assert(s.drop_first()[j] == s[j + 1]);
        }
        lemma_digits_end_of(s.drop_first(), i - 1);
    }
}

proof fn lemma_digit_char_val(d: u8)
    requires
        d < 10,
    ensures
        is_digit(digit_char(d)),
        digit_char(d) as u32 == 48 + d,
        d != 0 ==> digit_char(d) != '0',
{
}

proof fn lemma_parse_u8_of_dec(n: u8, rest: Seq<char>)
    requires
        rest.len() > 0 ==> !is_digit(rest[0]),
    ensures
        parse_u8(dec_u8(n) + rest) == Some((n, rest)),
{
    let d = dec_u8(n);
    let s = d + rest;
    if n < 10 {
        lemma_digit_char_val(n);
    } else if n < 100 {
        lemma_digit_char_val((n / 10) as u8);
        lemma_digit_char_val((n % 10) as u8);
    } else {
        lemma_digit_char_val((n / 100) as u8);
        lemma_digit_char_val(((n / 10) % 10) as u8);
        lemma_digit_char_val((n % 10) as u8);
    }
    assert forall|j: int| 0 <= j < d.len() implies is_digit(s[j]) by {
        assert(s[j] == d[j]);
    }
    lemma_digits_end_of(s, d.len() as int);
    assert(s.take(d.len() as int) =~= d);
    // the value of the canonical digits is the byte itself
    reveal_with_fuel(num_of, 5);
    if n < 10 {
        assert(d.drop_last() =~= Seq::<char>::empty());
        assert(num_of(d) == n);
    } else if n < 100 {
        assert(d.drop_last().drop_last() =~= Seq::<char>::empty());
        assert(d.drop_last() =~= seq![digit_char((n / 10) as u8)]);
        assert(num_of(d) == n);
    } else {
        assert(d.drop_last().drop_last().drop_last() =~= Seq::<char>::empty());
        assert(d.drop_last().drop_last() =~= seq![digit_char((n / 100) as u8)]);
        assert(d.drop_last() =~= seq![digit_char((n / 100) as u8), digit_char(((n / 10) % 10) as u8)]);
        assert(num_of(d) == (n / 100) * 100 + ((n / 10) % 10) * 10 + (n % 10));
        assert((n / 100) * 100 + ((n / 10) % 10) * 10 + (n % 10) == n as int) by (nonlinear_arith);
    }
    assert(s[0] == '0' ==> dec_u8(n).len() == 1);
    assert(s.subrange(d.len() as int, s.len() as int) =~= rest);
}

proof fn lemma_parse_nums_of_emit(ns: Seq<u8>, rest: Seq<char>)
    requires
        ns.len() >= 1,
        rest.len() > 0,
        !is_digit(rest[0]),
        rest[0] != ',',
    ensures
        parse_nums(emit_nonce(ns) + rest, ns.len()) == Some((ns, rest)),
    decreases ns.len(),
{
    if ns.len() == 1 {
        lemma_parse_u8_of_dec(ns[0], rest);
        assert(emit_nonce(ns) + rest =~= dec_u8(ns[0]) + rest);
        assert(seq![ns[0]] =~= ns);
    } else {
        let tailtext = emit_nonce(ns.drop_first()) + rest;
        let commatail = seq![','] + tailtext;
        assert(!is_digit(','));
        lemma_parse_u8_of_dec(ns[0], commatail);
        assert(emit_nonce(ns) + rest =~= dec_u8(ns[0]) + commatail);
        assert(commatail.drop_first() =~= tailtext);
        lemma_parse_nums_of_emit(ns.drop_first(), rest);
        assert(seq![ns[0]] + ns.drop_first() =~= ns);
    }
}

proof fn lemma_parse_entry_of_emit(e: EncSecretView, rest: Seq<char>)
    requires
        e.nonce.len() == 12,
        forall|j: int| 0 <= j < e.ciphertext.len() ==> is_b64_char(#[trigger] e.ciphertext[j]),
    ensures
        parse_entry(emit_entry(e) + rest) == Some((e, rest)),
{
    let s = emit_entry(e) + rest;
    assert(has_prefix(s, nonce_open())) by {
        assert(s.subrange(0, nonce_open().len() as int) =~= nonce_open());
    }
    let s1 = s.subrange(nonce_open().len() as int, s.len() as int);
    assert(s1 =~= emit_nonce(e.nonce) + (ct_open() + e.ciphertext + entry_close() + rest));
    let numrest = ct_open() + e.ciphertext + entry_close() + rest;
    assert(numrest[0] == ']' && !is_digit(']') && ']' != ',');
    lemma_parse_nums_of_emit(e.nonce, numrest);
    assert(has_prefix(numrest, ct_open())) by {
        assert(numrest.subrange(0, ct_open().len() as int) =~= ct_open());
    }
    let r1 = numrest.subrange(ct_open().len() as int, numrest.len() as int);
    assert(r1 =~= e.ciphertext + entry_close() + rest);
    // the first quote in r1 closes the ciphertext: base64 text has no quote
    let cl = e.ciphertext.len() as int;
    assert forall|j: int| 0 <= j < cl implies r1[j] != '"' by {
        assert(is_b64_char(e.ciphertext[j]));
    }
    assert(r1[cl] == '"');
    lemma_first_idx_of(r1, '"', cl);
    assert(r1[cl + 1] == '}');
    assert(r1.take(cl) =~= e.ciphertext);
    assert(r1.subrange(cl + 2, r1.len() as int) =~= rest);
    assert(EncSecretView { nonce: e.nonce, ciphertext: r1.take(cl) } == e);
}

proof fn lemma_emit_entry_len(e: EncSecretView)
    ensures
        emit_entry(e).len() >= nonce_open().len(),
{
}

#[verifier::rlimit(100)]
proof fn lemma_parse_entries_of_emit(es: Seq<EncSecretView>)
    requires
        es.len() >= 1,
        wf_store(es),
    ensures
        parse_entries(emit_entries(es)) == Some(es),
    decreases es.len(),
{
    if es.len() == 1 {
        lemma_parse_entry_of_emit(es[0], Seq::empty());
        assert(emit_entries(es) + Seq::<char>::empty() =~= emit_entries(es));
        assert(emit_entries(es) =~= emit_entry(es[0]));
        assert(parse_entry(emit_entries(es)) == Some((es[0], Seq::<char>::empty())));
        assert(seq![es[0]] =~= es);
    } else {
        let tail = es.drop_first();
        let tailtext = emit_entries(tail);
        let rest = seq![','] + tailtext;
        lemma_parse_entry_of_emit(es[0], rest);
        assert(emit_entries(es) =~= emit_entry(es[0]) + rest);
        lemma_emit_entry_len(es[0]);
        assert(rest.len() < emit_entries(es).len());
        assert(rest[0] == ',');
        assert(rest.drop_first() =~= tailtext);
        assert forall|i: int| 0 <= i < tail.len() implies (#[trigger] tail[i]).nonce.len() == 12
            && (forall|j: int|
            0 <= j < tail[i].ciphertext.len() ==> is_b64_char(#[trigger] tail[i].ciphertext[j])) by {
            assert(tail[i] == es[i + 1]);
        }
        lemma_parse_entries_of_emit(tail);
        assert(seq![es[0]] + tail =~= es);
        assert(rest.len() > 0);
    }
}

/// Parsing inverts emission: reading back an emitted store file returns
/// exactly the entries that were written, in order.
pub proof fn lemma_parse_store_roundtrip(es: Seq<EncSecretView>)
    requires
        wf_store(es),
    ensures
        parse_store_text(emit_store(es)) == Some(es),
{
    let s = emit_store(es);
    if es.len() == 0 {
        assert(emit_entries(es) =~= Seq::<char>::empty());
        assert(s =~= seq!['[', ']']);
    } else {
        lemma_parse_entries_of_emit(es);
        assert(s.len() >= 2);
        assert(s[0] == '[');
        lemma_emit_entry_len(es[0]);
        assert(emit_entries(es).len() > 0) by {
            if es.len() == 1 {
                assert(emit_entries(es) == emit_entry(es[0]));
            }
        }
        assert(s[s.len() - 1] == ']');
        assert(s != seq!['[', ']']) by {
            assert(s.len() > 2);
        }
        assert(s.subrange(1, s.len() - 1) =~= emit_entries(es));
    }
}


proof fn lemma_emit_entries_snoc(es: Seq<EncSecretView>, i: int)
    requires
        1 <= i < es.len(),
    ensures
        emit_entries(es.take(i + 1)) == emit_entries(es.take(i)) + seq![','] + emit_entry(es[i]),
    decreases i,
{
    if i == 1 {
        assert(es.take(2)[0] == es[0]);
        assert(es.take(2).drop_first() =~= seq![es[1]]);
        assert(emit_entries(seq![es[1]]) == emit_entry(seq![es[1]][0]));
        assert(seq![es[1]][0] == es[1]);
        assert(emit_entries(es.take(2)) == emit_entry(es[0]) + seq![','] + emit_entries(
            es.take(2).drop_first(),
        ));
        assert(es.take(1)[0] == es[0]);
        assert(emit_entries(es.take(1)) == emit_entry(es[0]));
    } else {
        let t = es.drop_first();
        lemma_emit_entries_snoc(t, i - 1);
        assert(es.take(i + 1)[0] == es[0]);
        assert(es.take(i + 1).drop_first() =~= t.take(i));
        assert(es.take(i)[0] == es[0]);
        assert(es.take(i).drop_first() =~= t.take(i - 1));
        assert(t.take(i).len() >= 2);
        assert(t.take(i - 1).len() >= 1);
        assert(emit_entries(es.take(i + 1)) == emit_entry(es[0]) + seq![','] + emit_entries(
            t.take(i),
        ));
        assert(emit_entries(es.take(i)) == emit_entry(es[0]) + seq![','] + emit_entries(
            t.take(i - 1),
        ));
        assert(t[i - 1] == es[i]);
        assert(emit_entry(es[0]) + seq![','] + (emit_entries(t.take(i - 1)) + seq![',']
            + emit_entry(es[i])) =~= (emit_entry(es[0]) + seq![','] + emit_entries(t.take(i - 1)))
            + seq![','] + emit_entry(es[i]));
    }
}

fn digit_char_x(d: u8) -> (r: char)
    requires
        d < 10,
    ensures
        r == digit_char(d),
        is_digit(r),
{
    proof {
        lemma_digit_char_val(d);
    }
    (48 + d) as char
}

fn dec_u8_x(n: u8) -> (r: Vec<char>)
    ensures
        r@ == dec_u8(n),
{
    if n < 10 {
        let r = vec![digit_char_x(n)];
        assert(r@ =~= dec_u8(n));
        r
    } else if n < 100 {
        let r = vec![digit_char_x(n / 10), digit_char_x(n % 10)];
        assert(r@ =~= dec_u8(n));
        r
    } else {
        let r = vec![digit_char_x(n / 100), digit_char_x((n / 10) % 10), digit_char_x(n % 10)];
        assert(r@ =~= dec_u8(n));
        r
    }
}

fn nonce_open_vec() -> (r: Vec<char>)
    ensures
        r@ == nonce_open(),
{
    let r = vec!['{', '"', 'n', 'o', 'n', 'c', 'e', '"', ':', '['];
    assert(r@ =~= nonce_open());
    r
}

fn ct_open_vec() -> (r: Vec<char>)
    ensures
        r@ == ct_open(),
{
    let r = vec![']', ',', '"', 'c', 'i', 'p', 'h', 'e', 'r', 't', 'e', 'x', 't', '"', ':', '"'];
    assert(r@ =~= ct_open());
    r
}

proof fn lemma_emit_nonce_snoc(ns: Seq<u8>, i: int)
    requires
        1 <= i < ns.len(),
    ensures
        emit_nonce(ns.take(i + 1)) == emit_nonce(ns.take(i)) + seq![','] + dec_u8(ns[i]),
    decreases i,
{
    if i == 1 {
        assert(ns.take(2)[0] == ns[0]);
        assert(ns.take(2).drop_first() =~= seq![ns[1]]);
        assert(emit_nonce(seq![ns[1]]) == dec_u8(seq![ns[1]][0]));
        assert(seq![ns[1]][0] == ns[1]);
        assert(emit_nonce(ns.take(2)) == dec_u8(ns[0]) + seq![','] + emit_nonce(
            ns.take(2).drop_first(),
        ));
        assert(ns.take(1)[0] == ns[0]);
        assert(emit_nonce(ns.take(1)) == dec_u8(ns[0]));
    } else {
        let t = ns.drop_first();
        lemma_emit_nonce_snoc(t, i - 1);
        assert(ns.take(i + 1)[0] == ns[0]);
        assert(ns.take(i + 1).drop_first() =~= t.take(i));
        assert(ns.take(i)[0] == ns[0]);
        assert(ns.take(i).drop_first() =~= t.take(i - 1));
        assert(t.take(i).len() >= 2);
        assert(t.take(i - 1).len() >= 1);
        assert(emit_nonce(ns.take(i + 1)) == dec_u8(ns[0]) + seq![','] + emit_nonce(t.take(i)));
        assert(emit_nonce(ns.take(i)) == dec_u8(ns[0]) + seq![','] + emit_nonce(t.take(i - 1)));
        assert(t[i - 1] == ns[i]);
        assert(dec_u8(ns[0]) + seq![','] + (emit_nonce(t.take(i - 1)) + seq![','] + dec_u8(ns[i]))
            =~= (dec_u8(ns[0]) + seq![','] + emit_nonce(t.take(i - 1))) + seq![','] + dec_u8(
            ns[i],
        ));
    }
}

fn push_entry(out: &mut Vec<char>, e: &EncryptedSecret)
    ensures
        final(out)@ == old(out)@ + emit_entry(e@),
{
    let mut opening = nonce_open_vec();
    out.append(&mut opening);
    let ghost mark = out@;
    let ghost ns = e@.nonce;
    assert(emit_nonce(ns.take(0)) =~= Seq::<char>::empty());
    assert(out@ =~= mark + emit_nonce(ns.take(0)));
    let mut i: usize = 0;
    while i < 12
        invariant
            i <= 12,
            ns == e@.nonce,
            ns.len() == 12,
            out@ == mark + emit_nonce(ns.take(i as int)),
        decreases 12 - i,
    {
        if i > 0 {
            push_char_vec(out, ',');
        }
        let mut d = dec_u8_x(e.nonce[i]);
        out.append(&mut d);
        proof {
            if i == 0 {
                assert(ns.take(1)[0] == ns[0]);
                assert(emit_nonce(ns.take(1)) == dec_u8(ns[0]));
                assert(mark + emit_nonce(ns.take(0)) + dec_u8(ns[0]) =~= mark + emit_nonce(
                    ns.take(1),
                ));
            } else {
                lemma_emit_nonce_snoc(ns, i as int);
                assert(mark + emit_nonce(ns.take(i as int)) + seq![','] + dec_u8(ns[i as int]) =~=
                    mark + emit_nonce(ns.take(i as int + 1)));
            }
        }
        i = i + 1;
    }
    proof {
        assert(ns.take(12) =~= ns);
    }
    let mut ctopen = ct_open_vec();
    out.append(&mut ctopen);
    let mut ct = chars_of(e.ciphertext.as_str());
    out.append(&mut ct);
    push_char_vec(out, '"');
    push_char_vec(out, '}');
    assert(final(out)@ =~= old(out)@ + emit_entry(e@));
}

fn push_char_vec(out: &mut Vec<char>, c: char)
    ensures
        final(out)@ == old(out)@ + seq![c],
{
    out.push(c);
    assert(final(out)@ =~= old(out)@ + seq![c]);
}


/// The store file text for these records, exactly as `emit_store` describes.
pub fn emit_store_x(v: &Vec<EncryptedSecret>) -> (r: String)
    ensures
        r@ == emit_store(store_views(v@)),
{
    let ghost es = store_views(v@);
    let mut out: Vec<char> = Vec::new();
    push_char_vec(&mut out, '[');
    assert(emit_entries(es.take(0)) =~= Seq::<char>::empty());
    assert(out@ =~= seq!['['] + emit_entries(es.take(0)));
    let mut i: usize = 0;
    while i < v.len()
        invariant
            i <= v@.len(),
            es == store_views(v@),
            es.len() == v@.len(),
            out@ == seq!['['] + emit_entries(es.take(i as int)),
        decreases v@.len() - i,
    {
        if i > 0 {
            push_char_vec(&mut out, ',');
        }
        push_entry(&mut out, &v[i]);
        proof {
            assert(es[i as int] == v@[i as int]@);
            if i == 0 {
                assert(es.take(1)[0] == es[0]);
                assert(emit_entries(es.take(1)) == emit_entry(es[0]));
                assert(seq!['['] + emit_entries(es.take(0)) + emit_entry(es[0]) =~= seq!['[']
                    + emit_entries(es.take(1)));
            } else {
                lemma_emit_entries_snoc(es, i as int);
                assert(seq!['['] + emit_entries(es.take(i as int)) + seq![','] + emit_entry(
                    es[i as int],
                ) =~= seq!['['] + emit_entries(es.take(i as int + 1)));
            }
        }
        i = i + 1;
    }
    push_char_vec(&mut out, ']');
    proof {
        assert(es.take(es.len() as int) =~= es);
        assert(out@ =~= emit_store(es));
    }
    string_of(&out)
}

proof fn lemma_digits_end_props(s: Seq<char>)
    ensures
        0 <= digits_end(s) <= s.len(),
    decreases s.len(),
{
    if s.len() > 0 && is_digit(s[0]) {
        lemma_digits_end_props(s.drop_first());
    }
}

proof fn lemma_digits_end_ge(s: Seq<char>, i: int)
    requires
        0 <= i <= s.len(),
        forall|j: int| 0 <= j < i ==> is_digit(s[j]),
    ensures
        digits_end(s) >= i,
    decreases s.len(),
{
    lemma_digits_end_props(s);
    if i > 0 {
        assert(is_digit(s[0]));
        assert forall|j: int| 0 <= j < i - 1 implies is_digit(s.drop_first()[j]) by {
            assert(s.drop_first()[j] == s[j + 1]);
        }
        lemma_digits_end_ge(s.drop_first(), i - 1);
    }
}

fn is_digit_x(c: char) -> (r: bool)
    ensures
        r == is_digit(c),
{
    let u = c as u32;
    48 <= u && u <= 57
}

/// Reads one canonical decimal byte starting at `pos`; mirrors `parse_u8` on
/// the subrange `pos..end`.
fn parse_u8_x(cs: &Vec<char>, pos: usize, end: usize) -> (r: Option<(u8, usize)>)
    requires
        pos <= end <= cs@.len(),
    ensures
        r matches Some((n, p2)) ==> pos < p2 <= end && parse_u8(cs@.subrange(pos as int, end as int))
            == Some((n, cs@.subrange(p2 as int, end as int))),
        r is None ==> parse_u8(cs@.subrange(pos as int, end as int)) is None,
{
    let ghost s = cs@.subrange(pos as int, end as int);
    let mut k: usize = 0;
    while pos + k < end && k < 4 && is_digit_x(cs[pos + k])
        invariant
            pos <= end <= cs@.len(),
            s == cs@.subrange(pos as int, end as int),
            k <= 4,
            pos + k <= end,
            forall|j: int| 0 <= j < k ==> is_digit(s[j]),
        decreases end - pos - k,
    {
        k = k + 1;
    }
    proof {
        if k < 4 && pos + k < end {
            lemma_digits_end_of(s, k as int);
        } else if k < 4 {
            lemma_digits_end_of(s, k as int);
        } else {
            lemma_digits_end_ge(s, 4);
        }
    }
    if k == 0 || k >= 4 {
        return None;
    }
    proof {
        reveal_with_fuel(num_of, 5);
        assert(s.take(1) =~= seq![s[0]]);
        if k >= 2 {
            assert(s.take(2) =~= seq![s[0], s[1]]);
            assert(s.take(2).drop_last() =~= s.take(1));
        }
        if k >= 3 {
            assert(s.take(3) =~= seq![s[0], s[1], s[2]]);
            assert(s.take(3).drop_last() =~= s.take(2));
        }
        assert(s.take(1).drop_last() =~= Seq::<char>::empty());
    }
    let c0 = cs[pos] as u32;
    let mut val: u32 = c0 - 48;
    if k >= 2 {
        let c1 = cs[pos + 1] as u32;
        val = val * 10 + (c1 - 48);
    }
    if k == 3 {
        let c2 = cs[pos + 2] as u32;
        val = val * 10 + (c2 - 48);
    }
    assert(val == num_of(s.take(k as int)));
    if val > 255 {
        return None;
    }
    if cs[pos] == '0' && k != 1 {
        return None;
    }
    proof {
        assert(cs@.subrange(pos as int + k as int, end as int) =~= s.subrange(
            k as int,
            s.len() as int,
        ));
    }
    Some((val as u8, pos + k))
}

/// Reads `count` comma-separated bytes; mirrors `parse_nums`.
fn parse_nums_x(cs: &Vec<char>, pos: usize, end: usize, count: usize) -> (r: Option<
    (Vec<u8>, usize),
>)
    requires
        pos <= end <= cs@.len(),
        count >= 1,
    ensures
        r matches Some((ns, p2)) ==> pos < p2 <= end && ns@.len() == count && parse_nums(
            cs@.subrange(pos as int, end as int),
            count as nat,
        ) == Some((ns@, cs@.subrange(p2 as int, end as int))),
        r is None ==> parse_nums(cs@.subrange(pos as int, end as int), count as nat) is None,
{
    let ghost s0 = cs@.subrange(pos as int, end as int);
    let mut ns: Vec<u8> = Vec::new();
    let mut p: usize = pos;
    let mut i: usize = 0;
    while i < count
        invariant
            pos <= p <= end <= cs@.len(),
            s0 == cs@.subrange(pos as int, end as int),
            i <= count,
            ns@.len() == i,
            i > 0 ==> p > pos,
            parse_nums(s0, count as nat) == match parse_nums(
                cs@.subrange(p as int, end as int),
                (count - i) as nat,
            ) {
                Option::None => None::<(Seq<u8>, Seq<char>)>,
                Option::Some((more, rest)) => Some((ns@ + more, rest)),
            },
        decreases count - i,
    {
        let ghost cur = cs@.subrange(p as int, end as int);
        let ghost k = (count - i) as nat;
        let (n, p2) = match parse_u8_x(cs, p, end) {
            Option::Some(x) => x,
            Option::None => {
                assert(parse_u8(cur) is None);
                assert(parse_nums(cur, k) is None);
                return None;
            },
        };
        let ghost afternum = cs@.subrange(p2 as int, end as int);
        if i + 1 < count {
            // a separating comma must follow
            if p2 >= end || cs[p2] != ',' {
                proof {
                    if afternum.len() > 0 {
                        assert(afternum[0] == cs@[p2 as int]);
                    }
                    assert(parse_nums(cur, k) is None);
                }
                return None;
            }
            proof {
                assert(afternum[0] == ',');
                assert(afternum.drop_first() =~= cs@.subrange(p2 as int + 1, end as int));
            }
            ns.push(n);
            proof {
                let ghost rest2 = cs@.subrange(p2 as int + 1, end as int);
                match parse_nums(rest2, (k - 1) as nat) {
                    Option::None => {
                        assert(parse_nums(cur, k) is None);
                    },
                    Option::Some((more, rest)) => {
                        assert(parse_nums(cur, k) == Some::<(Seq<u8>, Seq<char>)>(
                            (seq![n] + more, rest),
                        ));
                        assert(ns@.drop_last() + (seq![n] + more) =~= ns@ + more);
                    },
                }
            }
            p = p2 + 1;
        } else {
            ns.push(n);
            proof {
                assert(parse_nums(cur, 1) == Some::<(Seq<u8>, Seq<char>)>((seq![n], afternum)));
                assert(ns@.drop_last() + seq![n] =~= ns@);
            }
            p = p2;
        }
        i = i + 1;
    }
    proof {
        let cur = cs@.subrange(p as int, end as int);
        assert(parse_nums(cur, 0) == Some((Seq::<u8>::empty(), cur)));
        assert(ns@ + Seq::<u8>::empty() =~= ns@);
    }
    Some((ns, p))
}


/// Reads one store entry starting at `pos`; mirrors `parse_entry`.
fn parse_entry_x(cs: &Vec<char>, pos: usize, end: usize) -> (r: Option<(EncryptedSecret, usize)>)
    requires
        pos <= end <= cs@.len(),
    ensures
        r matches Some((e, p2)) ==> pos < p2 <= end && parse_entry(
            cs@.subrange(pos as int, end as int),
        ) == Some((e@, cs@.subrange(p2 as int, end as int))),
        r is None ==> parse_entry(cs@.subrange(pos as int, end as int)) is None,
{
    let ghost s = cs@.subrange(pos as int, end as int);
    let opening = nonce_open_vec();
    if end - pos < 10 {
        assert(!has_prefix(s, nonce_open()));
        return None;
    }
    // the entry must open with the nonce field
    let mut j: usize = 0;
    while j < 10
        invariant
            pos + 10 <= end <= cs@.len(),
            s == cs@.subrange(pos as int, end as int),
            opening@ == nonce_open(),
            j <= 10,
            forall|m: int| 0 <= m < j ==> s[m] == nonce_open()[m],
        decreases 10 - j,
    {
        if cs[pos + j] != opening[j] {
            assert(s[j as int] != nonce_open()[j as int]);
            assert(!has_prefix(s, nonce_open())) by {
                if has_prefix(s, nonce_open()) {
                    assert(s.subrange(0, 10)[j as int] == nonce_open()[j as int]);
                }
            }
            return None;
        }
        j = j + 1;
    }
    proof {
        assert(s.subrange(0, 10) =~= nonce_open());
        assert(has_prefix(s, nonce_open()));
        assert(cs@.subrange(pos as int + 10, end as int) =~= s.subrange(10, s.len() as int));
    }
    let (ns, p2) = match parse_nums_x(cs, pos + 10, end, 12) {
        Option::Some(x) => x,
        Option::None => {
            return None;
        },
    };
    let ghost r = cs@.subrange(p2 as int, end as int);
    let ctopen = ct_open_vec();
    if end - p2 < 16 {
        assert(!has_prefix(r, ct_open()));
        return None;
    }
    let mut j: usize = 0;
    while j < 16
        invariant
            pos < p2,
            p2 + 16 <= end <= cs@.len(),
            s == cs@.subrange(pos as int, end as int),
            has_prefix(s, nonce_open()),
            pos + 10 <= end,
            parse_nums(s.subrange(10, s.len() as int), 12) == Some((ns@, r)),
            ns@.len() == 12,
            r == cs@.subrange(p2 as int, end as int),
            ctopen@ == ct_open(),
            j <= 16,
            forall|m: int| 0 <= m < j ==> r[m] == ct_open()[m],
        decreases 16 - j,
    {
        if cs[p2 + j] != ctopen[j] {
            assert(r[j as int] != ct_open()[j as int]);
            assert(!has_prefix(r, ct_open())) by {
                if has_prefix(r, ct_open()) {
                    assert(r.subrange(0, 16)[j as int] == ct_open()[j as int]);
                }
            }
            return None;
        }
        j = j + 1;
    }
    proof {
        assert(r.subrange(0, 16) =~= ct_open());
        assert(has_prefix(r, ct_open()));
    }
    let p3 = p2 + 16;
    let ghost r1 = cs@.subrange(p3 as int, end as int);
    proof {
        assert(r1 =~= r.subrange(16, r.len() as int));
    }
    // scan to the quote that closes the ciphertext
    let mut q: usize = p3;
    while q < end && cs[q] != '"'
        invariant
            p3 == p2 + 16,
            pos < p2,
            p3 <= q <= end <= cs@.len(),
            s == cs@.subrange(pos as int, end as int),
            has_prefix(s, nonce_open()),
            pos + 10 <= end,
            parse_nums(s.subrange(10, s.len() as int), 12) == Some((ns@, r)),
            ns@.len() == 12,
            r == cs@.subrange(p2 as int, end as int),
            has_prefix(r, ct_open()),
            r1 == cs@.subrange(p3 as int, end as int),
            r1 == r.subrange(16, r.len() as int),
            forall|m: int| 0 <= m < q - p3 ==> r1[m] != '"',
        decreases end - q,
    {
        q = q + 1;
    }
    proof {
        if q < end {
            assert(r1[q - p3 as int] == '"');
        }
        lemma_first_idx_of(r1, '"', q - p3);
    }
    if q >= end || end - q < 2 {
        return None;
    }
    if cs[q + 1] != '}' {
        assert(r1[q - p3 + 1] == cs@[q as int + 1]);
        return None;
    }
    let ct_chars = sub_vec_chars(cs, p3, q);
    proof {
        assert(ct_chars@ =~= r1.take(q - p3 as int));
    }
    let ciphertext = string_of(&ct_chars);
    if ns.len() != 12 {
        return None;
    }
    let nonce: [u8; 12] = [
        ns[0],
        ns[1],
        ns[2],
        ns[3],
        ns[4],
        ns[5],
        ns[6],
        ns[7],
        ns[8],
        ns[9],
        ns[10],
        ns[11],
    ];
    let e = EncryptedSecret { nonce, ciphertext };
    proof {
        assert(nonce@ =~= ns@);
        assert(r1[q - p3 as int + 1] == '}');
        assert(cs@.subrange(q as int + 2, end as int) =~= r1.subrange(
            q - p3 as int + 2,
            r1.len() as int,
        ));
        assert(parse_entry(s) == Some((e@, cs@.subrange(q as int + 2, end as int))));
    }
    Some((e, q + 2))
}

fn sub_vec_chars(v: &Vec<char>, a: usize, b: usize) -> (r: Vec<char>)
    requires
        a <= b <= v@.len(),
    ensures
        r@ == v@.subrange(a as int, b as int),
{
    let mut r: Vec<char> = Vec::new();
    let mut i: usize = a;
    while i < b
        invariant
            a <= i <= b <= v@.len(),
            r@ == v@.subrange(a as int, i as int),
        decreases b - i,
    {
        r.push(v[i]);
        i = i + 1;
        assert(r@ =~= v@.subrange(a as int, i as int));
    }
    r
}

/// Parses a store file text; accepts exactly what `emit_store_x` writes.
pub fn parse_store_x(s: &str) -> (r: Option<Vec<EncryptedSecret>>)
    ensures
        r matches Some(v) ==> parse_store_text(s@) == Some(store_views(v@)),
        r is None ==> parse_store_text(s@) is None,
{
    let cs = chars_of(s);
    let n = cs.len();
    if n == 2 && cs[0] == '[' && cs[1] == ']' {
        let v: Vec<EncryptedSecret> = Vec::new();
        proof {
            assert(s@ =~= seq!['[', ']']);
            assert(store_views(v@) =~= Seq::<EncSecretView>::empty());
        }
        return Some(v);
    }
    if n < 2 {
        return None;
    }
    if cs[0] != '[' || cs[n - 1] != ']' {
        return None;
    }
    proof {
        assert(s@ != seq!['[', ']']) by {
            if s@ == seq!['[', ']'] {
                assert(s@.len() == 2);
            }
        }
    }
    let ghost mid = s@.subrange(1, s@.len() - 1);
    let mut acc: Vec<EncryptedSecret> = Vec::new();
    let mut p: usize = 1;
    let end = n - 1;
    proof {
        assert(mid =~= cs@.subrange(1, end as int));
    }
    loop
        invariant
            1 <= p <= end,
            end == cs@.len() - 1,
            cs@ == s@,
            end + 1 == cs@.len(),
            mid == s@.subrange(1, s@.len() - 1),
            cs@[0] == '[',
            cs@[end as int] == ']',
            s@.len() >= 2,
            s@ != seq!['[', ']'],
            parse_entries(mid) == match parse_entries(cs@.subrange(p as int, end as int)) {
                Option::None => None::<Seq<EncSecretView>>,
                Option::Some(es) => Some(store_views(acc@) + es),
            },
        decreases end - p,
    {
        let ghost cur = cs@.subrange(p as int, end as int);
        let (e, p2) = match parse_entry_x(&cs, p, end) {
            Option::Some(x) => x,
            Option::None => {
                assert(parse_entries(cur) is None);
                return None;
            },
        };
        let ghost rest = cs@.subrange(p2 as int, end as int);
        let ghost oldacc = acc@;
        acc.push(e);
        proof {
            assert(store_views(acc@) =~= store_views(oldacc) + seq![e@]);
        }
        if p2 == end {
            proof {
                assert(rest.len() == 0);
                assert(parse_entries(cur) == Some(seq![e@]));
                assert(store_views(oldacc) + seq![e@] =~= store_views(acc@));
                assert(parse_entries(mid) == Some(store_views(acc@)));
                assert(parse_store_text(s@) == Some(store_views(acc@)));
            }
            return Some(acc);
        }
        if cs[p2] != ',' {
            proof {
                assert(rest[0] == cs@[p2 as int]);
                assert(parse_entries(cur) is None);
            }
            return None;
        }
        proof {
            assert(rest[0] == ',');
            assert(rest.len() < cur.len());
            assert(rest.drop_first() =~= cs@.subrange(p2 as int + 1, end as int));
            match parse_entries(cs@.subrange(p2 as int + 1, end as int)) {
                Option::None => {
                    assert(parse_entries(cur) is None);
                },
                Option::Some(es) => {
                    assert(parse_entries(cur) == Some(seq![e@] + es));
                    assert(store_views(oldacc) + (seq![e@] + es) =~= store_views(acc@) + es);
                },
            }
        }
        p = p2 + 1;
        if p >= end {
            // an entry cannot be empty: the next parse must fail
            proof {
                let nxt = cs@.subrange(p as int, end as int);
                assert(nxt.len() == 0);
                assert(!has_prefix(nxt, nonce_open()));
                assert(parse_entry(nxt) is None);
                assert(parse_entries(nxt) is None);
            }
            return None;
        }
    }
}

} // verus!
