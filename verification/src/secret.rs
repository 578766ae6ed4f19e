//! The secret data model and its canonical byte encoding.
//!
//! A `Secret` is a named, ordered sequence of key/value `Pair`s plus a
//! last-modified timestamp. The canonical serialized form encrypted at rest is
//! a length-prefixed byte encoding: every string is written as its UTF-8 bytes
//! behind a little-endian `u64` length, the timestamp as its 64-bit two's
//! complement image, and the pair list behind a `u64` count. Parsing is the
//! exact inverse (`lemma_parse_secret_roundtrip`).

use vstd::prelude::*;
use vstd::bytes::{spec_u64_to_le_bytes, spec_u64_from_le_bytes, lemma_auto_spec_u64_to_from_le_bytes, u64_to_le_bytes, u64_from_le_bytes};
use vstd::utf8::{encode_utf8, decode_utf8, valid_utf8, encode_utf8_valid_utf8, encode_utf8_decode_utf8};
use vstd::slice::{slice_subrange, slice_to_vec};
use crate::text::string_from_utf8;

verus! {

/// One field of a secret: an ordered (key, value) pair of strings.
#[derive(Debug)]
pub struct Pair {
    pub key: String,
    pub value: String,
}

pub struct PairView {
    pub key: Seq<char>,
    pub value: Seq<char>,
}

impl View for Pair {
    type V = PairView;

    open spec fn view(&self) -> PairView {
        PairView { key: self.key@, value: self.value@ }
    }
}

impl Clone for Pair {
    fn clone(&self) -> (r: Self)
        ensures
            r@ == self@,
    {
        Pair { key: self.key.clone(), value: self.value.clone() }
    }
}

/// One named credential-like record.
#[derive(Debug)]
pub struct Secret {
    name: String,
    contents: Vec<Pair>,
    last_modified: i64,
}

pub struct SecretView {
    pub name: Seq<char>,
    pub contents: Seq<PairView>,
    pub last_modified: i64,
}

pub open spec fn pairs_view(cs: Seq<Pair>) -> Seq<PairView> {
    cs.map_values(|p: Pair| p@)
}

impl View for Secret {
    type V = SecretView;

    closed spec fn view(&self) -> SecretView {
        SecretView {
            name: self.name@,
            contents: pairs_view(self.contents@),
            last_modified: self.last_modified,
        }
    }
}

/// The persisted image of exactly one secret: a fresh random nonce and the
/// base64 text of the authenticated ciphertext.
#[derive(Debug)]
pub struct EncryptedSecret {
    pub nonce: [u8; 12],
    pub ciphertext: String,
}

pub struct EncSecretView {
    pub nonce: Seq<u8>,
    pub ciphertext: Seq<char>,
}

impl View for EncryptedSecret {
    type V = EncSecretView;

    open spec fn view(&self) -> EncSecretView {
        EncSecretView { nonce: self.nonce@, ciphertext: self.ciphertext@ }
    }
}

/// Relies on chrono::Local::now: the current time as a Unix timestamp.
#[verifier::external_body]
fn now_timestamp() -> i64 {
    chrono::Local::now().timestamp()
}

/// The 64-bit two's complement image of a signed timestamp.
pub open spec fn i64_bits(x: i64) -> u64 {
    if x >= 0 {
        x as u64
    } else {
        (x + 0x1_0000_0000_0000_0000) as u64
    }
}

pub open spec fn bits_i64(n: u64) -> i64 {
    if n < 0x8000_0000_0000_0000 {
        n as i64
    } else {
        (n - 0x1_0000_0000_0000_0000) as i64
    }
}

pub proof fn lemma_bits_i64_roundtrip(x: i64)
    ensures
        bits_i64(i64_bits(x)) == x,
{
}

fn i64_bits_x(x: i64) -> (r: u64)
    ensures
        r == i64_bits(x),
{
    if x >= 0 {
        x as u64
    } else {
        (((x as i128) + 0x1_0000_0000_0000_0000) as u64)
    }
}

fn bits_i64_x(n: u64) -> (r: i64)
    ensures
        r == bits_i64(n),
{
    if n < 0x8000_0000_0000_0000 {
        n as i64
    } else {
        (((n as i128) - 0x1_0000_0000_0000_0000) as i64)
    }
}

/// A byte string behind its little-endian `u64` length.
pub open spec fn enc_chunk(b: Seq<u8>) -> Seq<u8> {
    spec_u64_to_le_bytes(b.len() as u64) + b
}

pub open spec fn enc_pair(p: PairView) -> Seq<u8> {
    enc_chunk(encode_utf8(p.key)) + enc_chunk(encode_utf8(p.value))
}

pub open spec fn enc_pairs(ps: Seq<PairView>) -> Seq<u8>
    decreases ps.len(),
{
    if ps.len() == 0 {
        Seq::empty()
    } else {
        enc_pair(ps[0]) + enc_pairs(ps.drop_first())
    }
}

/// The canonical serialized form of a secret.
pub open spec fn secret_bytes(v: SecretView) -> Seq<u8> {
    enc_chunk(encode_utf8(v.name)) + spec_u64_to_le_bytes(i64_bits(v.last_modified))
        + spec_u64_to_le_bytes(v.contents.len() as u64) + enc_pairs(v.contents)
}

pub open spec fn parse_chunk(b: Seq<u8>) -> Option<(Seq<u8>, Seq<u8>)> {
    if b.len() < 8 {
        None
    } else {
        let n = spec_u64_from_le_bytes(b.subrange(0, 8)) as int;
        if 8 + n <= b.len() {
            Some((b.subrange(8, 8 + n), b.subrange(8 + n, b.len() as int)))
        } else {
            None
        }
    }
}

pub open spec fn parse_pairs(b: Seq<u8>, k: nat) -> Option<(Seq<PairView>, Seq<u8>)>
    decreases k,
{
    if k == 0 {
        Some((Seq::empty(), b))
    } else {
        match parse_chunk(b) {
            Option::None => None,
            Option::Some((kb, r1)) => {
                if !valid_utf8(kb) {
                    None
                } else {
                    match parse_chunk(r1) {
                        Option::None => None,
                        Option::Some((vb, r2)) => {
                            if !valid_utf8(vb) {
                                None
                            } else {
                                match parse_pairs(r2, (k - 1) as nat) {
                                    Option::None => None,
                                    Option::Some((ps, rest)) => Some(
                                        (
                                            seq![
                                                PairView {
                                                    key: decode_utf8(kb),
                                                    value: decode_utf8(vb),
                                                },
                                            ] + ps,
                                            rest,
                                        ),
                                    ),
                                }
                            }
                        },
                    }
                }
            },
        }
    }
}

pub open spec fn parse_secret(b: Seq<u8>) -> Option<SecretView> {
    match parse_chunk(b) {
        Option::None => None,
        Option::Some((nb, r1)) => {
            if !valid_utf8(nb) {
                None
            } else if r1.len() < 16 {
                None
            } else {
                let lm = bits_i64(spec_u64_from_le_bytes(r1.subrange(0, 8)));
                let np = spec_u64_from_le_bytes(r1.subrange(8, 16));
                match parse_pairs(r1.subrange(16, r1.len() as int), np as nat) {
                    Option::None => None,
                    Option::Some((ps, rest)) => {
                        if rest.len() == 0 {
                            Some(SecretView { name: decode_utf8(nb), contents: ps, last_modified: lm })
                        } else {
                            None
                        }
                    },
                }
            }
        },
    }
}

/// Every field's UTF-8 image and the pair count fit a `u64` length prefix.
/// Holds of every secret a program can build; stated for arbitrary views.
pub open spec fn wf_secret_view(v: SecretView) -> bool {
    &&& encode_utf8(v.name).len() < 0x1_0000_0000_0000_0000
    &&& v.contents.len() < 0x1_0000_0000_0000_0000
    &&& forall|i: int|
        0 <= i < v.contents.len() ==> encode_utf8(#[trigger] v.contents[i].key).len()
            < 0x1_0000_0000_0000_0000 && encode_utf8(v.contents[i].value).len()
            < 0x1_0000_0000_0000_0000
}

proof fn lemma_parse_chunk_enc(b: Seq<u8>, rest: Seq<u8>)
    requires
        b.len() < 0x1_0000_0000_0000_0000,
    ensures
        parse_chunk(enc_chunk(b) + rest) == Some((b, rest)),
{
    lemma_auto_spec_u64_to_from_le_bytes();
    let e = enc_chunk(b) + rest;
    assert(spec_u64_to_le_bytes(b.len() as u64).len() == 8);
    assert(e.subrange(0, 8) =~= spec_u64_to_le_bytes(b.len() as u64));
    assert(spec_u64_from_le_bytes(e.subrange(0, 8)) == b.len() as u64);
    assert(e.subrange(8, 8 + b.len() as int) =~= b);
    assert(e.subrange(8 + b.len() as int, e.len() as int) =~= rest);
}

proof fn lemma_parse_pairs_enc(ps: Seq<PairView>, rest: Seq<u8>)
    requires
        forall|i: int|
            0 <= i < ps.len() ==> encode_utf8(#[trigger] ps[i].key).len()
                < 0x1_0000_0000_0000_0000 && encode_utf8(ps[i].value).len()
                < 0x1_0000_0000_0000_0000,
    ensures
        parse_pairs(enc_pairs(ps) + rest, ps.len()) == Some((ps, rest)),
    decreases ps.len(),
{
    broadcast use encode_utf8_valid_utf8;
    broadcast use encode_utf8_decode_utf8;

    if ps.len() == 0 {
        assert(enc_pairs(ps) + rest =~= rest);
        assert(parse_pairs(rest, 0) == Some((Seq::<PairView>::empty(), rest)));
        assert(ps =~= Seq::<PairView>::empty());
    } else {
        let p0 = ps[0];
        let kb = encode_utf8(p0.key);
        let vb = encode_utf8(p0.value);
        let tail = enc_pairs(ps.drop_first()) + rest;
        let e = enc_pairs(ps) + rest;
        assert(e =~= enc_chunk(kb) + (enc_chunk(vb) + tail));
        lemma_parse_chunk_enc(kb, enc_chunk(vb) + tail);
        lemma_parse_chunk_enc(vb, tail);
        lemma_parse_pairs_enc(ps.drop_first(), rest);
        let pv = PairView { key: decode_utf8(kb), value: decode_utf8(vb) };
        assert(pv == p0);
        assert(seq![pv] + ps.drop_first() =~= ps);
    }
}

/// Parsing inverts the canonical encoding: the round trip is the identity.
pub proof fn lemma_parse_secret_roundtrip(v: SecretView)
    requires
        wf_secret_view(v),
    ensures
        parse_secret(secret_bytes(v)) == Some(v),
{
    broadcast use encode_utf8_valid_utf8;
    broadcast use encode_utf8_decode_utf8;

    lemma_auto_spec_u64_to_from_le_bytes();
    let nb = encode_utf8(v.name);
    let lm8 = spec_u64_to_le_bytes(i64_bits(v.last_modified));
    let np8 = spec_u64_to_le_bytes(v.contents.len() as u64);
    let pb = enc_pairs(v.contents);
    let e = secret_bytes(v);
    assert(e =~= enc_chunk(nb) + (lm8 + np8 + pb));
    lemma_parse_chunk_enc(nb, lm8 + np8 + pb);
    let r1 = lm8 + np8 + pb;
    assert(r1.len() >= 16);
    assert(r1.subrange(0, 8) =~= lm8);
    assert(r1.subrange(8, 16) =~= np8);
    assert(r1.subrange(16, r1.len() as int) =~= pb + Seq::<u8>::empty());
    lemma_parse_pairs_enc(v.contents, Seq::<u8>::empty());
    lemma_bits_i64_roundtrip(v.last_modified);
    assert(spec_u64_from_le_bytes(np8) as nat == v.contents.len());
    assert(parse_secret(e) == Some(v));
}

proof fn lemma_parse_pairs_min_len(b: Seq<u8>, k: nat)
    ensures
        parse_pairs(b, k) matches Some(pr) ==> b.len() >= 16 * k + pr.1.len(),
    decreases k,
{
    if k > 0 {
        match parse_chunk(b) {
            Option::None => {},
            Option::Some((kb, r1)) => {
                if valid_utf8(kb) {
                    match parse_chunk(r1) {
                        Option::None => {},
                        Option::Some((vb, r2)) => {
                            if valid_utf8(vb) {
                                lemma_parse_pairs_min_len(r2, (k - 1) as nat);
                            }
                        },
                    }
                }
            },
        }
    }
}

proof fn lemma_enc_pairs_snoc(ps: Seq<PairView>, i: int)
    requires
        0 <= i < ps.len(),
    ensures
        enc_pairs(ps.take(i + 1)) == enc_pairs(ps.take(i)) + enc_pair(ps[i]),
    decreases i,
{
    if i == 0 {
        assert(ps.take(1)[0] == ps[0]);
        assert(ps.take(1).drop_first() =~= Seq::<PairView>::empty());
        assert(enc_pairs(Seq::<PairView>::empty()) =~= Seq::<u8>::empty());
        assert(enc_pairs(ps.take(1)) == enc_pair(ps[0]) + enc_pairs(ps.take(1).drop_first()));
        assert(enc_pairs(ps.take(1)) =~= enc_pair(ps[0]));
        assert(ps.take(0) =~= Seq::<PairView>::empty());
        assert(enc_pairs(ps.take(0)) + enc_pair(ps[0]) =~= enc_pair(ps[0]));
    } else {
        let t = ps.drop_first();
        lemma_enc_pairs_snoc(t, i - 1);
        assert(ps.take(i + 1)[0] == ps[0]);
        assert(ps.take(i + 1).drop_first() =~= t.take(i));
        assert(ps.take(i)[0] == ps[0]);
        assert(ps.take(i).drop_first() =~= t.take(i - 1));
        assert(enc_pairs(ps.take(i + 1)) == enc_pair(ps[0]) + enc_pairs(t.take(i)));
        assert(enc_pairs(ps.take(i)) == enc_pair(ps[0]) + enc_pairs(t.take(i - 1)));
        assert(t[i - 1] == ps[i]);
        assert(enc_pair(ps[0]) + (enc_pairs(t.take(i - 1)) + enc_pair(ps[i])) =~= (enc_pair(ps[0])
            + enc_pairs(t.take(i - 1))) + enc_pair(ps[i]));
    }
}

fn push_chunk(out: &mut Vec<u8>, b: &Vec<u8>)
    ensures
        final(out)@ == old(out)@ + enc_chunk(b@),
        b@.len() < 0x1_0000_0000_0000_0000,
{
    let bl = b.len();
    assert(b@.len() == bl);
    let mut l8 = u64_to_le_bytes(bl as u64);
    out.append(&mut l8);
    let mut bb = slice_to_vec(b.as_slice());
    out.append(&mut bb);
    assert(final(out)@ =~= old(out)@ + enc_chunk(b@));
}

impl Secret {
    /// A new secret stamped with the current time.
    pub fn new(name: &str, contents: Vec<Pair>) -> (s: Secret)
        ensures
            s@.name == name@,
            s@.contents == pairs_view(contents@),
    {
        Secret { name: name.to_owned(), contents, last_modified: now_timestamp() }
    }

    pub fn get_name(&self) -> (r: &str)
        ensures
            r@ == self@.name,
    {
        self.name.as_str()
    }

    pub fn get_contents(&self) -> (r: Vec<Pair>)
        ensures
            pairs_view(r@) == self@.contents,
    {
        let mut r: Vec<Pair> = Vec::new();
        let mut i: usize = 0;
        while i < self.contents.len()
            invariant
                i <= self.contents@.len(),
                r@.len() == i,
                forall|j: int| 0 <= j < i ==> r@[j]@ == self.contents@[j]@,
            decreases self.contents@.len() - i,
        {
            r.push(self.contents[i].clone());
            i = i + 1;
        }
        assert(pairs_view(r@) =~= pairs_view(self.contents@));
        r
    }

    /// The canonical serialized form, as `secret_bytes` describes.
    pub fn to_bytes(&self) -> (r: Vec<u8>)
        ensures
            r@ == secret_bytes(self@),
            wf_secret_view(self@),
    {
        let mut out: Vec<u8> = Vec::new();
        let nb = self.name.as_str().as_bytes_vec();
        push_chunk(&mut out, &nb);
        let mut lm8 = u64_to_le_bytes(i64_bits_x(self.last_modified));
        out.append(&mut lm8);
        let mut np8 = u64_to_le_bytes(self.contents.len() as u64);
        out.append(&mut np8);
        let ghost header = out@;
        let ghost cv = pairs_view(self.contents@);
        assert(enc_pairs(cv.take(0)) =~= Seq::<u8>::empty());
        assert(out@ =~= header + enc_pairs(cv.take(0)));
        let mut i: usize = 0;
        while i < self.contents.len()
            invariant
                i <= self.contents@.len(),
                cv == pairs_view(self.contents@),
                cv.len() == self.contents@.len(),
                out@ == header + enc_pairs(cv.take(i as int)),
                forall|j: int|
                    0 <= j < i ==> encode_utf8(#[trigger] cv[j].key).len()
                        < 0x1_0000_0000_0000_0000 && encode_utf8(cv[j].value).len()
                        < 0x1_0000_0000_0000_0000,
            decreases self.contents@.len() - i,
        {
            let kb = self.contents[i].key.as_str().as_bytes_vec();
            push_chunk(&mut out, &kb);
            let vb = self.contents[i].value.as_str().as_bytes_vec();
            push_chunk(&mut out, &vb);
            assert(encode_utf8(cv[i as int].key).len() < 0x1_0000_0000_0000_0000);
            assert(encode_utf8(cv[i as int].value).len() < 0x1_0000_0000_0000_0000);
            proof {
                assert forall|j: int|
                    0 <= j < i + 1 implies encode_utf8(#[trigger] cv[j].key).len()
                    < 0x1_0000_0000_0000_0000 && encode_utf8(cv[j].value).len()
                    < 0x1_0000_0000_0000_0000 by {
                    if j == i as int {
                        assert(encode_utf8(cv[j].key).len() < 0x1_0000_0000_0000_0000);
                    }
                }
                lemma_enc_pairs_snoc(cv, i as int);
                assert(cv[i as int] == self.contents@[i as int]@);
                assert((header + enc_pairs(cv.take(i as int))) + enc_chunk(
                    encode_utf8(cv[i as int].key),
                ) + enc_chunk(encode_utf8(cv[i as int].value)) =~= header + enc_pairs(
                    cv.take(i as int + 1),
                ));
            }
            i = i + 1;
        }
        proof {
            assert(cv.take(cv.len() as int) =~= cv);
            assert(header + enc_pairs(cv) =~= secret_bytes(self@));
        }
        out
    }

    /// Parses the canonical serialized form; the exact inverse of `to_bytes`.
    pub fn from_bytes(b: &Vec<u8>) -> (r: Option<Secret>)
        ensures
            r matches Some(s) ==> parse_secret(b@) == Some(s@),
            r is None ==> parse_secret(b@) is None,
    {
        let total = b.len();
        proof {
            assert(b@.subrange(0, total as int) =~= b@);
        }
        let (nb, p1) = match read_chunk(b, 0) {
            Option::Some(x) => x,
            Option::None => {
                return None;
            },
        };
        let ghost nbv = nb@;
        let name = match string_from_utf8(nb) {
            Option::Some(s) => s,
            Option::None => {
                return None;
            },
        };
        let ghost namev = name@;
        if total - p1 < 16 {
            return None;
        }
        let ghost r1 = b@.subrange(p1 as int, total as int);
        let s8 = slice_subrange(b.as_slice(), p1, p1 + 8);
        assert(s8@ =~= r1.subrange(0, 8));
        let lm = bits_i64_x(u64_from_le_bytes(s8));
        let s8b = slice_subrange(b.as_slice(), p1 + 8, p1 + 16);
        assert(s8b@ =~= r1.subrange(8, 16));
        let np = u64_from_le_bytes(s8b);
        let pos0 = p1 + 16;
        let ghost r2 = b@.subrange(pos0 as int, total as int);
        assert(r2 =~= r1.subrange(16, r1.len() as int));
        // how the whole parse is decided by the remaining pair section
        assert(parse_pairs(r2, np as nat) is None ==> parse_secret(b@) is None);
        assert(forall|ps: Seq<PairView>, rest: Seq<u8>|
            parse_pairs(r2, np as nat) == Some::<(Seq<PairView>, Seq<u8>)>((ps, rest))
                ==> parse_secret(b@) == (if rest.len() == 0 {
                Some(SecretView { name: namev, contents: ps, last_modified: lm })
            } else {
                None::<SecretView>
            }));
        let remaining = total - pos0;
        if np > (remaining / 16) as u64 {
            proof {
                lemma_parse_pairs_min_len(r2, np as nat);
            }
            return None;
        }
        let npu = np as usize;
        let mut acc: Vec<Pair> = Vec::new();
        let mut pos: usize = pos0;
        let mut i: usize = 0;
        while i < npu
            invariant
                i <= npu,
                npu == np,
                pos0 <= pos <= total,
                total == b@.len(),
                r2 == b@.subrange(pos0 as int, total as int),
                acc@.len() == i,
                parse_pairs(r2, np as nat) == match parse_pairs(
                    b@.subrange(pos as int, total as int),
                    (np - i) as nat,
                ) {
                    Option::None => None::<(Seq<PairView>, Seq<u8>)>,
                    Option::Some((ps, rest)) => Some((pairs_view(acc@) + ps, rest)),
                },
                parse_pairs(r2, np as nat) is None ==> parse_secret(b@) is None,
                forall|ps: Seq<PairView>, rest: Seq<u8>|
                    parse_pairs(r2, np as nat) == Some::<(Seq<PairView>, Seq<u8>)>((ps, rest))
                        ==> parse_secret(b@) == (if rest.len() == 0 {
                        Some(SecretView { name: namev, contents: ps, last_modified: lm })
                    } else {
                        None::<SecretView>
                    }),
            decreases npu - i,
        {
            let ghost cur = b@.subrange(pos as int, total as int);
            let ghost k = (np - i) as nat;
            assert(k > 0);
            let (kb, p2) = match read_chunk(b, pos) {
                Option::Some(x) => x,
                Option::None => {
                    assert(parse_pairs(cur, k) is None);
                    return None;
                },
            };
            let ghost kbv = kb@;
            let ghost cur2 = b@.subrange(p2 as int, total as int);
            let key = match string_from_utf8(kb) {
                Option::Some(s) => s,
                Option::None => {
                    assert(parse_pairs(cur, k) is None);
                    return None;
                },
            };
            let (vb, p3) = match read_chunk(b, p2) {
                Option::Some(x) => x,
                Option::None => {
                    assert(parse_pairs(cur, k) is None);
                    return None;
                },
            };
            let ghost vbv = vb@;
            let ghost cur3 = b@.subrange(p3 as int, total as int);
            let value = match string_from_utf8(vb) {
                Option::Some(s) => s,
                Option::None => {
                    assert(parse_pairs(cur, k) is None);
                    return None;
                },
            };
            let ghost old_acc = acc@;
            acc.push(Pair { key, value });
            proof {
                assert(pairs_view(acc@) =~= pairs_view(old_acc) + seq![
                    PairView { key: decode_utf8(kbv), value: decode_utf8(vbv) },
                ]);
                let pv = PairView { key: decode_utf8(kbv), value: decode_utf8(vbv) };
                match parse_pairs(cur3, (k - 1) as nat) {
                    Option::None => {
                        assert(parse_pairs(cur, k) is None);
                    },
                    Option::Some((ps, rest)) => {
                        assert(parse_pairs(cur, k) == Some::<(Seq<PairView>, Seq<u8>)>(
                            (seq![pv] + ps, rest),
                        ));
                        assert(pairs_view(old_acc) + (seq![pv] + ps) =~= pairs_view(acc@) + ps);
                    },
                }
            }
            pos = p3;
            i = i + 1;
        }
        proof {
            let cur = b@.subrange(pos as int, total as int);
            assert(parse_pairs(cur, 0) == Some((Seq::<PairView>::empty(), cur)));
            assert(pairs_view(acc@) + Seq::<PairView>::empty() =~= pairs_view(acc@));
        }
        if pos != total {
            proof {
                let cur = b@.subrange(pos as int, total as int);
                assert(cur.len() > 0);
            }
            return None;
        }
        let s = Secret { name, contents: acc, last_modified: lm };
        proof {
            let cur = b@.subrange(pos as int, total as int);
            assert(cur.len() == 0);
            assert(parse_secret(b@) == Some(s@));
        }
        Some(s)
    }
}

/// Reads one length-prefixed chunk starting at `pos`; mirrors `parse_chunk`
/// on the suffix of `b`.
fn read_chunk(b: &Vec<u8>, pos: usize) -> (r: Option<(Vec<u8>, usize)>)
    requires
        pos <= b@.len(),
    ensures
        r matches Some((c, p2)) ==> pos <= p2 <= b@.len() && parse_chunk(
            b@.subrange(pos as int, b@.len() as int),
        ) == Some((c@, b@.subrange(p2 as int, b@.len() as int))),
        r is None ==> parse_chunk(b@.subrange(pos as int, b@.len() as int)) is None,
{
    let n = b.len();
    let ghost suf = b@.subrange(pos as int, n as int);
    if n - pos < 8 {
        return None;
    }
    let s8 = slice_subrange(b.as_slice(), pos, pos + 8);
    assert(s8@ =~= suf.subrange(0, 8));
    let ln = u64_from_le_bytes(s8);
    if ln > (n - pos - 8) as u64 {
        return None;
    }
    let cl = ln as usize;
    let c = slice_to_vec(slice_subrange(b.as_slice(), pos + 8, pos + 8 + cl));
    let p2 = pos + 8 + cl;
    proof {
        assert(c@ =~= suf.subrange(8, 8 + ln as int));
        assert(b@.subrange(p2 as int, n as int) =~= suf.subrange(8 + ln as int, suf.len() as int));
    }
    Some((c, p2))
}

} // verus!
