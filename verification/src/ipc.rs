//! The one request/response model shared by every transport, its JSON wire
//! codec, and the length-prefixed native-messaging frame.
//!
//! A request is `{action, domain?, username?, password?}`; a response is
//! `{ok, username?, password?, message?, error?}`. The emitter writes the
//! compact canonical form with every field present (`null` for an absent
//! one); the parser reads that canonical form back
//! (`lemma_parse_request_roundtrip`, `lemma_parse_response_roundtrip`).

use vstd::prelude::*;
use vstd::bytes::{spec_u32_to_le_bytes, spec_u32_from_le_bytes, u32_to_le_bytes, u32_from_le_bytes};
use crate::text::{has_prefix, chars_of, string_of, eq_chars};

verus! {

/// One vault request, however it arrived.
pub struct IpcRequest {
    pub action: String,
    pub domain: Option<String>,
    pub username: Option<String>,
    pub password: Option<String>,
}

/// One vault response, however it leaves.
pub struct IpcResponse {
    pub ok: bool,
    pub username: Option<String>,
    pub password: Option<String>,
    pub message: Option<String>,
    pub error: Option<String>,
}

pub struct ReqView {
    pub action: Seq<char>,
    pub domain: Option<Seq<char>>,
    pub username: Option<Seq<char>>,
    pub password: Option<Seq<char>>,
}

pub struct RespView {
    pub ok: bool,
    pub username: Option<Seq<char>>,
    pub password: Option<Seq<char>>,
    pub message: Option<Seq<char>>,
    pub error: Option<Seq<char>>,
}

pub open spec fn opt_view(o: Option<String>) -> Option<Seq<char>> {
    match o {
        Option::Some(s) => Some(s@),
        Option::None => None,
    }
}

impl View for IpcRequest {
    type V = ReqView;

    open spec fn view(&self) -> ReqView {
        ReqView {
            action: self.action@,
            domain: opt_view(self.domain),
            username: opt_view(self.username),
            password: opt_view(self.password),
        }
    }
}

impl View for IpcResponse {
    type V = RespView;

    open spec fn view(&self) -> RespView {
        RespView {
            ok: self.ok,
            username: opt_view(self.username),
            password: opt_view(self.password),
            message: opt_view(self.message),
            error: opt_view(self.error),
        }
    }
}

/// The fixed well-known local socket path (Unix).
pub fn get_socket_path() -> (r: String)
    ensures
        r@ == "/tmp/grimoire.sock"@,
{
    "/tmp/grimoire.sock".to_owned()
}

/// The fixed well-known pipe name (Windows).
pub fn get_pipe_name() -> (r: String)
    ensures
        r@ == "\\\\.\\pipe\\grimoire"@,
{
    "\\\\.\\pipe\\grimoire".to_owned()
}

// --- JSON string escaping ---

pub open spec fn hex_char(d: u32) -> char {
    if d < 10 {
        ((48 + d) as u8) as char
    } else {
        ((87 + d) as u8) as char
    }
}

pub open spec fn hex_val(c: char) -> u32 {
    let u = c as u32;
    if 48 <= u && u <= 57 {
        (u - 48) as u32
    } else if 97 <= u && u <= 102 {
        (u - 87) as u32
    } else if 65 <= u && u <= 70 {
        (u - 55) as u32
    } else {
        16
    }
}

/// How one character appears inside a JSON string literal: quote and
/// backslash escaped, the five named control characters by their short
/// escapes, other control characters as `\u00xx`, all else verbatim.
pub open spec fn esc_char(c: char) -> Seq<char> {
    if c == '"' {
        seq!['\\', '"']
    } else if c == '\\' {
        seq!['\\', '\\']
    } else if c == '\u{8}' {
        seq!['\\', 'b']
    } else if c == '\u{c}' {
        seq!['\\', 'f']
    } else if c == '\n' {
        seq!['\\', 'n']
    } else if c == '\r' {
        seq!['\\', 'r']
    } else if c == '\t' {
        seq!['\\', 't']
    } else if (c as u32) < 32 {
        seq!['\\', 'u', '0', '0', hex_char((c as u32) / 16), hex_char((c as u32) % 16)]
    } else {
        seq![c]
    }
}

pub open spec fn json_escape(s: Seq<char>) -> Seq<char>
    decreases s.len(),
{
    if s.len() == 0 {
        Seq::empty()
    } else {
        esc_char(s[0]) + json_escape(s.drop_first())
    }
}

/// A quoted, escaped string literal.
pub open spec fn jstring(s: Seq<char>) -> Seq<char> {
    seq!['"'] + json_escape(s) + seq!['"']
}

pub open spec fn null_text() -> Seq<char> {
    seq!['n', 'u', 'l', 'l']
}

pub open spec fn emit_opt(o: Option<Seq<char>>) -> Seq<char> {
    match o {
        Option::Some(s) => jstring(s),
        Option::None => null_text(),
    }
}

pub open spec fn req_open() -> Seq<char> {
    seq!['{', '"', 'a', 'c', 't', 'i', 'o', 'n', '"', ':']
}

pub open spec fn req_domain_key() -> Seq<char> {
    seq![',', '"', 'd', 'o', 'm', 'a', 'i', 'n', '"', ':']
}

pub open spec fn req_username_key() -> Seq<char> {
    seq![',', '"', 'u', 's', 'e', 'r', 'n', 'a', 'm', 'e', '"', ':']
}

pub open spec fn req_password_key() -> Seq<char> {
    seq![',', '"', 'p', 'a', 's', 's', 'w', 'o', 'r', 'd', '"', ':']
}

/// The canonical request wire text.
pub open spec fn emit_request_text(q: ReqView) -> Seq<char> {
    req_open() + (jstring(q.action) + (req_domain_key() + (emit_opt(q.domain) + (req_username_key()
        + (emit_opt(q.username) + (req_password_key() + (emit_opt(q.password) + seq!['}'])))))))
}

pub open spec fn resp_open() -> Seq<char> {
    seq!['{', '"', 'o', 'k', '"', ':']
}

pub open spec fn true_text() -> Seq<char> {
    seq!['t', 'r', 'u', 'e']
}

pub open spec fn false_text() -> Seq<char> {
    seq!['f', 'a', 'l', 's', 'e']
}

pub open spec fn resp_username_key() -> Seq<char> {
    seq![',', '"', 'u', 's', 'e', 'r', 'n', 'a', 'm', 'e', '"', ':']
}

pub open spec fn resp_password_key() -> Seq<char> {
    seq![',', '"', 'p', 'a', 's', 's', 'w', 'o', 'r', 'd', '"', ':']
}

pub open spec fn resp_message_key() -> Seq<char> {
    seq![',', '"', 'm', 'e', 's', 's', 'a', 'g', 'e', '"', ':']
}

pub open spec fn resp_error_key() -> Seq<char> {
    seq![',', '"', 'e', 'r', 'r', 'o', 'r', '"', ':']
}

/// The canonical response wire text.
pub open spec fn emit_response_text(v: RespView) -> Seq<char> {
    resp_open() + ((if v.ok {
        true_text()
    } else {
        false_text()
    }) + (resp_username_key() + (emit_opt(v.username) + (resp_password_key() + (emit_opt(v.password)
        + (resp_message_key() + (emit_opt(v.message) + (resp_error_key() + (emit_opt(v.error)
        + seq!['}'])))))))))
}

// --- JSON string parsing (the canonical escapes) ---

/// Decodes a string literal body up to its closing quote; returns the content
/// and what follows the quote.
pub open spec fn parse_jstring(s: Seq<char>) -> Option<(Seq<char>, Seq<char>)>
    decreases s.len(),
{
    if s.len() == 0 {
        None
    } else if s[0] == '"' {
        Some((Seq::empty(), s.drop_first()))
    } else if s[0] == '\\' {
        if s.len() < 2 {
            None
        } else {
            let e = s[1];
            if e == '"' || e == '\\' || e == '/' {
                match parse_jstring(s.subrange(2, s.len() as int)) {
                    Option::None => None,
                    Option::Some((c, r)) => Some((seq![e] + c, r)),
                }
            } else if e == 'b' || e == 'f' || e == 'n' || e == 'r' || e == 't' {
                let d = if e == 'b' {
                    '\u{8}'
                } else if e == 'f' {
                    '\u{c}'
                } else if e == 'n' {
                    '\n'
                } else if e == 'r' {
                    '\r'
                } else {
                    '\t'
                };
                match parse_jstring(s.subrange(2, s.len() as int)) {
                    Option::None => None,
                    Option::Some((c, r)) => Some((seq![d] + c, r)),
                }
            } else if e == 'u' {
                if s.len() < 6 {
                    None
                } else {
                    let v = hex_val(s[2]) * 4096 + hex_val(s[3]) * 256 + hex_val(s[4]) * 16
                        + hex_val(s[5]);
                    if hex_val(s[2]) < 16 && hex_val(s[3]) < 16 && hex_val(s[4]) < 16 && hex_val(
                        s[5],
                    ) < 16 && (v < 0xD800 || v >= 0xE000) {
                        match parse_jstring(s.subrange(6, s.len() as int)) {
                            Option::None => None,
                            Option::Some((c, r)) => Some((seq![v as char] + c, r)),
                        }
                    } else {
                        None
                    }
                }
            } else {
                None
            }
        }
    } else {
        match parse_jstring(s.drop_first()) {
            Option::None => None,
            Option::Some((c, r)) => Some((seq![s[0]] + c, r)),
        }
    }
}

/// A `null` or a string literal, with what follows.
pub open spec fn parse_opt(s: Seq<char>) -> Option<(Option<Seq<char>>, Seq<char>)> {
    if has_prefix(s, null_text()) {
        Some((None, s.subrange(4, s.len() as int)))
    } else if s.len() >= 1 && s[0] == '"' {
        match parse_jstring(s.drop_first()) {
            Option::None => None,
            Option::Some((c, r)) => Some((Some(c), r)),
        }
    } else {
        None
    }
}

/// JSON whitespace between tokens.
pub open spec fn is_json_ws(c: char) -> bool {
    c == ' ' || c == '\t' || c == '\n' || c == '\r'
}

/// Index of the first character that is not JSON whitespace, or the length.
pub open spec fn ws_end(s: Seq<char>) -> int
    decreases s.len(),
{
    if s.len() == 0 {
        0
    } else if !is_json_ws(s[0]) {
        0
    } else {
        1 + ws_end(s.drop_first())
    }
}

pub open spec fn skip_ws(s: Seq<char>) -> Seq<char> {
    s.subrange(ws_end(s), s.len() as int)
}

/// The characters a JSON number is written with.
pub open spec fn is_num_char(c: char) -> bool {
    (48 <= c as u32 && c as u32 <= 57) || c == '-' || c == '+' || c == '.' || c == 'e' || c == 'E'
}

/// Index of the first character that cannot continue a number, or the length.
pub open spec fn num_end(s: Seq<char>) -> int
    decreases s.len(),
{
    if s.len() == 0 {
        0
    } else if !is_num_char(s[0]) {
        0
    } else {
        1 + num_end(s.drop_first())
    }
}

/// A JSON value as far as a request field needs it: a string, a null, or
/// some other scalar (skipped when it sits under an unknown key).
pub enum JVal {
    JStr(Seq<char>),
    JNull,
    JOther,
}

/// One JSON scalar value with what follows it; nested objects and arrays are
/// not accepted.
pub open spec fn parse_value(s: Seq<char>) -> Option<(JVal, Seq<char>)> {
    if s.len() == 0 {
        None
    } else if s[0] == '"' {
        match parse_jstring(s.drop_first()) {
            Option::None => None,
            Option::Some((c, r)) => Some((JVal::JStr(c), r)),
        }
    } else if has_prefix(s, null_text()) {
        Some((JVal::JNull, s.subrange(4, s.len() as int)))
    } else if has_prefix(s, true_text()) {
        Some((JVal::JOther, s.subrange(4, s.len() as int)))
    } else if has_prefix(s, false_text()) {
        Some((JVal::JOther, s.subrange(5, s.len() as int)))
    } else if is_num_char(s[0]) {
        Some((JVal::JOther, s.subrange(num_end(s), s.len() as int)))
    } else {
        None
    }
}

/// The request fields collected while reading members; a later duplicate key
/// overwrites an earlier one.
pub struct ReqAcc {
    pub action: Option<Seq<char>>,
    pub domain: Option<Seq<char>>,
    pub username: Option<Seq<char>>,
    pub password: Option<Seq<char>>,
}

pub open spec fn empty_acc() -> ReqAcc {
    ReqAcc { action: None, domain: None, username: None, password: None }
}

/// Records one member: the known fields take strings (the optional ones also
/// `null`); an unknown key takes any scalar and is ignored.
pub open spec fn assign_field(acc: ReqAcc, k: Seq<char>, v: JVal) -> Option<ReqAcc> {
    if k == "action"@ {
        match v {
            JVal::JStr(s) => Some(ReqAcc { action: Some(s), ..acc }),
            _ => None,
        }
    } else if k == "domain"@ {
        match v {
            JVal::JStr(s) => Some(ReqAcc { domain: Some(s), ..acc }),
            JVal::JNull => Some(ReqAcc { domain: None, ..acc }),
            JVal::JOther => None,
        }
    } else if k == "username"@ {
        match v {
            JVal::JStr(s) => Some(ReqAcc { username: Some(s), ..acc }),
            JVal::JNull => Some(ReqAcc { username: None, ..acc }),
            JVal::JOther => None,
        }
    } else if k == "password"@ {
        match v {
            JVal::JStr(s) => Some(ReqAcc { password: Some(s), ..acc }),
            JVal::JNull => Some(ReqAcc { password: None, ..acc }),
            JVal::JOther => None,
        }
    } else {
        Some(acc)
    }
}

/// The members of a request object, from just after `{` or a separating `,`
/// to the closing `}` and trailing whitespace.
pub open spec fn parse_members(s: Seq<char>, acc: ReqAcc) -> Option<ReqAcc>
    decreases s.len(),
{
    let t = skip_ws(s);
    if t.len() < 1 || t[0] != '"' {
        None
    } else {
        match parse_jstring(t.drop_first()) {
            Option::None => None,
            Option::Some((k, r1)) => {
                let r2 = skip_ws(r1);
                if r2.len() < 1 || r2[0] != ':' {
                    None
                } else {
                    let r3 = skip_ws(r2.drop_first());
                    match parse_value(r3) {
                        Option::None => None,
                        Option::Some((v, r4)) => {
                            match assign_field(acc, k, v) {
                                Option::None => None,
                                Option::Some(acc2) => {
                                    let r5 = skip_ws(r4);
                                    if r5.len() < 1 {
                                        None
                                    } else if r5[0] == '}' {
                                        if skip_ws(r5.drop_first()).len() == 0 {
                                            Some(acc2)
                                        } else {
                                            None
                                        }
                                    } else if r5[0] == ',' && r5.drop_first().len() < s.len() {
                                        parse_members(r5.drop_first(), acc2)
                                    } else {
                                        None
                                    }
                                },
                            }
                        },
                    }
                }
            },
        }
    }
}

/// Lenient parse of a request: one JSON object holding the request fields in
/// any order, with JSON whitespace anywhere between tokens; absent optional
/// fields read as absent, `action` is required, and unknown keys with scalar
/// values are ignored.
pub open spec fn parse_request_text(s: Seq<char>) -> Option<ReqView> {
    let t = skip_ws(s);
    if t.len() < 1 || t[0] != '{' {
        None
    } else {
        match parse_members(t.drop_first(), empty_acc()) {
            Option::None => None,
            Option::Some(acc) => match acc.action {
                Option::Some(a) => Some(
                    ReqView {
                        action: a,
                        domain: acc.domain,
                        username: acc.username,
                        password: acc.password,
                    },
                ),
                Option::None => None,
            },
        }
    }
}

/// Strict parse of the canonical response text, staged field by field.
pub open spec fn parse_resp_after_message(
    r3: Seq<char>,
    ok: bool,
    username: Option<Seq<char>>,
    password: Option<Seq<char>>,
    message: Option<Seq<char>>,
) -> Option<RespView> {
    if !has_prefix(r3, resp_error_key()) {
        None
    } else {
        match parse_opt(r3.subrange(resp_error_key().len() as int, r3.len() as int)) {
            Option::None => None,
            Option::Some((error, r4)) => {
                if r4 == seq!['}'] {
                    Some(RespView { ok, username, password, message, error })
                } else {
                    None
                }
            },
        }
    }
}

pub open spec fn parse_resp_after_password(
    r2: Seq<char>,
    ok: bool,
    username: Option<Seq<char>>,
    password: Option<Seq<char>>,
) -> Option<RespView> {
    if !has_prefix(r2, resp_message_key()) {
        None
    } else {
        match parse_opt(r2.subrange(resp_message_key().len() as int, r2.len() as int)) {
            Option::None => None,
            Option::Some((message, r3)) => parse_resp_after_message(
                r3,
                ok,
                username,
                password,
                message,
            ),
        }
    }
}

pub open spec fn parse_resp_after_username(
    r1: Seq<char>,
    ok: bool,
    username: Option<Seq<char>>,
) -> Option<RespView> {
    if !has_prefix(r1, resp_password_key()) {
        None
    } else {
        match parse_opt(r1.subrange(resp_password_key().len() as int, r1.len() as int)) {
            Option::None => None,
            Option::Some((password, r2)) => parse_resp_after_password(r2, ok, username, password),
        }
    }
}

pub open spec fn parse_resp_after_ok(r0: Seq<char>, ok: bool) -> Option<RespView> {
    if !has_prefix(r0, resp_username_key()) {
        None
    } else {
        match parse_opt(r0.subrange(resp_username_key().len() as int, r0.len() as int)) {
            Option::None => None,
            Option::Some((username, r1)) => parse_resp_after_username(r1, ok, username),
        }
    }
}

pub open spec fn parse_response_text(s: Seq<char>) -> Option<RespView> {
    if !has_prefix(s, resp_open()) {
        None
    } else {
        let s1 = s.subrange(resp_open().len() as int, s.len() as int);
        if has_prefix(s1, true_text()) {
            parse_resp_after_ok(s1.subrange(4, s1.len() as int), true)
        } else if has_prefix(s1, false_text()) {
            parse_resp_after_ok(s1.subrange(5, s1.len() as int), false)
        } else {
            None
        }
    }
}

proof fn lemma_hex_char_val(d: u32)
    requires
        d < 16,
    ensures
        hex_val(hex_char(d)) == d,
        hex_char(d) != '"' && hex_char(d) != '\\',
{
}

proof fn lemma_json_escape_concat(a: Seq<char>, b: Seq<char>)
    ensures
        json_escape(a + b) == json_escape(a) + json_escape(b),
    decreases a.len(),
{
    if a.len() == 0 {
        assert(a + b =~= b);
        assert(json_escape(a) + json_escape(b) =~= json_escape(b));
    } else {
        assert((a + b)[0] == a[0]);
        assert((a + b).drop_first() =~= a.drop_first() + b);
        lemma_json_escape_concat(a.drop_first(), b);
        assert(esc_char(a[0]) + (json_escape(a.drop_first()) + json_escape(b)) =~= (esc_char(a[0])
            + json_escape(a.drop_first())) + json_escape(b));
    }
}

proof fn lemma_json_escape_snoc(s: Seq<char>, i: int)
    requires
        0 <= i < s.len(),
    ensures
        json_escape(s.take(i + 1)) == json_escape(s.take(i)) + esc_char(s[i]),
{
    assert(s.take(i + 1) =~= s.take(i) + seq![s[i]]);
    lemma_json_escape_concat(s.take(i), seq![s[i]]);
    assert(seq![s[i]].drop_first() =~= Seq::<char>::empty());
    assert(json_escape(Seq::<char>::empty()) =~= Seq::<char>::empty());
    assert(json_escape(seq![s[i]]) == esc_char(seq![s[i]][0]) + json_escape(
        seq![s[i]].drop_first(),
    ));
    assert(seq![s[i]][0] == s[i]);
    assert(json_escape(seq![s[i]]) =~= esc_char(s[i]));
}

/// Decoding inverts escaping: the escaped text, closed by a quote, reads back
/// as the original content.
#[verifier::rlimit(100)]
#[verifier::spinoff_prover]
pub proof fn lemma_parse_jstring_of_escape(v: Seq<char>, rest: Seq<char>)
    ensures
        parse_jstring(json_escape(v) + seq!['"'] + rest) == Some((v, rest)),
    decreases v.len(),
{
    broadcast use vstd::utf8::char_u32_cast;

    let s = json_escape(v) + seq!['"'] + rest;
    if v.len() == 0 {
        assert(s[0] == '"');
        assert(s.drop_first() =~= rest);
        assert(v =~= Seq::<char>::empty());
    } else {
        let c = v[0];
        let tail = json_escape(v.drop_first()) + seq!['"'] + rest;
        lemma_parse_jstring_of_escape(v.drop_first(), rest);
        assert(s =~= esc_char(c) + tail);
        if c == '"' {
            assert(s[0] == '\\' && s[1] == '"');
            assert(s.subrange(2, s.len() as int) =~= tail);
            assert(seq![c] + v.drop_first() =~= v);
        } else if c == '\\' {
            assert(s[0] == '\\' && s[1] == '\\');
            assert(s.subrange(2, s.len() as int) =~= tail);
            assert(seq![c] + v.drop_first() =~= v);
        } else if c == '\u{8}' || c == '\u{c}' || c == '\n' || c == '\r' || c == '\t' {
            assert(s[0] == '\\');
            assert(s[1] == 'b' || s[1] == 'f' || s[1] == 'n' || s[1] == 'r' || s[1] == 't');
            assert(s.subrange(2, s.len() as int) =~= tail);
            assert(seq![c] + v.drop_first() =~= v);
        } else if (c as u32) < 32 {
            let u = c as u32;
            assert(s[0] == '\\' && s[1] == 'u');
            assert(s[2] == '0' && s[3] == '0');
            assert(s[4] == hex_char(u / 16) && s[5] == hex_char(u % 16));
            lemma_hex_char_val(0);
            lemma_hex_char_val(u / 16);
            lemma_hex_char_val(u % 16);
            assert(hex_val(s[2]) * 4096 + hex_val(s[3]) * 256 + hex_val(s[4]) * 16 + hex_val(s[5])
                == u);
            assert(u < 0xD800);
            vstd::utf8::char_u32_cast(c, u);
            assert((u as char) == c);
            assert(s.subrange(6, s.len() as int) =~= tail);
            assert(seq![c] + v.drop_first() =~= v);
        } else {
            assert(s[0] == c);
            assert(c != '"' && c != '\\');
            assert(s.drop_first() =~= tail);
            assert(seq![c] + v.drop_first() =~= v);
        }
    }
}

proof fn lemma_parse_opt_of_emit(o: Option<Seq<char>>, rest: Seq<char>)
    ensures
        parse_opt(emit_opt(o) + rest) == Some((o, rest)),
{
    let s = emit_opt(o) + rest;
    match o {
        Option::None => {
            assert(has_prefix(s, null_text())) by {
                assert(s.subrange(0, 4) =~= null_text());
            }
            assert(s.subrange(4, s.len() as int) =~= rest);
        },
        Option::Some(v) => {
            assert(s[0] == '"');
            assert(!has_prefix(s, null_text())) by {
                if has_prefix(s, null_text()) {
                    assert(s.subrange(0, 4)[0] == 'n');
                }
            }
            assert(s.drop_first() =~= json_escape(v) + seq!['"'] + rest);
            lemma_parse_jstring_of_escape(v, rest);
        },
    }
}

proof fn lemma_skip_ws_id(s: Seq<char>)
    requires
        s.len() == 0 || !is_json_ws(s[0]),
    ensures
        skip_ws(s) == s,
{
    lemma_ws_end_of(s, 0);
    assert(s.subrange(0, s.len() as int) =~= s);
}

proof fn lemma_json_escape_plain(s: Seq<char>)
    requires
        forall|i: int| 0 <= i < s.len() ==> #[trigger] s[i] != '"' && s[i] != '\\' && (s[i] as u32) >= 32,
    ensures
        json_escape(s) == s,
    decreases s.len(),
{
    if s.len() == 0 {
        assert(json_escape(s) =~= s);
    } else {
        assert forall|i: int| 0 <= i < s.drop_first().len() implies #[trigger] s.drop_first()[i]
            != '"' && s.drop_first()[i] != '\\' && (s.drop_first()[i] as u32) >= 32 by {
            assert(s.drop_first()[i] == s[i + 1]);
        }
        lemma_json_escape_plain(s.drop_first());
        assert(esc_char(s[0]) =~= seq![s[0]]);
        assert(json_escape(s) =~= s);
    }
}

/// One member of the canonical text: `"<key>":<value>` followed by the rest,
/// read back as the key, the value and the rest.
proof fn lemma_member_of_emit(key: Seq<char>, v: Option<Seq<char>>, rest: Seq<char>)
    requires
        key.len() >= 1,
        forall|i: int| 0 <= i < key.len() ==> #[trigger] key[i] != '"' && key[i] != '\\' && (
        key[i] as u32) >= 32,
    ensures
        ({
            let m = seq!['"'] + key + seq!['"', ':'] + emit_opt(v) + rest;
            &&& skip_ws(m) == m
            &&& m[0] == '"'
            &&& parse_jstring(m.drop_first()) == Some((key, seq![':'] + emit_opt(v) + rest))
            &&& skip_ws(seq![':'] + emit_opt(v) + rest) == seq![':'] + emit_opt(v) + rest
            &&& (seq![':'] + emit_opt(v) + rest).drop_first() == emit_opt(v) + rest
            &&& skip_ws(emit_opt(v) + rest) == emit_opt(v) + rest
            &&& parse_value(emit_opt(v) + rest) == Some(
                (
                    match v {
                        Option::Some(sv) => JVal::JStr(sv),
                        Option::None => JVal::JNull,
                    },
                    rest,
                ),
            )
        }),
{
    let m = seq!['"'] + key + seq!['"', ':'] + emit_opt(v) + rest;
    assert(m[0] == '"');
    lemma_skip_ws_id(m);
    lemma_json_escape_plain(key);
    let after_key = seq![':'] + emit_opt(v) + rest;
    assert(m.drop_first() =~= json_escape(key) + seq!['"'] + after_key);
    lemma_parse_jstring_of_escape(key, after_key);
    lemma_skip_ws_id(after_key);
    assert(after_key.drop_first() =~= emit_opt(v) + rest);
    let vr = emit_opt(v) + rest;
    match v {
        Option::Some(sv) => {
            assert(vr[0] == '"');
            lemma_skip_ws_id(vr);
            assert(vr.drop_first() =~= json_escape(sv) + seq!['"'] + rest);
            lemma_parse_jstring_of_escape(sv, rest);
        },
        Option::None => {
            assert(vr[0] == 'n');
            lemma_skip_ws_id(vr);
            assert(has_prefix(vr, null_text())) by {
                assert(vr.subrange(0, 4) =~= null_text());
            }
            assert(vr.subrange(4, vr.len() as int) =~= rest);
        },
    }
}

/// The last two members of the canonical text, from the username key to the
/// closing brace, fold their values into the accumulator.
#[verifier::rlimit(100)]
#[verifier::spinoff_prover]
proof fn lemma_members_tail(u: Option<Seq<char>>, pw: Option<Seq<char>>, acc: ReqAcc)
    ensures
        ({
            let ku = seq!['u', 's', 'e', 'r', 'n', 'a', 'm', 'e'];
            let kp = seq!['p', 'a', 's', 's', 'w', 'o', 'r', 'd'];
            let m4 = seq!['"'] + kp + seq!['"', ':'] + emit_opt(pw) + seq!['}'];
            let m3 = seq!['"'] + ku + seq!['"', ':'] + emit_opt(u) + (seq![','] + m4);
            parse_members(m3, acc) == Some(
                ReqAcc { password: pw, ..ReqAcc { username: u, ..acc } },
            )
        }),
{
    reveal_strlit("action");
    reveal_strlit("domain");
    reveal_strlit("username");
    reveal_strlit("password");
    let ku = seq!['u', 's', 'e', 'r', 'n', 'a', 'm', 'e'];
    let kp = seq!['p', 'a', 's', 's', 'w', 'o', 'r', 'd'];
    assert(ku =~= "username"@);
    assert(kp =~= "password"@);
    assert(ku != "action"@ && ku != "domain"@) by {
        assert("action"@.len() == 6 && "domain"@.len() == 6);
    }
    assert(kp != "action"@ && kp != "domain"@ && kp != "username"@) by {
        assert("action"@.len() == 6 && "domain"@.len() == 6);
        assert(kp[0] != "username"@[0]);
    }
    let m4 = seq!['"'] + kp + seq!['"', ':'] + emit_opt(pw) + seq!['}'];
    let m3 = seq!['"'] + ku + seq!['"', ':'] + emit_opt(u) + (seq![','] + m4);
    lemma_member_of_emit(ku, u, seq![','] + m4);
    lemma_member_of_emit(kp, pw, seq!['}']);
    let acc3 = ReqAcc { username: u, ..acc };
    let acc4 = ReqAcc { password: pw, ..acc3 };
    assert(assign_field(acc, ku, (match u {
        Option::Some(sv) => JVal::JStr(sv),
        Option::None => JVal::JNull,
    })) == Some(acc3));
    assert(assign_field(acc3, kp, (match pw {
        Option::Some(sv) => JVal::JStr(sv),
        Option::None => JVal::JNull,
    })) == Some(acc4));
    let t3 = seq![','] + m4;
    lemma_skip_ws_id(t3);
    assert(t3[0] == ',');
    assert(t3.drop_first() =~= m4);
    assert(t3.drop_first().len() < m3.len());
    let t4 = seq!['}'];
    lemma_skip_ws_id(t4);
    assert(t4[0] == '}');
    assert(skip_ws(t4.drop_first()).len() == 0) by {
        lemma_skip_ws_id(t4.drop_first());
        assert(t4.drop_first().len() == 0);
    }
    assert(parse_members(m4, acc3) == Some(acc4));
    assert(parse_members(m3, acc) == Some(acc4));
}

/// Parsing inverts emission for requests: the canonical wire text reads back
/// as the request it was written from.
#[verifier::rlimit(100)]
#[verifier::spinoff_prover]
pub proof fn lemma_parse_request_roundtrip(q: ReqView)
    ensures
        parse_request_text(emit_request_text(q)) == Some(q),
{
    reveal_strlit("action");
    reveal_strlit("domain");
    reveal_strlit("username");
    reveal_strlit("password");
    let ka = seq!['a', 'c', 't', 'i', 'o', 'n'];
    let kd = seq!['d', 'o', 'm', 'a', 'i', 'n'];
    let ku = seq!['u', 's', 'e', 'r', 'n', 'a', 'm', 'e'];
    let kp = seq!['p', 'a', 's', 's', 'w', 'o', 'r', 'd'];
    assert(ka =~= "action"@);
    assert(kd =~= "domain"@);
    assert(ku =~= "username"@);
    assert(kp =~= "password"@);
    let s = emit_request_text(q);
    assert(s[0] == '{');
    lemma_skip_ws_id(s);
    // peel the four members in order
    let m4 = seq!['"'] + kp + seq!['"', ':'] + emit_opt(q.password) + seq!['}'];
    let m3 = seq!['"'] + ku + seq!['"', ':'] + emit_opt(q.username) + (seq![','] + m4);
    let m2 = seq!['"'] + kd + seq!['"', ':'] + emit_opt(q.domain) + (seq![','] + m3);
    let m1 = seq!['"'] + ka + seq!['"', ':'] + emit_opt(Some(q.action)) + (seq![','] + m2);
    assert(s.drop_first() =~= m1);
    lemma_member_of_emit(ka, Some(q.action), seq![','] + m2);
    lemma_member_of_emit(kd, q.domain, seq![','] + m3);
    let acc0 = empty_acc();
    let acc1 = ReqAcc { action: Some(q.action), ..acc0 };
    let acc2 = ReqAcc { domain: q.domain, ..acc1 };
    let acc3 = ReqAcc { username: q.username, ..acc2 };
    let acc4 = ReqAcc { password: q.password, ..acc3 };
    // member 1: action
    assert(assign_field(acc0, ka, JVal::JStr(q.action)) == Some(acc1));
    let t1 = seq![','] + m2;
    lemma_skip_ws_id(t1);
    assert(t1[0] == ',');
    assert(t1.drop_first() =~= m2);
    assert(t1.drop_first().len() < m1.len());
    // member 2: domain
    assert(kd != ka) by {
        assert(kd[0] != ka[0]);
    }
    assert(assign_field(acc1, kd, (match q.domain {
        Option::Some(sv) => JVal::JStr(sv),
        Option::None => JVal::JNull,
    })) == Some(acc2));
    let t2 = seq![','] + m3;
    lemma_skip_ws_id(t2);
    assert(t2.drop_first() =~= m3);
    assert(t2.drop_first().len() < m2.len());
    // members 3 and 4 fold in the username and password
    lemma_members_tail(q.username, q.password, acc2);
    assert(ReqAcc { password: q.password, ..ReqAcc { username: q.username, ..acc2 } } == acc4);
    assert(parse_members(m3, acc2) == Some(acc4));
    assert(parse_members(m2, acc1) == Some(acc4));
    assert(parse_members(m1, acc0) == Some(acc4));
    assert(parse_request_text(s) == Some(ReqView {
        action: q.action,
        domain: q.domain,
        username: q.username,
        password: q.password,
    }));
    assert(ReqView {
        action: q.action,
        domain: q.domain,
        username: q.username,
        password: q.password,
    } == q);
}

/// Parsing inverts emission for responses.
#[verifier::rlimit(100)]
#[verifier::spinoff_prover]
pub proof fn lemma_parse_response_roundtrip(v: RespView)
    ensures
        parse_response_text(emit_response_text(v)) == Some(v),
{
    let s = emit_response_text(v);
    let okt = if v.ok {
        true_text()
    } else {
        false_text()
    };
    let t1 = okt + (resp_username_key() + (emit_opt(v.username) + (resp_password_key() + (emit_opt(
        v.password,
    ) + (resp_message_key() + (emit_opt(v.message) + (resp_error_key() + (emit_opt(v.error)
        + seq!['}']))))))));
    assert(has_prefix(s, resp_open())) by {
        assert(s.subrange(0, resp_open().len() as int) =~= resp_open());
    }
    assert(s.subrange(resp_open().len() as int, s.len() as int) =~= t1);
    let t2 = resp_username_key() + (emit_opt(v.username) + (resp_password_key() + (emit_opt(
        v.password,
    ) + (resp_message_key() + (emit_opt(v.message) + (resp_error_key() + (emit_opt(v.error)
        + seq!['}'])))))));
    if v.ok {
        assert(has_prefix(t1, true_text())) by {
            assert(t1.subrange(0, 4) =~= true_text());
        }
        assert(t1.subrange(4, t1.len() as int) =~= t2);
    } else {
        assert(!has_prefix(t1, true_text())) by {
            if has_prefix(t1, true_text()) {
                assert(t1.subrange(0, 4)[0] == 't');
                assert(t1[0] == 'f');
            }
        }
        assert(has_prefix(t1, false_text())) by {
            assert(t1.subrange(0, 5) =~= false_text());
        }
        assert(t1.subrange(5, t1.len() as int) =~= t2);
    }
    let t3 = resp_password_key() + (emit_opt(v.password) + (resp_message_key() + (emit_opt(
        v.message,
    ) + (resp_error_key() + (emit_opt(v.error) + seq!['}'])))));
    assert(has_prefix(t2, resp_username_key())) by {
        assert(t2.subrange(0, resp_username_key().len() as int) =~= resp_username_key());
    }
    assert(t2.subrange(resp_username_key().len() as int, t2.len() as int) =~= emit_opt(v.username)
        + t3);
    lemma_parse_opt_of_emit(v.username, t3);
    let t4 = resp_message_key() + (emit_opt(v.message) + (resp_error_key() + (emit_opt(v.error)
        + seq!['}'])));
    assert(has_prefix(t3, resp_password_key())) by {
        assert(t3.subrange(0, resp_password_key().len() as int) =~= resp_password_key());
    }
    assert(t3.subrange(resp_password_key().len() as int, t3.len() as int) =~= emit_opt(v.password)
        + t4);
    lemma_parse_opt_of_emit(v.password, t4);
    let t5 = resp_error_key() + (emit_opt(v.error) + seq!['}']);
    assert(has_prefix(t4, resp_message_key())) by {
        assert(t4.subrange(0, resp_message_key().len() as int) =~= resp_message_key());
    }
    assert(t4.subrange(resp_message_key().len() as int, t4.len() as int) =~= emit_opt(v.message)
        + t5);
    lemma_parse_opt_of_emit(v.message, t5);
    let t6 = seq!['}'];
    assert(has_prefix(t5, resp_error_key())) by {
        assert(t5.subrange(0, resp_error_key().len() as int) =~= resp_error_key());
    }
    assert(t5.subrange(resp_error_key().len() as int, t5.len() as int) =~= emit_opt(v.error) + t6);
    lemma_parse_opt_of_emit(v.error, t6);
    assert(RespView {
        ok: v.ok,
        username: v.username,
        password: v.password,
        message: v.message,
        error: v.error,
    } == v);
}


fn push_chars(out: &mut Vec<char>, lit: &Vec<char>)
    ensures
        final(out)@ == old(out)@ + lit@,
{
    let mut i: usize = 0;
    while i < lit.len()
        invariant
            i <= lit@.len(),
            out@ == old(out)@ + lit@.subrange(0, i as int),
        decreases lit@.len() - i,
    {
        out.push(lit[i]);
        i = i + 1;
        assert(out@ =~= old(out)@ + lit@.subrange(0, i as int));
    }
    assert(out@ =~= old(out)@ + lit@);
}

fn hex_char_x(d: u32) -> (r: char)
    requires
        d < 16,
    ensures
        r == hex_char(d),
{
    if d < 10 {
        ((48 + d) as u8) as char
    } else {
        ((87 + d) as u8) as char
    }
}

/// Appends a quoted, escaped JSON string literal.
fn push_jstring(out: &mut Vec<char>, s: &str)
    ensures
        final(out)@ == old(out)@ + jstring(s@),
{
    out.push('"');
    let ghost mark = out@;
    let cs = chars_of(s);
    proof {
        assert(json_escape(cs@.take(0)) =~= Seq::<char>::empty());
        assert(out@ =~= mark + json_escape(cs@.take(0)));
    }
    let mut i: usize = 0;
    while i < cs.len()
        invariant
            i <= cs@.len(),
            cs@ == s@,
            out@ == mark + json_escape(cs@.take(i as int)),
        decreases cs@.len() - i,
    {
        let c = cs[i];
        let u = c as u32;
        if c == '"' {
            out.push('\\');
            out.push('"');
        } else if c == '\\' {
            out.push('\\');
            out.push('\\');
        } else if c == '\u{8}' {
            out.push('\\');
            out.push('b');
        } else if c == '\u{c}' {
            out.push('\\');
            out.push('f');
        } else if c == '\n' {
            out.push('\\');
            out.push('n');
        } else if c == '\r' {
            out.push('\\');
            out.push('r');
        } else if c == '\t' {
            out.push('\\');
            out.push('t');
        } else if u < 32 {
            out.push('\\');
            out.push('u');
            out.push('0');
            out.push('0');
            out.push(hex_char_x(u / 16));
            out.push(hex_char_x(u % 16));
        } else {
            out.push(c);
        }
        proof {
            lemma_json_escape_snoc(cs@, i as int);
            assert(out@ =~= mark + json_escape(cs@.take(i as int + 1)));
        }
        i = i + 1;
    }
    out.push('"');
    proof {
        assert(cs@.take(cs@.len() as int) =~= cs@);
        assert(out@ =~= old(out)@ + jstring(s@));
    }
}

fn push_opt(out: &mut Vec<char>, o: &Option<String>)
    ensures
        final(out)@ == old(out)@ + emit_opt(opt_view(*o)),
{
    match o {
        Option::Some(s) => {
            push_jstring(out, s.as_str());
        },
        Option::None => {
            let lit = vec!['n', 'u', 'l', 'l'];
            assert(lit@ =~= null_text());
            push_chars(out, &lit);
        },
    }
}

fn req_open_vec() -> (r: Vec<char>)
    ensures
        r@ == req_open(),
{
    let r = vec!['{', '"', 'a', 'c', 't', 'i', 'o', 'n', '"', ':'];
    assert(r@ =~= req_open());
    r
}

fn req_domain_key_vec() -> (r: Vec<char>)
    ensures
        r@ == req_domain_key(),
{
    let r = vec![',', '"', 'd', 'o', 'm', 'a', 'i', 'n', '"', ':'];
    assert(r@ =~= req_domain_key());
    r
}

fn req_username_key_vec() -> (r: Vec<char>)
    ensures
        r@ == req_username_key(),
{
    let r = vec![',', '"', 'u', 's', 'e', 'r', 'n', 'a', 'm', 'e', '"', ':'];
    assert(r@ =~= req_username_key());
    r
}

fn req_password_key_vec() -> (r: Vec<char>)
    ensures
        r@ == req_password_key(),
{
    let r = vec![',', '"', 'p', 'a', 's', 's', 'w', 'o', 'r', 'd', '"', ':'];
    assert(r@ =~= req_password_key());
    r
}

fn resp_open_vec() -> (r: Vec<char>)
    ensures
        r@ == resp_open(),
{
    let r = vec!['{', '"', 'o', 'k', '"', ':'];
    assert(r@ =~= resp_open());
    r
}

fn resp_message_key_vec() -> (r: Vec<char>)
    ensures
        r@ == resp_message_key(),
{
    let r = vec![',', '"', 'm', 'e', 's', 's', 'a', 'g', 'e', '"', ':'];
    assert(r@ =~= resp_message_key());
    r
}

fn resp_error_key_vec() -> (r: Vec<char>)
    ensures
        r@ == resp_error_key(),
{
    let r = vec![',', '"', 'e', 'r', 'r', 'o', 'r', '"', ':'];
    assert(r@ =~= resp_error_key());
    r
}

/// The canonical request wire text, as `emit_request_text` describes.
pub fn emit_request(q: &IpcRequest) -> (r: String)
    ensures
        r@ == emit_request_text(q@),
{
    let mut out: Vec<char> = Vec::new();
    let open = req_open_vec();
    push_chars(&mut out, &open);
    push_jstring(&mut out, q.action.as_str());
    let dk = req_domain_key_vec();
    push_chars(&mut out, &dk);
    push_opt(&mut out, &q.domain);
    let uk = req_username_key_vec();
    push_chars(&mut out, &uk);
    push_opt(&mut out, &q.username);
    let pk = req_password_key_vec();
    push_chars(&mut out, &pk);
    push_opt(&mut out, &q.password);
    out.push('}');
    proof {
        assert(out@ =~= emit_request_text(q@));
    }
    string_of(&out)
}


#[verifier::rlimit(100)]
#[verifier::spinoff_prover]
proof fn lemma_emit_response_parts(v: RespView)
    ensures
        emit_response_text(v) == (resp_open() + (if v.ok {
            true_text()
        } else {
            false_text()
        }) + resp_username_key() + emit_opt(v.username) + resp_password_key() + emit_opt(
            v.password,
        )) + (resp_message_key() + emit_opt(v.message) + resp_error_key() + emit_opt(v.error)
            + seq!['}']),
{
    let okt = if v.ok {
        true_text()
    } else {
        false_text()
    };
    let tail_r = resp_message_key() + (emit_opt(v.message) + (resp_error_key() + (emit_opt(v.error)
        + seq!['}'])));
    let tail_l = resp_message_key() + emit_opt(v.message) + resp_error_key() + emit_opt(v.error)
        + seq!['}'];
    assert(tail_l =~= tail_r);
    let front_l = resp_open() + okt + resp_username_key() + emit_opt(v.username)
        + resp_password_key() + emit_opt(v.password);
    assert(emit_response_text(v) =~= front_l + tail_r);
}

/// The canonical response wire text, as `emit_response_text` describes.
#[verifier::rlimit(100)]
#[verifier::spinoff_prover]
pub fn emit_response(v: &IpcResponse) -> (r: String)
    ensures
        r@ == emit_response_text(v@),
{
    let mut out: Vec<char> = Vec::new();
    let open = resp_open_vec();
    push_chars(&mut out, &open);
    if v.ok {
        let lit = vec!['t', 'r', 'u', 'e'];
        assert(lit@ =~= true_text());
        push_chars(&mut out, &lit);
    } else {
        let lit = vec!['f', 'a', 'l', 's', 'e'];
        assert(lit@ =~= false_text());
        push_chars(&mut out, &lit);
    }
    let uk = req_username_key_vec();
    proof {
        assert(req_username_key() =~= resp_username_key());
    }
    push_chars(&mut out, &uk);
    push_opt(&mut out, &v.username);
    let pk = req_password_key_vec();
    proof {
        assert(req_password_key() =~= resp_password_key());
    }
    push_chars(&mut out, &pk);
    push_opt(&mut out, &v.password);
    let mk = resp_message_key_vec();
    push_chars(&mut out, &mk);
    push_opt(&mut out, &v.message);
    let ek = resp_error_key_vec();
    push_chars(&mut out, &ek);
    push_opt(&mut out, &v.error);
    out.push('}');
    proof {
        lemma_emit_response_parts(v@);
        let front_l = resp_open() + (if v@.ok {
            true_text()
        } else {
            false_text()
        }) + resp_username_key() + emit_opt(v@.username) + resp_password_key() + emit_opt(
            v@.password,
        );
        assert(out@ =~= front_l + (resp_message_key() + emit_opt(v@.message) + resp_error_key()
            + emit_opt(v@.error) + seq!['}']));
    }
    string_of(&out)
}


/// Relies on char::from_u32: `Some` exactly on valid Unicode scalar values.
#[verifier::external_body]
fn char_from_u32(u: u32) -> (r: Option<char>)
    ensures
        r matches Some(c) ==> c as u32 == u,
        (u < 0xD800 || (0xE000 <= u && u <= 0x10FFFF)) ==> r is Some,
{
    char::from_u32(u)
}

/// Consumes the literal `lit` at `pos`, or reports that it is not there.
fn expect_lit(cs: &Vec<char>, pos: usize, end: usize, lit: &Vec<char>) -> (r: Option<usize>)
    requires
        pos <= end <= cs@.len(),
    ensures
        r matches Some(p2) ==> p2 == pos + lit@.len() && p2 <= end && has_prefix(
            cs@.subrange(pos as int, end as int),
            lit@,
        ),
        r is None ==> !has_prefix(cs@.subrange(pos as int, end as int), lit@),
{
    let ghost s = cs@.subrange(pos as int, end as int);
    if end - pos < lit.len() {
        return None;
    }
    let mut j: usize = 0;
    while j < lit.len()
        invariant
            pos <= end <= cs@.len(),
            pos + lit@.len() <= end,
            s == cs@.subrange(pos as int, end as int),
            j <= lit@.len(),
            forall|m: int| 0 <= m < j ==> s[m] == lit@[m],
        decreases lit@.len() - j,
    {
        if cs[pos + j] != lit[j] {
            assert(s[j as int] != lit@[j as int]);
            assert(!has_prefix(s, lit@)) by {
                if has_prefix(s, lit@) {
                    assert(s.subrange(0, lit@.len() as int)[j as int] == lit@[j as int]);
                }
            }
            return None;
        }
        j = j + 1;
    }
    proof {
        assert(s.subrange(0, lit@.len() as int) =~= lit@);
    }
    Some(pos + lit.len())
}

/// Reads a string literal body up to its closing quote; mirrors
/// `parse_jstring` on the subrange `pos..end`.
fn parse_jstring_x(cs: &Vec<char>, pos: usize, end: usize) -> (r: Option<(String, usize)>)
    requires
        pos <= end <= cs@.len(),
    ensures
        r matches Some((c, p2)) ==> pos < p2 <= end && parse_jstring(
            cs@.subrange(pos as int, end as int),
        ) == Some((c@, cs@.subrange(p2 as int, end as int))),
        r is None ==> parse_jstring(cs@.subrange(pos as int, end as int)) is None,
{
    let ghost s0 = cs@.subrange(pos as int, end as int);
    let mut acc: Vec<char> = Vec::new();
    let mut p: usize = pos;
    loop
        invariant
            pos <= p <= end <= cs@.len(),
            s0 == cs@.subrange(pos as int, end as int),
            parse_jstring(s0) == match parse_jstring(cs@.subrange(p as int, end as int)) {
                Option::None => None::<(Seq<char>, Seq<char>)>,
                Option::Some((c, r)) => Some((acc@ + c, r)),
            },
        decreases end - p,
    {
        let ghost cur = cs@.subrange(p as int, end as int);
        if p >= end {
            assert(cur.len() == 0);
            return None;
        }
        let c = cs[p];
        assert(cur[0] == c);
        if c == '"' {
            proof {
                assert(cur.drop_first() =~= cs@.subrange(p as int + 1, end as int));
                assert(acc@ + Seq::<char>::empty() =~= acc@);
            }
            let content = string_of(&acc);
            return Some((content, p + 1));
        }
        let ghost oldacc = acc@;
        if c == '\\' {
            if end - p < 2 {
                assert(cur.len() < 2);
                return None;
            }
            let e = cs[p + 1];
            assert(cur[1] == e);
            if e == '"' || e == '\\' || e == '/' {
                acc.push(e);
                proof {
                    assert(cur.subrange(2, cur.len() as int) =~= cs@.subrange(
                        p as int + 2,
                        end as int,
                    ));
                    assert(acc@ =~= oldacc + seq![e]);
                    assert forall|cc: Seq<char>, rr: Seq<char>|
                        parse_jstring(cs@.subrange(p as int + 2, end as int)) == Some::<
                            (Seq<char>, Seq<char>),
                        >((cc, rr)) implies oldacc + (seq![e] + cc) =~= acc@ + cc by {}
                }
                p = p + 2;
            } else if e == 'b' || e == 'f' || e == 'n' || e == 'r' || e == 't' {
                let d: char = if e == 'b' {
                    '\u{8}'
                } else if e == 'f' {
                    '\u{c}'
                } else if e == 'n' {
                    '\n'
                } else if e == 'r' {
                    '\r'
                } else {
                    '\t'
                };
                acc.push(d);
                proof {
                    assert(cur.subrange(2, cur.len() as int) =~= cs@.subrange(
                        p as int + 2,
                        end as int,
                    ));
                    assert(acc@ =~= oldacc + seq![d]);
                    assert forall|cc: Seq<char>, rr: Seq<char>|
                        parse_jstring(cs@.subrange(p as int + 2, end as int)) == Some::<
                            (Seq<char>, Seq<char>),
                        >((cc, rr)) implies oldacc + (seq![d] + cc) =~= acc@ + cc by {}
                }
                p = p + 2;
            } else if e == 'u' {
                if end - p < 6 {
                    assert(cur.len() < 6);
                    return None;
                }
                let h0 = hex_val_x(cs[p + 2]);
                let h1 = hex_val_x(cs[p + 3]);
                let h2 = hex_val_x(cs[p + 4]);
                let h3 = hex_val_x(cs[p + 5]);
                assert(cur[2] == cs@[p as int + 2] && cur[3] == cs@[p as int + 3] && cur[4]
                    == cs@[p as int + 4] && cur[5] == cs@[p as int + 5]);
                if h0 >= 16 || h1 >= 16 || h2 >= 16 || h3 >= 16 {
                    return None;
                }
                let v: u32 = h0 * 4096 + h1 * 256 + h2 * 16 + h3;
                if !(v < 0xD800 || v >= 0xE000) {
                    return None;
                }
                let d = match char_from_u32(v) {
                    Option::Some(d) => d,
                    Option::None => {
                        proof {
                            assert(v <= 0xFFFF);
                        }
                        assert(false);
                        return None;
                    },
                };
                proof {
                    vstd::utf8::char_u32_cast(d, v);
                    assert((v as char) == d);
                }
                acc.push(d);
                proof {
                    assert(cur.subrange(6, cur.len() as int) =~= cs@.subrange(
                        p as int + 6,
                        end as int,
                    ));
                    assert(acc@ =~= oldacc + seq![d]);
                    assert forall|cc: Seq<char>, rr: Seq<char>|
                        parse_jstring(cs@.subrange(p as int + 6, end as int)) == Some::<
                            (Seq<char>, Seq<char>),
                        >((cc, rr)) implies oldacc + (seq![d] + cc) =~= acc@ + cc by {}
                }
                p = p + 6;
            } else {
                return None;
            }
        } else {
            acc.push(c);
            proof {
                assert(cur.drop_first() =~= cs@.subrange(p as int + 1, end as int));
                assert(acc@ =~= oldacc + seq![c]);
                assert forall|cc: Seq<char>, rr: Seq<char>|
                    parse_jstring(cs@.subrange(p as int + 1, end as int)) == Some::<
                        (Seq<char>, Seq<char>),
                    >((cc, rr)) implies oldacc + (seq![c] + cc) =~= acc@ + cc by {}
            }
            p = p + 1;
        }
    }
}

fn hex_val_x(c: char) -> (r: u32)
    ensures
        r == hex_val(c),
{
    let u = c as u32;
    if 48 <= u && u <= 57 {
        u - 48
    } else if 97 <= u && u <= 102 {
        u - 87
    } else if 65 <= u && u <= 70 {
        u - 55
    } else {
        16
    }
}

/// Reads `null` or a string literal; mirrors `parse_opt`.
fn parse_opt_x(cs: &Vec<char>, pos: usize, end: usize) -> (r: Option<(Option<String>, usize)>)
    requires
        pos <= end <= cs@.len(),
    ensures
        r matches Some((o, p2)) ==> pos < p2 <= end && parse_opt(
            cs@.subrange(pos as int, end as int),
        ) == Some((opt_view(o), cs@.subrange(p2 as int, end as int))),
        r is None ==> parse_opt(cs@.subrange(pos as int, end as int)) is None,
{
    let ghost s = cs@.subrange(pos as int, end as int);
    let nulllit = vec!['n', 'u', 'l', 'l'];
    assert(nulllit@ =~= null_text());
    match expect_lit(cs, pos, end, &nulllit) {
        Option::Some(p2) => {
            proof {
                assert(cs@.subrange(p2 as int, end as int) =~= s.subrange(4, s.len() as int));
            }
            return Some((None, p2));
        },
        Option::None => {},
    }
    if pos >= end || cs[pos] != '"' {
        proof {
            if s.len() >= 1 {
                assert(s[0] == cs@[pos as int]);
            }
        }
        return None;
    }
    assert(s[0] == '"');
    proof {
        assert(s.drop_first() =~= cs@.subrange(pos as int + 1, end as int));
    }
    match parse_jstring_x(cs, pos + 1, end) {
        Option::Some((c, p2)) => Some((Some(c), p2)),
        Option::None => None,
    }
}

proof fn lemma_ws_end_of(s: Seq<char>, i: int)
    requires
        0 <= i <= s.len(),
        forall|j: int| 0 <= j < i ==> is_json_ws(s[j]),
        i < s.len() ==> !is_json_ws(s[i]),
    ensures
        ws_end(s) == i,
    decreases s.len(),
{
    if s.len() == 0 {
    } else if !is_json_ws(s[0]) {
        assert(i == 0);
    } else {
        assert(i >= 1);
        assert forall|j: int| 0 <= j < i - 1 implies is_json_ws(s.drop_first()[j]) by {
            assert(s.drop_first()[j] == s[j + 1]);
        }
        lemma_ws_end_of(s.drop_first(), i - 1);
    }
}

proof fn lemma_num_end_of(s: Seq<char>, i: int)
    requires
        0 <= i <= s.len(),
        forall|j: int| 0 <= j < i ==> is_num_char(s[j]),
        i < s.len() ==> !is_num_char(s[i]),
    ensures
        num_end(s) == i,
    decreases s.len(),
{
    if s.len() == 0 {
    } else if !is_num_char(s[0]) {
        assert(i == 0);
    } else {
        assert(i >= 1);
        assert forall|j: int| 0 <= j < i - 1 implies is_num_char(s.drop_first()[j]) by {
            assert(s.drop_first()[j] == s[j + 1]);
        }
        lemma_num_end_of(s.drop_first(), i - 1);
    }
}

/// Skips JSON whitespace from `pos`; mirrors `skip_ws` on the subrange.
fn skip_ws_x(cs: &Vec<char>, pos: usize, end: usize) -> (p2: usize)
    requires
        pos <= end <= cs@.len(),
    ensures
        pos <= p2 <= end,
        cs@.subrange(p2 as int, end as int) == skip_ws(cs@.subrange(pos as int, end as int)),
    decreases end - pos,
{
    let ghost s = cs@.subrange(pos as int, end as int);
    let mut p: usize = pos;
    while p < end && (cs[p] == ' ' || cs[p] == '\t' || cs[p] == '\n' || cs[p] == '\r')
        invariant
            pos <= p <= end <= cs@.len(),
            s == cs@.subrange(pos as int, end as int),
            forall|j: int| 0 <= j < p - pos ==> is_json_ws(s[j]),
        decreases end - p,
    {
        assert(s[p - pos] == cs@[p as int]);
        p = p + 1;
    }
    proof {
        if p < end {
            assert(s[p - pos] == cs@[p as int]);
        }
        lemma_ws_end_of(s, p - pos);
        assert(cs@.subrange(p as int, end as int) =~= skip_ws(s));
    }
    p
}

/// One JSON scalar value, as the field reader needs it.
enum Scalar {
    Text(String),
    Null,
    Skip,
}

spec fn scalar_view(v: Scalar) -> JVal {
    match v {
        Scalar::Text(s) => JVal::JStr(s@),
        Scalar::Null => JVal::JNull,
        Scalar::Skip => JVal::JOther,
    }
}

fn is_num_char_x(c: char) -> (r: bool)
    ensures
        r == is_num_char(c),
{
    let u = c as u32;
    (48 <= u && u <= 57) || c == '-' || c == '+' || c == '.' || c == 'e' || c == 'E'
}

/// Reads one scalar value at `pos`; mirrors `parse_value` on the subrange.
fn parse_value_x(cs: &Vec<char>, pos: usize, end: usize) -> (r: Option<(Scalar, usize)>)
    requires
        pos <= end <= cs@.len(),
    ensures
        r matches Some((v, p2)) ==> pos < p2 <= end && parse_value(
            cs@.subrange(pos as int, end as int),
        ) == Some((scalar_view(v), cs@.subrange(p2 as int, end as int))),
        r is None ==> parse_value(cs@.subrange(pos as int, end as int)) is None,
{
    let ghost s = cs@.subrange(pos as int, end as int);
    if pos >= end {
        return None;
    }
    assert(s[0] == cs@[pos as int]);
    let c0 = cs[pos];
    if c0 == '"' {
        proof {
            assert(s.drop_first() =~= cs@.subrange(pos as int + 1, end as int));
        }
        match parse_jstring_x(cs, pos + 1, end) {
            Option::Some((content, p2)) => {
                return Some((Scalar::Text(content), p2));
            },
            Option::None => {
                return None;
            },
        }
    }
    let nulllit = vec!['n', 'u', 'l', 'l'];
    assert(nulllit@ =~= null_text());
    match expect_lit(cs, pos, end, &nulllit) {
        Option::Some(p2) => {
            proof {
                assert(cs@.subrange(p2 as int, end as int) =~= s.subrange(4, s.len() as int));
            }
            return Some((Scalar::Null, p2));
        },
        Option::None => {},
    }
    let truelit = vec!['t', 'r', 'u', 'e'];
    assert(truelit@ =~= true_text());
    match expect_lit(cs, pos, end, &truelit) {
        Option::Some(p2) => {
            proof {
                assert(cs@.subrange(p2 as int, end as int) =~= s.subrange(4, s.len() as int));
            }
            return Some((Scalar::Skip, p2));
        },
        Option::None => {},
    }
    let falselit = vec!['f', 'a', 'l', 's', 'e'];
    assert(falselit@ =~= false_text());
    match expect_lit(cs, pos, end, &falselit) {
        Option::Some(p2) => {
            proof {
                assert(cs@.subrange(p2 as int, end as int) =~= s.subrange(5, s.len() as int));
            }
            return Some((Scalar::Skip, p2));
        },
        Option::None => {},
    }
    if !is_num_char_x(c0) {
        return None;
    }
    let mut p: usize = pos;
    while p < end && is_num_char_x(cs[p])
        invariant
            pos <= p <= end <= cs@.len(),
            s == cs@.subrange(pos as int, end as int),
            forall|j: int| 0 <= j < p - pos ==> is_num_char(s[j]),
        decreases end - p,
    {
        assert(s[p - pos] == cs@[p as int]);
        p = p + 1;
    }
    proof {
        if p < end {
            assert(s[p - pos] == cs@[p as int]);
        }
        lemma_num_end_of(s, p - pos);
        assert(cs@.subrange(p as int, end as int) =~= s.subrange(num_end(s), s.len() as int));
    }
    assert(p > pos);
    Some((Scalar::Skip, p))
}

/// Parses a request: any JSON object carrying the request's fields, in any
/// order and with any JSON whitespace; `action` is required, absent optional
/// fields read as absent, unknown keys with scalar values are ignored.
#[verifier::rlimit(100)]
#[verifier::spinoff_prover]
pub fn parse_request(s: &str) -> (r: Option<IpcRequest>)
    ensures
        r matches Some(q) ==> parse_request_text(s@) == Some(q@),
        r is None ==> parse_request_text(s@) is None,
{
    let cs = chars_of(s);
    let end = cs.len();
    proof {
        assert(cs@.subrange(0, end as int) =~= s@);
    }
    let p0 = skip_ws_x(&cs, 0, end);
    let ghost tt = skip_ws(s@);
    assert(tt == cs@.subrange(p0 as int, end as int));
    if p0 >= end || cs[p0] != '{' {
        proof {
            if tt.len() >= 1 {
                assert(tt[0] == cs@[p0 as int]);
            }
        }
        return None;
    }
    assert(tt[0] == '{');
    let ghost ms0 = cs@.subrange(p0 as int + 1, end as int);
    proof {
        assert(tt.drop_first() =~= ms0);
    }
    let action_lit = chars_of("action");
    let domain_lit = chars_of("domain");
    let username_lit = chars_of("username");
    let password_lit = chars_of("password");
    let mut f_action: Option<String> = None;
    let mut f_domain: Option<String> = None;
    let mut f_username: Option<String> = None;
    let mut f_password: Option<String> = None;
    let mut p: usize = p0 + 1;
    loop
        invariant
            p0 + 1 <= p <= end,
            end == cs@.len(),
            cs@ == s@,
            ms0 == cs@.subrange(p0 as int + 1, end as int),
            skip_ws(s@) == cs@.subrange(p0 as int, end as int),
            p0 < end,
            cs@[p0 as int] == '{',
            skip_ws(s@).drop_first() == ms0,
            action_lit@ == "action"@,
            domain_lit@ == "domain"@,
            username_lit@ == "username"@,
            password_lit@ == "password"@,
            parse_members(ms0, empty_acc()) == parse_members(
                cs@.subrange(p as int, end as int),
                ReqAcc {
                    action: opt_view(f_action),
                    domain: opt_view(f_domain),
                    username: opt_view(f_username),
                    password: opt_view(f_password),
                },
            ),
        decreases end - p,
    {
        let ghost cur = cs@.subrange(p as int, end as int);
        let ghost curacc = ReqAcc {
            action: opt_view(f_action),
            domain: opt_view(f_domain),
            username: opt_view(f_username),
            password: opt_view(f_password),
        };
        let pk = skip_ws_x(&cs, p, end);
        let ghost tcur = skip_ws(cur);
        assert(tcur == cs@.subrange(pk as int, end as int));
        if pk >= end || cs[pk] != '"' {
            proof {
                if tcur.len() >= 1 {
                    assert(tcur[0] == cs@[pk as int]);
                }
            }
            return None;
        }
        assert(tcur[0] == '"');
        proof {
            assert(tcur.drop_first() =~= cs@.subrange(pk as int + 1, end as int));
        }
        let (key, p2) = match parse_jstring_x(&cs, pk + 1, end) {
            Option::Some(x) => x,
            Option::None => {
                return None;
            },
        };
        let p3 = skip_ws_x(&cs, p2, end);
        let ghost r2 = skip_ws(cs@.subrange(p2 as int, end as int));
        assert(r2 == cs@.subrange(p3 as int, end as int));
        if p3 >= end || cs[p3] != ':' {
            proof {
                if r2.len() >= 1 {
                    assert(r2[0] == cs@[p3 as int]);
                }
            }
            return None;
        }
        assert(r2[0] == ':');
        proof {
            assert(r2.drop_first() =~= cs@.subrange(p3 as int + 1, end as int));
        }
        let p4 = skip_ws_x(&cs, p3 + 1, end);
        let ghost r3 = skip_ws(cs@.subrange(p3 as int + 1, end as int));
        assert(r3 == cs@.subrange(p4 as int, end as int));
        let (val, p5) = match parse_value_x(&cs, p4, end) {
            Option::Some(x) => x,
            Option::None => {
                return None;
            },
        };
        let ghost vv = scalar_view(val);
        // record the member under its key
        let kc = chars_of(key.as_str());
        let ghost acc2;
        if eq_chars(&kc, &action_lit) {
            match val {
                Scalar::Text(sv) => {
                    f_action = Some(sv);
                },
                _ => {
                    assert(assign_field(curacc, key@, vv) is None);
                    return None;
                },
            }
            proof {
                acc2 = assign_field(curacc, key@, vv).unwrap();
            }
        } else if eq_chars(&kc, &domain_lit) {
            match val {
                Scalar::Text(sv) => {
                    f_domain = Some(sv);
                },
                Scalar::Null => {
                    f_domain = None;
                },
                Scalar::Skip => {
                    assert(assign_field(curacc, key@, vv) is None);
                    return None;
                },
            }
            proof {
                acc2 = assign_field(curacc, key@, vv).unwrap();
            }
        } else if eq_chars(&kc, &username_lit) {
            match val {
                Scalar::Text(sv) => {
                    f_username = Some(sv);
                },
                Scalar::Null => {
                    f_username = None;
                },
                Scalar::Skip => {
                    assert(assign_field(curacc, key@, vv) is None);
                    return None;
                },
            }
            proof {
                acc2 = assign_field(curacc, key@, vv).unwrap();
            }
        } else if eq_chars(&kc, &password_lit) {
            match val {
                Scalar::Text(sv) => {
                    f_password = Some(sv);
                },
                Scalar::Null => {
                    f_password = None;
                },
                Scalar::Skip => {
                    assert(assign_field(curacc, key@, vv) is None);
                    return None;
                },
            }
            proof {
                acc2 = assign_field(curacc, key@, vv).unwrap();
            }
        } else {
            proof {
                acc2 = assign_field(curacc, key@, vv).unwrap();
            }
        }
        proof {
            assert(assign_field(curacc, key@, vv) == Some(acc2));
            assert(acc2 == ReqAcc {
                action: opt_view(f_action),
                domain: opt_view(f_domain),
                username: opt_view(f_username),
                password: opt_view(f_password),
            });
        }
        let p6 = skip_ws_x(&cs, p5, end);
        let ghost r5 = skip_ws(cs@.subrange(p5 as int, end as int));
        assert(r5 == cs@.subrange(p6 as int, end as int));
        if p6 >= end {
            assert(r5.len() == 0);
            return None;
        }
        assert(r5[0] == cs@[p6 as int]);
        if cs[p6] == '}' {
            proof {
                assert(r5.drop_first() =~= cs@.subrange(p6 as int + 1, end as int));
            }
            let p7 = skip_ws_x(&cs, p6 + 1, end);
            if p7 != end {
                assert(skip_ws(r5.drop_first()).len() > 0);
                return None;
            }
            assert(skip_ws(r5.drop_first()).len() == 0);
            assert(parse_members(ms0, empty_acc()) == Some(acc2));
            let action = match f_action {
                Option::Some(a) => a,
                Option::None => {
                    return None;
                },
            };
            let q = IpcRequest {
                action,
                domain: f_domain,
                username: f_username,
                password: f_password,
            };
            proof {
                assert(parse_request_text(s@) == Some(q@));
            }
            return Some(q);
        }
        if cs[p6] != ',' {
            return None;
        }
        proof {
            assert(r5[0] == ',');
            assert(r5.drop_first() =~= cs@.subrange(p6 as int + 1, end as int));
            assert(r5.drop_first().len() < cur.len());
        }
        p = p6 + 1;
    }
}

/// Parses the canonical response text; the exact inverse of `emit_response`.
#[verifier::rlimit(100)]
#[verifier::spinoff_prover]
pub fn parse_response(s: &str) -> (r: Option<IpcResponse>)
    ensures
        r matches Some(v) ==> parse_response_text(s@) == Some(v@),
        r is None ==> parse_response_text(s@) is None,
{
    let cs = chars_of(s);
    let end = cs.len();
    proof {
        assert(cs@.subrange(0, end as int) =~= s@);
    }
    let open = resp_open_vec();
    let p1 = match expect_lit(&cs, 0, end, &open) {
        Option::Some(p) => p,
        Option::None => {
            return None;
        },
    };
    let ghost s1 = s@.subrange(resp_open().len() as int, s@.len() as int);
    proof {
        assert(s1 =~= cs@.subrange(p1 as int, end as int));
    }
    let truelit = vec!['t', 'r', 'u', 'e'];
    assert(truelit@ =~= true_text());
    let falselit = vec!['f', 'a', 'l', 's', 'e'];
    assert(falselit@ =~= false_text());
    let (ok, p2) = match expect_lit(&cs, p1, end, &truelit) {
        Option::Some(p) => (true, p),
        Option::None => {
            match expect_lit(&cs, p1, end, &falselit) {
                Option::Some(p) => (false, p),
                Option::None => {
                    return None;
                },
            }
        },
    };
    let ghost r0 = cs@.subrange(p2 as int, end as int);
    proof {
        if ok {
            assert(r0 =~= s1.subrange(4, s1.len() as int));
        } else {
            assert(r0 =~= s1.subrange(5, s1.len() as int));
        }
    }
    let uk = req_username_key_vec();
    proof {
        assert(req_username_key() =~= resp_username_key());
    }
    let p3 = match expect_lit(&cs, p2, end, &uk) {
        Option::Some(p) => p,
        Option::None => {
            return None;
        },
    };
    proof {
        assert(cs@.subrange(p3 as int, end as int) =~= r0.subrange(
            resp_username_key().len() as int,
            r0.len() as int,
        ));
    }
    let (username, p4) = match parse_opt_x(&cs, p3, end) {
        Option::Some(x) => x,
        Option::None => {
            return None;
        },
    };
    let ghost r1 = cs@.subrange(p4 as int, end as int);
    let pk = req_password_key_vec();
    proof {
        assert(req_password_key() =~= resp_password_key());
    }
    let p5 = match expect_lit(&cs, p4, end, &pk) {
        Option::Some(p) => p,
        Option::None => {
            return None;
        },
    };
    proof {
        assert(cs@.subrange(p5 as int, end as int) =~= r1.subrange(
            resp_password_key().len() as int,
            r1.len() as int,
        ));
    }
    let (password, p6) = match parse_opt_x(&cs, p5, end) {
        Option::Some(x) => x,
        Option::None => {
            return None;
        },
    };
    let ghost r2 = cs@.subrange(p6 as int, end as int);
    let mk = resp_message_key_vec();
    let p7 = match expect_lit(&cs, p6, end, &mk) {
        Option::Some(p) => p,
        Option::None => {
            return None;
        },
    };
    proof {
        assert(cs@.subrange(p7 as int, end as int) =~= r2.subrange(
            resp_message_key().len() as int,
            r2.len() as int,
        ));
    }
    let (message, p8) = match parse_opt_x(&cs, p7, end) {
        Option::Some(x) => x,
        Option::None => {
            return None;
        },
    };
    let ghost r3 = cs@.subrange(p8 as int, end as int);
    let ek = resp_error_key_vec();
    let p9 = match expect_lit(&cs, p8, end, &ek) {
        Option::Some(p) => p,
        Option::None => {
            return None;
        },
    };
    proof {
        assert(cs@.subrange(p9 as int, end as int) =~= r3.subrange(
            resp_error_key().len() as int,
            r3.len() as int,
        ));
    }
    let (error, p10) = match parse_opt_x(&cs, p9, end) {
        Option::Some(x) => x,
        Option::None => {
            return None;
        },
    };
    let ghost r4 = cs@.subrange(p10 as int, end as int);
    if !(p10 < end && end - p10 == 1 && cs[p10] == '}') {
        proof {
            if r4.len() >= 1 {
                assert(r4[0] == cs@[p10 as int]);
            }
            if r4 == seq!['}'] {
                assert(r4.len() == 1);
                assert(r4[0] == '}');
            }
        }
        return None;
    }
    proof {
        assert(r4 =~= seq!['}']);
    }
    let v = IpcResponse { ok, username, password, message, error };
    proof {
        assert(parse_response_text(s@) == Some(v@));
    }
    Some(v)
}

/// One native-messaging frame: a 32-bit little-endian length prefix followed
/// by that many payload bytes.
pub fn encode_frame(payload: &Vec<u8>) -> (r: Vec<u8>)
    requires
        payload@.len() < 0x1_0000_0000,
    ensures
        r@ == spec_u32_to_le_bytes(payload@.len() as u32) + payload@,
{
    let mut r = u32_to_le_bytes(payload.len() as u32);
    let mut body = vstd::slice::slice_to_vec(payload.as_slice());
    r.append(&mut body);
    proof {
        assert(r@ =~= spec_u32_to_le_bytes(payload@.len() as u32) + payload@);
    }
    r
}

/// The payload length announced by a frame header.
pub fn frame_len(header: &Vec<u8>) -> (n: u32)
    requires
        header@.len() == 4,
    ensures
        n == spec_u32_from_le_bytes(header@),
{
    u32_from_le_bytes(header.as_slice())
}

} // verus!
