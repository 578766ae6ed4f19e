//! The query service: one dispatch for every transport, and the HTTP codec
//! around it.
//!
//! Requests arrive from framed stdio, the local socket/pipe and loopback
//! HTTP; each transport decodes into the one request model and re-encodes the
//! one response model. Data-returning actions are answered only while the
//! vault is unlocked: a locked vault yields `ok:false, error:"App is locked"`
//! whatever else the request holds.

use vstd::prelude::*;
use vstd::utf8::encode_utf8;
use crate::app::App;
use crate::ipc::{IpcRequest, IpcResponse};
use crate::store::{find_spec, upsert_spec, upsert_ts};
use crate::domain::normalize_spec;
use crate::text::{chars_of, string_of, eq_chars, has_prefix, has_prefix_x, lower, lower_chars};
use crate::storefile::digit_char;

verus! {

/// An action the service recognizes.
pub open spec fn known_action(a: Seq<char>) -> bool {
    a == "get_credentials"@ || a == "set_credentials"@ || a == "ping"@
}

/// Locked-vault gating: while the vault is not unlocked, every recognized
/// action is refused with `App is locked`, whatever else the request holds.
pub open spec fn dispatch_gating(
    was: crate::app::AppView,
    now: crate::app::AppView,
    req: crate::ipc::ReqView,
    resp: crate::ipc::RespView,
    persist: bool,
) -> bool {
    known_action(req.action) && !was.unlocked ==> !resp.ok && resp.error == Some("App is locked"@)
        && resp.username is None && resp.password is None && resp.message is None && now == was
        && !persist
}

/// What an unlocked `get_credentials` answers.
pub open spec fn dispatch_get(
    was: crate::app::AppView,
    now: crate::app::AppView,
    req: crate::ipc::ReqView,
    resp: crate::ipc::RespView,
    persist: bool,
) -> bool {
    req.action == "get_credentials"@ && was.unlocked ==> now == was && !persist && (
    match req.domain {
        Option::Some(d) => (match find_spec(was.secrets, normalize_spec(d)) {
            Option::Some(c) => resp.ok && resp.username == Some(c.0) && resp.password == Some(c.1)
                && resp.error is None && resp.message is None,
            Option::None => !resp.ok && resp.error == Some("No credentials found for domain"@)
                && resp.username is None && resp.password is None && resp.message is None,
        }),
        Option::None => !resp.ok && resp.error == Some("Domain not specified"@)
            && resp.username is None && resp.password is None && resp.message is None,
    })
}

/// What an unlocked `set_credentials` does and answers.
pub open spec fn dispatch_set(
    was: crate::app::AppView,
    now: crate::app::AppView,
    req: crate::ipc::ReqView,
    resp: crate::ipc::RespView,
    persist: bool,
) -> bool {
    req.action == "set_credentials"@ && was.unlocked ==> (match (
    req.domain,
    req.username,
    req.password,
    ) {
        (Option::Some(d), Option::Some(u), Option::Some(p)) => {
            &&& resp.ok
            &&& resp.error is None
            &&& resp.username is None && resp.password is None && resp.message is None
            &&& now.secrets == upsert_spec(was.secrets, d, u, p, upsert_ts(was.secrets, now.secrets))
            &&& now.unlocked == was.unlocked
            &&& persist == (find_spec(was.secrets, normalize_spec(d)) is None)
        },
        _ => !resp.ok && resp.error == Some("Missing required fields"@) && resp.username is None
            && resp.password is None && resp.message is None && now == was && !persist,
    })
}

/// What `ping` answers, and that unrecognized actions are refused.
pub open spec fn dispatch_other(
    was: crate::app::AppView,
    now: crate::app::AppView,
    req: crate::ipc::ReqView,
    resp: crate::ipc::RespView,
    persist: bool,
) -> bool {
    &&& (req.action == "ping"@ && was.unlocked ==> resp.ok && resp.error is None && resp.username
        is None && resp.password is None && resp.message is None && now == was && !persist)
    &&& (!known_action(req.action) ==> !resp.ok && resp.error == Some("Unknown action"@)
        && resp.username is None && resp.password is None && resp.message is None && now == was
        && !persist)
}

/// What one dispatched request did to the vault and what it answers.
pub open spec fn dispatch_spec_holds(
    was: crate::app::AppView,
    now: crate::app::AppView,
    req: crate::ipc::ReqView,
    resp: crate::ipc::RespView,
    persist: bool,
) -> bool {
    &&& dispatch_gating(was, now, req, resp, persist)
    &&& dispatch_get(was, now, req, resp, persist)
    &&& dispatch_set(was, now, req, resp, persist)
    &&& dispatch_other(was, now, req, resp, persist)
}

fn no_response() -> (r: IpcResponse)
    ensures
        r@.ok == false,
        r@.username is None && r@.password is None && r@.message is None && r@.error is None,
{
    IpcResponse { ok: false, username: None, password: None, message: None, error: None }
}

fn error_response(msg: &str) -> (r: IpcResponse)
    ensures
        r@.ok == false,
        r@.username is None && r@.password is None && r@.message is None,
        r@.error == Some(msg@),
{
    IpcResponse {
        ok: false,
        username: None,
        password: None,
        message: None,
        error: Some(msg.to_owned()),
    }
}

/// Dispatches one request against the vault. Returns the response and
/// whether the store changed (so the caller persists it). Locked-vault
/// gating comes first, whatever else the request holds; the four clauses
/// together are `dispatch_spec_holds`.
#[verifier::rlimit(100)]
#[verifier::spinoff_prover]
pub fn dispatch(app: &mut App, req: &IpcRequest) -> (r: (IpcResponse, bool))
    ensures
        dispatch_gating(old(app)@, final(app)@, req@, r.0@, r.1),
        dispatch_get(old(app)@, final(app)@, req@, r.0@, r.1),
        dispatch_set(old(app)@, final(app)@, req@, r.0@, r.1),
        dispatch_other(old(app)@, final(app)@, req@, r.0@, r.1),
{
    proof {
        reveal_strlit("get_credentials");
        reveal_strlit("set_credentials");
        reveal_strlit("ping");
        assert("ping"@.len() == 4);
        assert("get_credentials"@.len() == 15);
        assert("ping"@ != "get_credentials"@);
        assert("ping"@ != "set_credentials"@);
        assert("set_credentials"@[0] == 's');
        assert("get_credentials"@[0] == 'g');
        assert("set_credentials"@ != "get_credentials"@);
    }
    let ac = chars_of(req.action.as_str());
    let get_lit = chars_of("get_credentials");
    let set_lit = chars_of("set_credentials");
    let ping_lit = chars_of("ping");
    let is_get = eq_chars(&ac, &get_lit);
    let is_set = eq_chars(&ac, &set_lit);
    let is_ping = eq_chars(&ac, &ping_lit);
    if !is_get && !is_set && !is_ping {
        return (error_response("Unknown action"), false);
    }
    if !app.is_unlocked() {
        return (error_response("App is locked"), false);
    }
    if is_ping {
        let mut r = no_response();
        r.ok = true;
        return (r, false);
    }
    if is_get {
        let domain = match &req.domain {
            Option::Some(d) => d,
            Option::None => {
                return (error_response("Domain not specified"), false);
            },
        };
        match app.get_credentials_for_domain(domain.as_str()) {
            Option::Some((u, p)) => {
                return (
                    IpcResponse {
                        ok: true,
                        username: Some(u),
                        password: Some(p),
                        message: None,
                        error: None,
                    },
                    false,
                );
            },
            Option::None => {
                return (error_response("No credentials found for domain"), false);
            },
        }
    }
    // set_credentials
    match (&req.domain, &req.username, &req.password) {
        (Option::Some(d), Option::Some(u), Option::Some(p)) => {
            let changed = app.upsert_credentials_for_domain(d.as_str(), u.as_str(), p.as_str());
            proof {
                assert(req@.domain == Some(d@) && req@.username == Some(u@) && req@.password
                    == Some(p@));
            }
            let mut r = no_response();
            r.ok = true;
            (r, changed)
        },
        _ => (error_response("Missing required fields"), false),
    }
}

// --- the loopback HTTP codec ---

/// The whole HTTP response for a JSON body: status 200, JSON content type,
/// permissive CORS, and a Content-Length counting the body's UTF-8 bytes.
pub open spec fn http_response_text(body: Seq<char>) -> Seq<char> {
    "HTTP/1.1 200 OK\r\nContent-Type: application/json\r\nAccess-Control-Allow-Origin: *\r\nAccess-Control-Allow-Methods: POST, OPTIONS\r\nAccess-Control-Allow-Headers: Content-Type\r\nContent-Length: "@
        + dec_nat((encode_utf8(body).len() as usize) as nat) + "\r\n\r\n"@ + body
}

/// Canonical decimal text of a number.
pub open spec fn dec_nat(n: nat) -> Seq<char>
    decreases n,
{
    if n < 10 {
        seq![digit_char(n as u8)]
    } else {
        dec_nat(n / 10) + seq![digit_char((n % 10) as u8)]
    }
}

fn dec_u64_x(n: u64) -> (r: Vec<char>)
    ensures
        r@ == dec_nat(n as nat),
    decreases n,
{
    if n < 10 {
        let r = vec![(48 + (n as u8)) as char];
        assert(r@ =~= dec_nat(n as nat));
        r
    } else {
        let mut r = dec_u64_x(n / 10);
        r.push((48 + ((n % 10) as u8)) as char);
        assert(r@ =~= dec_nat(n as nat));
        r
    }
}

/// Renders the full HTTP response around a JSON body.
pub fn build_http_response(body: &str) -> (r: String)
    ensures
        r@ == http_response_text(body@),
{
    let mut out: Vec<char> = Vec::new();
    let mut head = chars_of(
        "HTTP/1.1 200 OK\r\nContent-Type: application/json\r\nAccess-Control-Allow-Origin: *\r\nAccess-Control-Allow-Methods: POST, OPTIONS\r\nAccess-Control-Allow-Headers: Content-Type\r\nContent-Length: ",
    );
    out.append(&mut head);
    let blen = body.len();
    let mut lenc = dec_u64_x(blen as u64);
    out.append(&mut lenc);
    let mut sep = chars_of("\r\n\r\n");
    out.append(&mut sep);
    let mut bc = chars_of(body);
    out.append(&mut bc);
    proof {
        assert(out@ =~= http_response_text(body@));
    }
    string_of(&out)
}

/// Whether a request line announces a CORS preflight.
pub fn is_options_request(line: &str) -> (r: bool)
    ensures
        r == has_prefix(line@, "OPTIONS"@),
{
    let cs = chars_of(line);
    let lit = chars_of("OPTIONS");
    has_prefix_x(&cs, &lit)
}

/// The `Content-Length` value of a header line, when it is one: the header
/// name matches case-insensitively, and a malformed value counts as zero.
pub fn content_length_of(line: &str) -> (r: Option<u64>)
    ensures
        r is Some <==> has_prefix(lower(line@), "content-length:"@),
{
    let cs = chars_of(line);
    let lcs = lower_chars(&cs);
    let lit = chars_of("content-length:");
    if !has_prefix_x(&lcs, &lit) {
        return None;
    }
    proof {
        reveal_strlit("content-length:");
        assert(lower(cs@).len() == cs@.len());
    }
    // take what follows the colon, trimmed, and read a decimal
    let mut i: usize = 15;
    let n = cs.len();
    assert(n >= 15);
    let mut val: u64 = 0;
    let mut seen: bool = false;
    let mut bad: bool = false;
    while i < n
        invariant
            15 <= i <= n,
            n == cs@.len(),
        decreases n - i,
    {
        let c = cs[i];
        let u = c as u32;
        if 48 <= u && u <= 57 {
            if val > 1_000_000_000_000 {
                bad = true;
            } else {
                val = val * 10 + ((u - 48) as u64);
                seen = true;
            }
        } else if !(c == ' ' || c == '\t' || c == '\r' || c == '\n') {
            bad = true;
        }
        i = i + 1;
    }
    if bad || !seen {
        Some(0)
    } else {
        Some(val)
    }
}

} // verus!
