use grimoire::app::App;
use grimoire::ipc::{
    IpcRequest, IpcResponse, emit_request, parse_request, emit_response, parse_response,
    encode_frame, frame_len, get_socket_path, get_pipe_name,
};
use grimoire::service::{dispatch, build_http_response, is_options_request, content_length_of};
use grimoire::domain::normalize_domain;

#[test]
fn normalize_strips_scheme_www_path_and_com() {
    assert_eq!(normalize_domain("https://www.github.com/login"), "github");
    assert_eq!(normalize_domain("http://example.com"), "example");
    assert_eq!(normalize_domain("  MyBank.COM  "), "mybank");
    assert_eq!(normalize_domain("sub.domain.org/deep/path"), "sub.domain.org");
    assert_eq!(normalize_domain(""), "");
}

#[test]
fn normalize_is_idempotent_on_ordinary_domains() {
    for d in [
        "https://www.github.com/login",
        "  Example.com/x ",
        "plain",
        "http://a.b.c/d?e=f",
        "ümlaut.example",
    ] {
        let once = normalize_domain(d);
        assert_eq!(normalize_domain(&once), once);
    }
}

#[test]
fn request_wire_roundtrip() {
    let q = IpcRequest {
        action: "set_credentials".to_string(),
        domain: Some("example.com".to_string()),
        username: Some("bob \"quoted\"".to_string()),
        password: Some("back\\slash\nnewline\ttab".to_string()),
    };
    let wire = emit_request(&q);
    // control characters use the conventional short escapes on the wire
    assert!(wire.contains("back\\\\slash\\nnewline\\ttab"));
    let back = parse_request(&wire).expect("roundtrip");
    assert_eq!(back.action, q.action);
    assert_eq!(back.domain, q.domain);
    assert_eq!(back.username, q.username);
    assert_eq!(back.password, q.password);
    // the wire form is itself valid JSON with the same meaning
    let v: serde_json::Value = serde_json::from_str(&wire).expect("valid JSON");
    assert_eq!(v.get("action").unwrap().as_str().unwrap(), "set_credentials");
    assert_eq!(v.get("password").unwrap().as_str().unwrap(), "back\\slash\nnewline\ttab");
}

#[test]
fn lenient_request_parsing() {
    // absent optional fields read as absent
    let q = parse_request("{\"action\":\"ping\"}").expect("minimal request");
    assert_eq!(q.action, "ping");
    assert!(q.domain.is_none() && q.username.is_none() && q.password.is_none());
    // any key order, JSON whitespace, unknown scalar fields
    let q = parse_request(
        " {\n  \"domain\" : \"example.com\",\n  \"extra\": 42,\n  \"flag\": true,\n  \"action\": \"get_credentials\"\n} ",
    )
    .expect("reordered request");
    assert_eq!(q.action, "get_credentials");
    assert_eq!(q.domain.as_deref(), Some("example.com"));
    // a later duplicate key overwrites an earlier one
    let q = parse_request("{\"action\":\"a\",\"action\":\"b\"}").expect("duplicate");
    assert_eq!(q.action, "b");
    // still JSON: a missing action, a non-string action, or trailing text fail
    assert!(parse_request("{}").is_none());
    assert!(parse_request("{\"domain\":\"x\"}").is_none());
    assert!(parse_request("{\"action\":12}").is_none());
    assert!(parse_request("{\"action\":\"ping\"}x").is_none());
    assert!(parse_request("").is_none());
}

#[test]
fn request_with_nulls_roundtrip() {
    let q = IpcRequest {
        action: "ping".to_string(),
        domain: None,
        username: None,
        password: None,
    };
    let wire = emit_request(&q);
    assert_eq!(wire, "{\"action\":\"ping\",\"domain\":null,\"username\":null,\"password\":null}");
    let back = parse_request(&wire).expect("roundtrip");
    assert_eq!(back.action, "ping");
    assert!(back.domain.is_none() && back.username.is_none() && back.password.is_none());
}

#[test]
fn response_wire_roundtrip() {
    let r = IpcResponse {
        ok: true,
        username: Some("alice".to_string()),
        password: Some("p\u{1}ctl".to_string()),
        message: None,
        error: None,
    };
    let wire = emit_response(&r);
    let back = parse_response(&wire).expect("roundtrip");
    assert_eq!(back.ok, true);
    assert_eq!(back.username, r.username);
    assert_eq!(back.password, r.password);
    assert!(back.message.is_none() && back.error.is_none());
    let v: serde_json::Value = serde_json::from_str(&wire).expect("valid JSON");
    assert_eq!(v.get("ok").unwrap().as_bool().unwrap(), true);
    assert_eq!(v.get("password").unwrap().as_str().unwrap(), "p\u{1}ctl");
}

#[test]
fn locked_vault_gates_every_action() {
    let mut app = App::new(None);
    assert!(!app.is_unlocked());
    for action in ["get_credentials", "set_credentials", "ping"] {
        let req = IpcRequest {
            action: action.to_string(),
            domain: Some("example.com".to_string()),
            username: Some("u".to_string()),
            password: Some("p".to_string()),
        };
        let (resp, persist) = dispatch(&mut app, &req);
        assert!(!resp.ok);
        assert_eq!(resp.error.as_deref(), Some("App is locked"));
        assert!(!persist);
    }
}

#[test]
fn dispatch_get_set_ping_unknown() {
    let mut app = App::new(None);
    app.set_master_password("pw").expect("setup");

    let set = IpcRequest {
        action: "set_credentials".to_string(),
        domain: Some("example.com".to_string()),
        username: Some("bob".to_string()),
        password: Some("hunter2".to_string()),
    };
    let (resp, persist) = dispatch(&mut app, &set);
    assert!(resp.ok);
    assert!(persist);

    let get = IpcRequest {
        action: "get_credentials".to_string(),
        domain: Some("http://www.example.com/login".to_string()),
        username: None,
        password: None,
    };
    let (resp, persist) = dispatch(&mut app, &get);
    assert!(resp.ok);
    assert!(!persist);
    assert_eq!(resp.username.as_deref(), Some("bob"));
    assert_eq!(resp.password.as_deref(), Some("hunter2"));

    let miss = IpcRequest {
        action: "get_credentials".to_string(),
        domain: Some("othersite.net".to_string()),
        username: None,
        password: None,
    };
    let (resp, _) = dispatch(&mut app, &miss);
    assert!(!resp.ok);
    assert_eq!(resp.error.as_deref(), Some("No credentials found for domain"));

    let nodomain = IpcRequest {
        action: "get_credentials".to_string(),
        domain: None,
        username: None,
        password: None,
    };
    let (resp, _) = dispatch(&mut app, &nodomain);
    assert_eq!(resp.error.as_deref(), Some("Domain not specified"));

    let incomplete = IpcRequest {
        action: "set_credentials".to_string(),
        domain: Some("x.org".to_string()),
        username: None,
        password: Some("p".to_string()),
    };
    let (resp, persist) = dispatch(&mut app, &incomplete);
    assert!(!resp.ok);
    assert!(!persist);
    assert_eq!(resp.error.as_deref(), Some("Missing required fields"));

    let ping = IpcRequest { action: "ping".to_string(), domain: None, username: None, password: None };
    let (resp, _) = dispatch(&mut app, &ping);
    assert!(resp.ok);
    assert!(resp.error.is_none());

    let odd = IpcRequest { action: "reboot".to_string(), domain: None, username: None, password: None };
    let (resp, _) = dispatch(&mut app, &odd);
    assert!(!resp.ok);
    assert_eq!(resp.error.as_deref(), Some("Unknown action"));
}

#[test]
fn set_then_set_again_is_noop() {
    let mut app = App::new(None);
    app.set_master_password("pw").expect("setup");
    let set = IpcRequest {
        action: "set_credentials".to_string(),
        domain: Some("example.com".to_string()),
        username: Some("bob".to_string()),
        password: Some("hunter2".to_string()),
    };
    let (_, first) = dispatch(&mut app, &set);
    assert!(first);
    let (resp, second) = dispatch(&mut app, &set);
    assert!(resp.ok);
    assert!(!second);
    assert_eq!(app.secrets.len(), 1);
}

#[test]
fn http_response_has_exact_shape() {
    let body = "{\"ok\":true}";
    let resp = build_http_response(body);
    let expected = format!(
        "HTTP/1.1 200 OK\r\nContent-Type: application/json\r\nAccess-Control-Allow-Origin: *\r\nAccess-Control-Allow-Methods: POST, OPTIONS\r\nAccess-Control-Allow-Headers: Content-Type\r\nContent-Length: {}\r\n\r\n{}",
        body.len(),
        body
    );
    assert_eq!(resp, expected);
    // the announced length counts UTF-8 bytes, not characters
    let resp2 = build_http_response("ü");
    assert!(resp2.contains("Content-Length: 2\r\n"));
}

#[test]
fn http_request_line_and_headers() {
    assert!(is_options_request("OPTIONS / HTTP/1.1\r\n"));
    assert!(!is_options_request("POST / HTTP/1.1\r\n"));
    assert_eq!(content_length_of("Content-Length: 42\r\n"), Some(42));
    assert_eq!(content_length_of("content-length:7\r\n"), Some(7));
    assert_eq!(content_length_of("Content-Length: nonsense\r\n"), Some(0));
    assert_eq!(content_length_of("Host: localhost\r\n"), None);
}

#[test]
fn native_messaging_frame_roundtrip() {
    let payload = emit_request(&IpcRequest {
        action: "ping".to_string(),
        domain: None,
        username: None,
        password: None,
    });
    let bytes: Vec<u8> = payload.as_bytes().to_vec();
    let frame = encode_frame(&bytes);
    assert_eq!(frame.len(), 4 + bytes.len());
    let header: Vec<u8> = frame[0..4].to_vec();
    assert_eq!(frame_len(&header) as usize, bytes.len());
    assert_eq!(&frame[4..], &bytes[..]);
}

#[test]
fn well_known_endpoints() {
    assert_eq!(get_socket_path(), "/tmp/grimoire.sock");
    assert_eq!(get_pipe_name(), "\\\\.\\pipe\\grimoire");
}
