use nonos_chat::json::JsonValue;
use nonos_chat::protocol::{answer, answer_document, chunks, request, response, Endpoint, Message, Response};

fn obj(members: Vec<(&str, JsonValue)>) -> JsonValue {
    JsonValue::Object(members.into_iter().map(|(k, v)| (k.to_string(), v)).collect())
}

fn ok_reply(raw: &[u8]) -> (u16, Vec<u8>) {
    let r = response(raw).unwrap().unwrap();
    (r.status, r.body)
}

#[test]
fn endpoint_fields() {
    let e = Endpoint::parse("https://api.groq.com/openai/v1").unwrap();
    assert_eq!(e.host, "api.groq.com");
    assert_eq!(e.authority, "api.groq.com");
    assert_eq!(e.port, 443);
    assert_eq!(e.base, "/openai/v1");
    let e = Endpoint::parse("https://10.0.2.2:8080").unwrap();
    assert_eq!(e.host, "10.0.2.2");
    assert_eq!(e.authority, "10.0.2.2:8080");
    assert_eq!(e.port, 8080);
    assert_eq!(e.base, "");
    let e = Endpoint::parse("https://a.b///").unwrap();
    assert_eq!(e.base, "");
    let e = Endpoint::parse("\u{3000}https://a:+443/x\u{a0}").unwrap();
    assert_eq!(e.port, 443);
    assert_eq!(e.base, "/x");
}

#[test]
fn endpoint_errors() {
    assert_eq!(Endpoint::parse("ftp://a").err(), Some("Please enter an HTTPS API URL."));
    assert_eq!(Endpoint::parse("https://a b").err(), Some("Invalid API URL."));
    assert_eq!(Endpoint::parse("https://caf\u{e9}.de").err(), Some("Invalid API URL."));
    assert_eq!(Endpoint::parse("https://a:99999").err(), Some("Invalid port."));
    assert_eq!(Endpoint::parse("https://a:").err(), Some("Invalid port."));
    let bad = "Invalid hostname (IPv6 is not supported yet).";
    assert_eq!(Endpoint::parse("https://-a.com").err(), Some(bad));
    assert_eq!(Endpoint::parse("https://a..com").err(), Some(bad));
    assert_eq!(Endpoint::parse("https://a.com.").err(), Some(bad));
    assert_eq!(Endpoint::parse("https:///v1").err(), Some(bad));
    assert_eq!(Endpoint::parse("https://a_b.com").err(), Some(bad));
    let long_label = format!("https://{}.com", "a".repeat(64));
    assert_eq!(Endpoint::parse(&long_label).err(), Some(bad));
}

#[test]
fn model_listing_request_is_exact() {
    let e = Endpoint::parse("https://openrouter.ai/api/v1").unwrap();
    let r = request(&e, "sk-1", "", &[], true).unwrap();
    assert_eq!(
        String::from_utf8(r).unwrap(),
        "GET /api/v1/models HTTP/1.1\r\nHost: openrouter.ai\r\nAuthorization: Bearer sk-1\r\nContent-Type: application/json\r\nAccept: application/json\r\nAccept-Encoding: identity\r\nConnection: close\r\nContent-Length: 0\r\n\r\n"
    );
}

#[test]
fn chat_request_body_is_exact() {
    let e = Endpoint::parse("https://h").unwrap();
    let msgs = [
        Message { role: "user", text: "hi".into() },
        Message { role: "assistant", text: "h\u{e9}llo".into() },
    ];
    let r = String::from_utf8(request(&e, "k", "  m  ", &msgs, false).unwrap()).unwrap();
    let body = "{\"messages\":[{\"content\":\"hi\",\"role\":\"user\"},{\"content\":\"h\u{e9}llo\",\"role\":\"assistant\"}],\"model\":\"m\",\"stream\":false}";
    assert!(r.starts_with("POST /chat/completions HTTP/1.1\r\nHost: h\r\n"));
    assert!(r.ends_with(&format!("Content-Length: {}\r\n\r\n{}", body.len(), body)));
    assert_eq!(body.len(), 112);
}

#[test]
fn request_errors() {
    let e = Endpoint::parse("https://h").unwrap();
    assert_eq!(
        request(&e, "", "m", &[], false).err(),
        Some("API key is missing or contains invalid characters.")
    );
    assert_eq!(
        request(&e, "k\u{e9}y", "m", &[], true).err(),
        Some("API key is missing or contains invalid characters.")
    );
    assert!(request(&e, &"k".repeat(4096), "m", &[], true).is_ok());
    assert!(request(&e, &"k".repeat(4097), "m", &[], true).is_err());
    assert_eq!(request(&e, "k", " \t", &[], false).err(), Some("Please enter a model ID."));
    assert_eq!(request(&e, "k", &"m".repeat(257), &[], false).err(), Some("Please enter a model ID."));
    assert!(request(&e, "k", &"m".repeat(256), &[], false).is_ok());
    assert!(request(&e, "k", "", &[], true).is_ok());
    let long = [Message { role: "user", text: "x".repeat(15000) }];
    assert_eq!(
        request(&e, "k", "m", &long, false).err(),
        Some("Chat is too long. Please start a new chat.")
    );
}

#[test]
fn reply_framings() {
    assert_eq!(ok_reply(b"HTTP/1.0 404 Not Found\r\ncontent-LENGTH:  3 \r\n\r\nabcdef"), (404, b"abc".to_vec()));
    assert_eq!(ok_reply(b"HTTP/1.1 200 OK\r\nServer: x\r\n\r\n {\"a\":1} "), (200, b" {\"a\":1} ".to_vec()));
    assert!(response(b"HTTP/1.1 200 OK\r\n\r\n{\"a\":").unwrap().is_none());
    assert_eq!(
        ok_reply(b"HTTP/1.1 200 OK\r\nTransfer-Encoding: Chunked\r\n\r\n3;ext=1\r\nabc\r\n+A\r\n0123456789\r\n0\r\nX-Trailer: y\r\n\r\n"),
        (200, b"abc0123456789".to_vec())
    );
    assert_eq!(ok_reply(b"HTTP/1.1 201\r\nContent-Encoding: identity\r\nContent-Length: 0\r\n\r\n"), (201, vec![]));
}

#[test]
fn reply_errors() {
    let cases: Vec<(Vec<u8>, &str)> = vec![
        (vec![b'a'; 256 * 1024 + 1], "Response is too large."),
        ([vec![b'a'; 16385], b"\r\n\r\n".to_vec()].concat(), "HTTP headers are too large."),
        (b"HTTP/1.1 200 \xff\r\n\r\n".to_vec(), "Invalid HTTP response."),
        (b"HTTP/2 200\r\n\r\n".to_vec(), "Invalid HTTP status."),
        (b"HTTP/1.1 70000\r\n\r\n".to_vec(), "Invalid HTTP status."),
        (b"HTTP/1.1\r\n\r\n".to_vec(), "Invalid HTTP status."),
        (b"HTTP/1.1 200 OK\r\nNoColon\r\n\r\n".to_vec(), "Invalid HTTP header."),
        (b"HTTP/1.1 200 OK\r\nContent-Length: -1\r\n\r\n".to_vec(), "Invalid response length."),
        (b"HTTP/1.1 200 OK\r\nContent-Length: 1\r\nContent-Length: 1\r\n\r\n".to_vec(), "Invalid response length."),
        (b"HTTP/1.1 200 OK\r\nTransfer-Encoding: gzip\r\n\r\n".to_vec(), "Unsupported transfer encoding."),
        (b"HTTP/1.1 200 OK\r\nContent-Encoding: gzip\r\n\r\n".to_vec(), "Compressed API responses are not supported."),
        (b"HTTP/1.1 200 OK\r\nTransfer-Encoding: chunked\r\nContent-Length: 1\r\n\r\n".to_vec(), "Ambiguous HTTP response."),
        (b"HTTP/1.1 200 OK\r\nTransfer-Encoding: chunked\r\n\r\nzz\r\n".to_vec(), "Invalid chunk length."),
        (b"HTTP/1.1 200 OK\r\nTransfer-Encoding: chunked\r\n\r\n1;\xff\r\n".to_vec(), "Invalid chunk length."),
        (b"HTTP/1.1 200 OK\r\nTransfer-Encoding: chunked\r\n\r\n40001\r\n".to_vec(), "Response is too large."),
        (b"HTTP/1.1 200 OK\r\nTransfer-Encoding: chunked\r\n\r\n1\r\nabc\r\n".to_vec(), "Invalid chunk boundary."),
    ];
    for (raw, msg) in cases {
        assert_eq!(response(&raw).err(), Some(msg), "{msg}");
    }
}

#[test]
fn answers_for_statuses() {
    let r = |s: u16| Response { status: s, body: Vec::new() };
    assert_eq!(answer(r(403), false).unwrap_err(), "Access denied: check your API key and permissions.");
    assert_eq!(answer(r(404), true).unwrap_err(), "API path or model not found.");
    assert_eq!(answer(r(429), false).unwrap_err(), "Provider limit reached. Please try again later.");
    assert_eq!(answer(r(500), false).unwrap_err(), "API request failed (HTTP 500).");
    assert_eq!(answer(r(199), false).unwrap_err(), "API request failed (HTTP 199).");
    assert_eq!(answer(r(200), false).unwrap_err(), "The API returned invalid JSON.");
}

#[test]
fn answers_for_documents() {
    let r = || Response { status: 200, body: Vec::new() };
    let list = obj(vec![(
        "data",
        JsonValue::Array(vec![
            obj(vec![("id", JsonValue::Str("a".into()))]),
            obj(vec![("id", JsonValue::Number)]),
            obj(vec![("id", JsonValue::Str("b".into()))]),
        ]),
    )]);
    assert_eq!(answer_document(r(), Some(list), true).unwrap(), "Connected. Available models:\na\nb");
    assert_eq!(
        answer_document(r(), Some(obj(vec![("data", JsonValue::Null)])), true).unwrap_err(),
        "No model list returned. Please enter a model ID manually."
    );
    assert_eq!(
        answer_document(r(), Some(obj(vec![("data", JsonValue::Array(vec![JsonValue::Bool(true)]))])), true).unwrap_err(),
        "No models available. Please enter a model ID manually."
    );
    let many = JsonValue::Array(
        (0..100).map(|i| obj(vec![("id", JsonValue::Str(format!("m{i}")))])).collect(),
    );
    let text = answer_document(r(), Some(obj(vec![("data", many)])), true).unwrap();
    assert_eq!(text.lines().count(), 81);
    assert!(text.ends_with("\nm79"));
    let empty = obj(vec![(
        "choices",
        JsonValue::Array(vec![obj(vec![("message", obj(vec![("content", JsonValue::Str(String::new()))]))])]),
    )]);
    assert_eq!(answer_document(r(), Some(empty), false).unwrap_err(), "The model did not return a text response.");
    assert_eq!(
        answer_document(r(), Some(JsonValue::Array(vec![])), false).unwrap_err(),
        "The model did not return a text response."
    );
}

#[test]
fn answers_read_the_body_as_json() {
    let r = |b: &[u8]| Response { status: 200, body: b.to_vec() };
    assert_eq!(answer(r(b"null"), false).unwrap_err(), "The model did not return a text response.");
    assert_eq!(answer(r(b"{\"choices\":"), false).unwrap_err(), "The API returned invalid JSON.");
    // A repeated key keeps its last value, as serde_json's map does.
    let twice = br#"{"choices":[{"message":{"content":"first","content":"second"}}]}"#;
    assert_eq!(answer(r(twice), false).unwrap(), "second");
    let ids = br#"{"data":[{"id":"x"},{"name":"y"},{"id":"z"}]}"#;
    assert_eq!(answer(r(ids), true).unwrap(), "Connected. Available models:\nx\nz");
    // An error status is answered without reading the body.
    assert_eq!(
        answer(Response { status: 500, body: b"{}".to_vec() }, true).unwrap_err(),
        "API request failed (HTTP 500)."
    );
}

#[test]
fn chat_text_is_quoted_as_json() {
    let e = Endpoint::parse("https://a").unwrap();
    let m = [Message { role: "user", text: "a\"b\\c\u{1}\u{8}\t\n\u{c}\r/\u{7f}é".into() }];
    let r = String::from_utf8(request(&e, "k", "m", &m, false).unwrap()).unwrap();
    let body = r.split_once("\r\n\r\n").unwrap().1;
    assert!(body.contains(r#""content":"a\"b\\c\u0001\b\t\n\f\r/"#));
    assert!(body.contains("\u{7f}é\""));
}

#[test]
fn endpoint_parses_back_from_its_normal_form() {
    for raw in [" https://api.example:8443/custom/v1/ ", "https://a", "https://x.y.z//v1//", "https://h:+1/"] {
        let e = Endpoint::parse(raw).unwrap();
        let again = Endpoint::parse(&format!("https://{}{}", e.authority, e.base)).unwrap();
        assert_eq!((again.host, again.authority, again.port, again.base), (e.host, e.authority, e.port, e.base));
    }
}

#[test]
fn chunked_decisions_do_not_change() {
    let body = b"2\r\n{}\r\n0\r\n\r\n";
    for k in 0..body.len() {
        assert_eq!(chunks(&body[..k]), Ok(None));
    }
    assert_eq!(chunks(body), Ok(Some(b"{}".to_vec())));
    assert_eq!(chunks(&[&body[..], b"junk"].concat()), Ok(Some(b"{}".to_vec())));
    assert_eq!(chunks(b"zz\r\n"), Err("Invalid chunk length."));
    assert_eq!(chunks(b"zz\r\nmore"), Err("Invalid chunk length."));
}

#[test]
fn chunked_coding_round_trip() {
    let xs: Vec<Vec<u8>> = vec![b"{\"a\":".to_vec(), vec![b'x'; 300], b"}".to_vec()];
    let mut enc = Vec::new();
    for x in &xs {
        enc.extend_from_slice(format!("{:x}\r\n", x.len()).as_bytes());
        enc.extend_from_slice(x);
        enc.extend_from_slice(b"\r\n");
    }
    enc.extend_from_slice(b"0\r\n\r\n");
    assert_eq!(chunks(&enc), Ok(Some(xs.concat())));
    for k in 0..enc.len() {
        assert_eq!(chunks(&enc[..k]), Ok(None), "prefix {k}");
    }
}
