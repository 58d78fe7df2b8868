use octane::head::{parse_without_body, same_text};
use octane::request::{Headers, HttpVersion, RequestMethod};

#[test]
fn head_with_headers_is_read() {
    let (line, headers) =
        parse_without_body("GET /users/42?x=1 HTTP/1.1\r\nHost: example.org\r\nContent-Length:  5 \t")
            .unwrap();
    assert_eq!(line.method, RequestMethod::Get);
    assert_eq!(line.path.chunks, vec!["users".to_string(), "42".to_string()]);
    assert_eq!(line.version, HttpVersion::Http11);
    assert_eq!(
        headers.pairs,
        vec![
            ("host".to_string(), "example.org".to_string()),
            ("content-length".to_string(), "5".to_string())
        ]
    );
}

#[test]
fn head_without_headers_is_read() {
    let (line, headers) = parse_without_body("DELETE /x HTTP/1.0").unwrap();
    assert_eq!(line.method, RequestMethod::Delete);
    assert_eq!(line.version, HttpVersion::Http10);
    assert!(headers.pairs.is_empty());
}

#[test]
fn every_method_is_known_by_its_name() {
    let names = [
        ("OPTIONS", RequestMethod::Options),
        ("GET", RequestMethod::Get),
        ("HEAD", RequestMethod::Head),
        ("POST", RequestMethod::Post),
        ("PUT", RequestMethod::Put),
        ("DELETE", RequestMethod::Delete),
        ("TRACE", RequestMethod::Trace),
        ("CONNECT", RequestMethod::Connect),
        ("PATCH", RequestMethod::Patch),
        ("BREW", RequestMethod::Unknown),
        ("get", RequestMethod::Unknown),
    ];
    for (name, method) in names {
        let (line, _) = parse_without_body(&format!("{} / HTTP/1.1", name)).unwrap();
        assert_eq!(line.method, method);
        assert_eq!(method.is_some(), method != RequestMethod::Unknown);
    }
}

#[test]
fn versions_are_read() {
    assert_eq!(parse_without_body("GET / HTTP/2").unwrap().0.version, HttpVersion::Http2);
    assert_eq!(parse_without_body("GET / HTTP/2.0").unwrap().0.version, HttpVersion::Http2);
    assert!(parse_without_body("GET / HTTP/3").is_none());
    assert!(parse_without_body("GET / http/1.1").is_none());
}

#[test]
fn malformed_heads_are_refused() {
    assert!(parse_without_body("").is_none());
    assert!(parse_without_body("GET /").is_none());
    assert!(parse_without_body("GET  / HTTP/1.1").is_none());
    assert!(parse_without_body(" GET / HTTP/1.1").is_none());
    assert!(parse_without_body("GET / HTTP/1.1 ").is_none());
    assert!(parse_without_body("GET /users/: HTTP/1.1").is_none());
    assert!(parse_without_body("GET / HTTP/1.1\r\nno colon here").is_none());
    assert!(parse_without_body("GET / HTTP/1.1\r\n: value").is_none());
    assert!(parse_without_body("GET / HTTP/1.1\r\n").is_none());
    assert!(parse_without_body("GET / HTTP/1.1\r\nA: b\r\n").is_none());
}

#[test]
fn header_value_may_be_empty_and_hold_colons() {
    let (_, headers) = parse_without_body("GET / HTTP/1.1\r\nX-Empty:\r\nX-Time: 10:30").unwrap();
    assert_eq!(
        headers.pairs,
        vec![
            ("x-empty".to_string(), String::new()),
            ("x-time".to_string(), "10:30".to_string())
        ]
    );
}

#[test]
fn header_lookup_ignores_case_and_takes_the_last() {
    let headers = Headers {
        pairs: vec![
            ("accept".to_string(), "a".to_string()),
            ("host".to_string(), "first".to_string()),
            ("host".to_string(), "second".to_string()),
        ],
    };
    assert_eq!(headers.get("Host"), Some(&"second".to_string()));
    assert_eq!(headers.get("ACCEPT"), Some(&"a".to_string()));
    assert_eq!(headers.get("cookie"), None);
}

#[test]
fn same_text_compares_a_part() {
    let chars: Vec<char> = "xxGETyy".chars().collect();
    assert!(same_text(&chars, 2, 5, "GET"));
    assert!(!same_text(&chars, 2, 6, "GET"));
    assert!(!same_text(&chars, 1, 4, "GET"));
}
