use octane::config::OctaneConfig;
use octane::constants::{StatusCode, BUF_SIZE};
use octane::path::PathBuf;
use octane::request::{Headers, HttpVersion, Request, RequestLine, RequestMethod};
use octane::responder::{digits, reason, Response};
use octane::router::{route, Flow, Route, Router};
use octane::server::{conclude, timeout, Octane, Outcome};
use octane::util::{bytes_of, chars_of, find_char, find_in_slice, text_of};

fn request(method: RequestMethod, target: &str, version: HttpVersion, headers: &[(&str, &str)]) -> Request {
    Request {
        request_line: RequestLine { method, path: PathBuf::parse(target).unwrap(), version },
        headers: Headers {
            pairs: headers.iter().map(|(n, v)| (n.to_string(), v.to_string())).collect(),
        },
        body: Vec::new(),
    }
}

#[test]
fn unmatched_delete_is_not_found() {
    let mut app = Octane::new();
    app.get("/x", route(|_req, res| {
        res.send(b"got");
        Flow::Stop
    }))
    .unwrap();
    let mut res = Response::new(b"");
    let outcome = app.respond(request(RequestMethod::Delete, "/x", HttpVersion::Http11, &[]), &mut res);
    assert!(matches!(outcome, Outcome::Error(StatusCode::NotFound)));
    assert!(!res.has_body);
}

#[test]
fn unknown_method_is_not_implemented_and_runs_nothing() {
    let ran = std::sync::Arc::new(std::sync::Mutex::new(0));
    let count = std::sync::Arc::clone(&ran);
    let mut app = Octane::new();
    app.add(route(move |_req, _res| {
        *count.lock().unwrap() += 1;
        Flow::Next
    }))
    .unwrap();
    let mut res = Response::new(b"");
    let outcome = app.respond(request(RequestMethod::Unknown, "/", HttpVersion::Http11, &[]), &mut res);
    assert!(matches!(outcome, Outcome::Error(StatusCode::NotImplemented)));
    assert_eq!(*ran.lock().unwrap(), 0);
}

#[test]
fn handler_with_body_is_sent_and_no_file_is_tried() {
    let mut app = Octane::new();
    app.add_static_dir("/", "public");
    app.get("/a.txt", route(|_req, res| {
        res.send(b"A");
        Flow::Stop
    }))
    .unwrap();
    let mut res = Response::new(b"");
    let outcome = app.respond(request(RequestMethod::Get, "/a.txt", HttpVersion::Http11, &[]), &mut res);
    assert!(matches!(outcome, Outcome::Respond));
    assert_eq!(res.body, b"A".to_vec());
}

#[test]
fn get_without_body_tries_the_files() {
    let mut app = Octane::new();
    app.add_static_dir("/static", "public");
    app.add_static_dir("/other", "elsewhere");
    app.add_static_dir("/static", "assets");
    let mut res = Response::new(b"");
    let outcome =
        app.respond(request(RequestMethod::Get, "/static/a.css", HttpVersion::Http11, &[]), &mut res);
    match outcome {
        Outcome::Files(files) => assert_eq!(
            files,
            vec![
                ("public".to_string(), "a.css".to_string()),
                ("assets".to_string(), "a.css".to_string())
            ]
        ),
        _ => panic!("files were expected"),
    }
    let mut res = Response::new(b"");
    let posted =
        app.respond(request(RequestMethod::Post, "/static/a.css", HttpVersion::Http11, &[]), &mut res);
    assert!(matches!(posted, Outcome::Error(StatusCode::NotFound)));
}

#[test]
fn conclude_decides_by_body_method_and_files() {
    let files = vec![("d".to_string(), "f".to_string())];
    assert!(matches!(conclude(true, RequestMethod::Get, files.clone()), Outcome::Respond));
    assert!(matches!(conclude(true, RequestMethod::Post, Vec::new()), Outcome::Respond));
    assert!(matches!(conclude(false, RequestMethod::Get, files.clone()), Outcome::Files(_)));
    assert!(matches!(
        conclude(false, RequestMethod::Get, Vec::new()),
        Outcome::Error(StatusCode::NotFound)
    ));
    assert!(matches!(
        conclude(false, RequestMethod::Head, files),
        Outcome::Error(StatusCode::NotFound)
    ));
}

#[test]
fn location_covers_the_paths_below_it() {
    let mut config = OctaneConfig::new();
    config.add_static_dir("/static/css", "styles");
    let files = |target: &str| config.files(&PathBuf::parse(target).unwrap());
    assert_eq!(files("/static/css/a.css"), vec![("styles".to_string(), "a.css".to_string())]);
    assert_eq!(files("/static/css/deep/a.css"), vec![("styles".to_string(), "a.css".to_string())]);
    assert!(files("/static/a.css").is_empty());
    assert!(files("/a.css").is_empty());
    assert!(files("/").is_empty());
    assert!(files("/static/css").is_empty());
    assert!(files("/other/a.css").is_empty());
    assert!(files("/static/js/a.js").is_empty());
    assert!(files("/css/static/a.css").is_empty());
}

#[test]
fn location_without_components_covers_every_path() {
    let mut config = OctaneConfig::new();
    config.add_static_dir("/", "public");
    let files = |target: &str| config.files(&PathBuf::parse(target).unwrap());
    assert_eq!(files("/a.css"), vec![("public".to_string(), "a.css".to_string())]);
    assert_eq!(files("/x/y/a.css"), vec![("public".to_string(), "a.css".to_string())]);
    assert_eq!(files("/"), vec![("public".to_string(), String::new())]);
}

#[test]
fn config_is_set_and_appended() {
    let mut config = OctaneConfig::new();
    assert_eq!(config.keep_alive, None);
    config.set_keepalive(5);
    config.set_404_file("404.html");
    config.add_static_dir("/a", "one");
    let mut other = OctaneConfig::new();
    other.set_keepalive(9);
    other.add_static_dir("/a", "two");
    config.append(other);
    assert_eq!(config.keep_alive, Some(9));
    assert_eq!(config.file_404, "");
    assert_eq!(config.static_dir.len(), 1);
    assert_eq!(config.static_dir[0].dirs, vec!["one".to_string(), "two".to_string()]);
    assert_eq!(
        config.files(&PathBuf::parse("/a/f").unwrap()),
        vec![("one".to_string(), "f".to_string()), ("two".to_string(), "f".to_string())]
    );
    let mut app = Octane::new();
    let mut settings = OctaneConfig::new();
    settings.set_404_file("nothing.html");
    app.set_404_file("first.html");
    assert_eq!(app.settings().file_404, "first.html");
    app.with_config(settings);
    assert_eq!(app.settings().file_404, "nothing.html");
}

#[test]
fn keep_alive_follows_the_connection_header() {
    let mut app = Octane::new();
    app.set_keepalive(30);
    let ask = |version, headers: &[(&str, &str)]| {
        app.keep_alive(&request(RequestMethod::Get, "/", version, headers))
    };
    assert_eq!(ask(HttpVersion::Http11, &[]), None);
    assert_eq!(ask(HttpVersion::Http11, &[("connection", "close")]), None);
    assert_eq!(ask(HttpVersion::Http11, &[("connection", "Keep-Alive")]), Some(Some(30)));
    assert_eq!(ask(HttpVersion::Http2, &[("connection", "keep-alive")]), None);
    assert_eq!(ask(HttpVersion::Http10, &[("connection", "keep-alive")]), None);
    assert_eq!(
        ask(HttpVersion::Http10, &[("connection", "keep-alive"), ("keep-alive", "timeout=5, max=100")]),
        Some(Some(5))
    );
    assert_eq!(
        ask(HttpVersion::Http10, &[("connection", "keep-alive"), ("keep-alive", "max=100")]),
        Some(Some(0))
    );
    let plain = Octane::new();
    assert_eq!(
        plain.keep_alive(&request(
            RequestMethod::Get,
            "/",
            HttpVersion::Http11,
            &[("connection", "keep-alive")]
        )),
        Some(None)
    );
}

#[test]
fn timeout_is_the_number_of_the_first_timeout_part() {
    assert_eq!(timeout("timeout=5"), Some(5));
    assert_eq!(timeout("max=10, Timeout=7"), Some(7));
    assert_eq!(timeout(" timeout=3 ,max=1"), Some(3));
    assert_eq!(timeout("timeout=x, timeout=4"), None);
    assert_eq!(timeout("timeout = 5"), None);
    assert_eq!(timeout("max=10"), None);
    assert_eq!(timeout(""), None);
}

#[test]
fn use_router_appends() {
    let mut app = Octane::new();
    app.get("/", route(|_req, _res| Flow::Next)).unwrap();
    let mut router = Router::new();
    router.get("/", route(|_req, _res| Flow::Next)).unwrap();
    router.add(route(|_req, _res| Flow::Next)).unwrap();
    app.use_router(router);
    assert_eq!(app.router().route_counter, 3);
    assert_eq!(app.router().middlewares.len(), 1);
    assert_eq!(app.router().middlewares[0].index, 2);
}

#[test]
fn status_codes_have_their_numbers() {
    assert_eq!(StatusCode::BadRequest.code(), 400);
    assert_eq!(StatusCode::NotFound.code(), 404);
    assert_eq!(StatusCode::NotImplemented.code(), 501);
    assert_eq!(BUF_SIZE, 512);
}

#[test]
fn response_accumulates() {
    let mut res = Response::new(b"");
    assert!(!res.has_body);
    assert_eq!(res.status, 200);
    res.set_status(201);
    res.set_header("content-type".to_string(), "text/plain".to_string());
    res.send(b"made");
    assert!(res.has_body);
    assert_eq!(res.status, 201);
    assert_eq!(res.headers, vec![("content-type".to_string(), "text/plain".to_string())]);
    assert_eq!(res.body, b"made".to_vec());
    assert!(Response::new(b"x").has_body);
}

#[test]
fn find_in_slice_finds_the_first_occurrence() {
    assert_eq!(find_in_slice(b"a\r\n\r\nb\r\n\r\n", b"\r\n\r\n"), Some(1));
    assert_eq!(find_in_slice(b"\r\n\r", b"\r\n\r\n"), None);
    assert_eq!(find_in_slice(b"abc", b""), Some(0));
    assert_eq!(find_in_slice(b"", b"a"), None);
    assert_eq!(find_in_slice(b"aab", b"ab"), Some(1));
}

#[test]
fn text_helpers_cut_and_find() {
    let chars = chars_of("a/b?c");
    assert_eq!(chars, vec!['a', '/', 'b', '?', 'c']);
    assert_eq!(text_of(&chars, 1, 4), "/b?");
    assert_eq!(find_char(&chars, 0, 5, '?'), 3);
    assert_eq!(find_char(&chars, 0, 3, '?'), 3);
    assert_eq!(find_char(&chars, 4, 5, '/'), 5);
    assert_eq!(bytes_of(b"hello", 1, 3), b"el".to_vec());
}

#[test]
fn response_goes_over_the_wire() {
    let mut res = Response::new(b"");
    res.set_header("content-type".to_string(), "text/plain".to_string());
    res.set_header("x-a".to_string(), "b".to_string());
    res.send(b"hello world!");
    assert_eq!(
        res.get_data(),
        b"HTTP/1.1 200 OK\r\ncontent-type: text/plain\r\nx-a: b\r\ncontent-length: 12\r\n\r\nhello world!"
            .to_vec()
    );
    let mut odd = Response::new(b"");
    odd.set_status(299);
    assert_eq!(odd.get_data(), b"HTTP/1.1 299 \r\ncontent-length: 0\r\n\r\n".to_vec());
}

#[test]
fn error_response_names_its_status() {
    let res = Response::error(StatusCode::NotFound);
    assert_eq!(res.status, 404);
    assert!(res.has_body);
    assert_eq!(
        res.get_data(),
        b"HTTP/1.1 404 Not Found\r\ncontent-length: 9\r\n\r\nNot Found".to_vec()
    );
    assert_eq!(Response::error(StatusCode::BadRequest).body, b"Bad Request".to_vec());
    assert_eq!(Response::error(StatusCode::NotImplemented).body, b"Not Implemented".to_vec());
}

#[test]
fn digits_and_reasons_are_rendered() {
    assert_eq!(digits(0), b"0".to_vec());
    assert_eq!(digits(7), b"7".to_vec());
    assert_eq!(digits(10), b"10".to_vec());
    assert_eq!(digits(65535), b"65535".to_vec());
    assert_eq!(reason(200), "OK");
    assert_eq!(reason(501), "Not Implemented");
    assert_eq!(reason(418), "");
}

#[test]
fn options_are_registered_for_options_requests() {
    let mut app = Octane::default();
    let registered = app.options("/x", route(|_req, res| {
        res.send(b"allow");
        Flow::Stop
    }));
    assert_eq!(registered, Ok(0));
    assert_eq!(app.options("/:", route(|_req, _res| Flow::Next)).is_err(), true);
    let mut res = Response::new(b"");
    let outcome = app.respond(request(RequestMethod::Options, "/x", HttpVersion::Http11, &[]), &mut res);
    assert!(matches!(outcome, Outcome::Respond));
    assert_eq!(res.body, b"allow".to_vec());
    let mut other = Response::new(b"");
    let got = app.respond(request(RequestMethod::Get, "/x", HttpVersion::Http11, &[]), &mut other);
    assert!(matches!(got, Outcome::Error(StatusCode::NotFound)));
    assert_eq!(Router::default().route_counter, 0);
}

#[test]
fn new_server_has_no_handler_and_no_trie() {
    let app = Octane::new();
    assert_eq!(app.router().route_counter, 0);
    assert!(app.router().middlewares.is_empty());
    assert_eq!(app.router().paths.len(), 0);
    assert_eq!(app.settings().keep_alive, None);
    assert!(app.settings().static_dir.is_empty());
    assert_eq!(app.settings().file_404, "");
}

#[test]
fn append_merges_equal_locations_and_keeps_the_others() {
    let mut config = OctaneConfig::new();
    config.add_static_dir("/a", "one");
    config.add_static_dir("/b", "two");
    let mut other = OctaneConfig::new();
    other.add_static_dir("/c", "three");
    other.add_static_dir("a", "four");
    other.add_static_dir("/c/", "five");
    config.append(other);
    let held: Vec<(Vec<String>, Vec<String>)> = config
        .static_dir
        .iter()
        .map(|mapping| (mapping.prefix.chunks.clone(), mapping.dirs.clone()))
        .collect();
    assert_eq!(
        held,
        vec![
            (vec!["a".to_string()], vec!["one".to_string(), "four".to_string()]),
            (vec!["b".to_string()], vec!["two".to_string()]),
            (vec!["c".to_string()], vec!["three".to_string(), "five".to_string()]),
        ]
    );
}

#[test]
fn error_answer_takes_the_file_only_for_what_was_not_found() {
    let mut app = Octane::new();
    assert_eq!(app.error_file(StatusCode::NotFound), None);
    assert_eq!(app.declare(StatusCode::NotFound, Some(b"page".to_vec())).body, b"Not Found".to_vec());
    app.set_404_file("404.html");
    assert_eq!(app.error_file(StatusCode::NotFound), Some(&"404.html".to_string()));
    assert_eq!(app.error_file(StatusCode::BadRequest), None);
    assert_eq!(app.error_file(StatusCode::NotImplemented), None);
    let found = app.declare(StatusCode::NotFound, Some(b"<h1>gone</h1>".to_vec()));
    assert_eq!(found.status, 404);
    assert!(found.has_body);
    assert_eq!(found.body, b"<h1>gone</h1>".to_vec());
    assert_eq!(app.declare(StatusCode::NotFound, None).body, b"Not Found".to_vec());
    let bad = app.declare(StatusCode::BadRequest, Some(b"<h1>gone</h1>".to_vec()));
    assert_eq!(bad.status, 400);
    assert_eq!(bad.body, b"Bad Request".to_vec());
}
