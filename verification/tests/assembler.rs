use octane::assembler::{body_length, parse_usize, Assembler, Progress};
use octane::constants::StatusCode;
use octane::request::{Headers, HttpVersion, Request, RequestMethod};

const FULL: &[u8] = b"POST /submit/7 HTTP/1.1\r\nHost: h\r\nContent-Length: 5\r\n\r\nhello";

fn assemble(stream: &[u8], size: usize) -> Option<Request> {
    let mut assembler = Assembler::new();
    for chunk in stream.chunks(size) {
        assembler = assembler.feed(chunk);
    }
    assembler.finish()
}

fn same(a: &Request, b: &Request) -> bool {
    a.request_line.method == b.request_line.method
        && a.request_line.path.chunks == b.request_line.path.chunks
        && a.request_line.version == b.request_line.version
        && a.headers.pairs == b.headers.pairs
        && a.body == b.body
}

#[test]
fn one_chunk_assembles_the_request() {
    let assembler = Assembler::new();
    assert_eq!(assembler.progress(), Progress::NeedHead);
    let assembler = assembler.feed(FULL);
    assert_eq!(assembler.progress(), Progress::Done);
    let request = assembler.finish().unwrap();
    assert_eq!(request.request_line.method, RequestMethod::Post);
    assert_eq!(request.request_line.path.chunks, vec!["submit".to_string(), "7".to_string()]);
    assert_eq!(request.request_line.version, HttpVersion::Http11);
    assert_eq!(
        request.headers.pairs,
        vec![
            ("host".to_string(), "h".to_string()),
            ("content-length".to_string(), "5".to_string())
        ]
    );
    assert_eq!(request.body, b"hello".to_vec());
}

#[test]
fn fragmentation_does_not_change_the_request() {
    let whole = assemble(FULL, FULL.len()).unwrap();
    let by_one = assemble(FULL, 1).unwrap();
    let by_4096 = assemble(FULL, 4096).unwrap();
    let by_seven = assemble(FULL, 7).unwrap();
    assert!(same(&whole, &by_one));
    assert!(same(&whole, &by_4096));
    assert!(same(&whole, &by_seven));
}

#[test]
fn short_body_asks_for_one_exact_read() {
    let first = b"POST / HTTP/1.1\r\ncontent-length: 5\r\n\r\nhe";
    let assembler = Assembler::new().feed(first);
    assert_eq!(assembler.progress(), Progress::NeedBody(3));
    let assembler = assembler.feed(b"llo");
    assert_eq!(assembler.progress(), Progress::Done);
    assert_eq!(assembler.finish().unwrap().body, b"hello".to_vec());
}

#[test]
fn body_read_may_come_in_pieces_and_takes_no_more_than_is_missing() {
    let first = b"POST / HTTP/1.1\r\ncontent-length: 5\r\n\r\nhe";
    let assembler = Assembler::new().feed(first).feed(b"l");
    assert_eq!(assembler.progress(), Progress::NeedBody(2));
    let assembler = assembler.feed(b"lo and more");
    assert_eq!(assembler.finish().unwrap().body, b"hello".to_vec());
}

#[test]
fn body_that_is_already_there_is_cut_to_its_length() {
    let stream = b"POST / HTTP/1.1\r\ncontent-length: 2\r\n\r\nhello";
    assert_eq!(assemble(stream, stream.len()).unwrap().body, b"he".to_vec());
    assert_eq!(assemble(stream, 1).unwrap().body, b"he".to_vec());
}

#[test]
fn no_content_length_means_no_body() {
    let stream = b"GET / HTTP/1.1\r\nhost: h\r\n\r\nignored";
    let request = assemble(stream, stream.len()).unwrap();
    assert!(request.body.is_empty());
    let unparsable = b"GET / HTTP/1.1\r\ncontent-length: five\r\n\r\nignored";
    assert!(assemble(unparsable, 3).unwrap().body.is_empty());
}

#[test]
fn zero_length_read_before_the_head_is_a_bad_request() {
    let assembler = Assembler::new().feed(b"GET / HT").feed(b"");
    assert_eq!(assembler.progress(), Progress::Failed(StatusCode::BadRequest));
    assert!(assembler.finish().is_none());
    let closed = Assembler::new().feed(b"");
    assert_eq!(closed.progress(), Progress::Failed(StatusCode::BadRequest));
}

#[test]
fn zero_length_read_before_the_body_is_complete_is_a_bad_request() {
    let assembler =
        Assembler::new().feed(b"POST / HTTP/1.1\r\ncontent-length: 5\r\n\r\nhe").feed(b"");
    assert_eq!(assembler.progress(), Progress::Failed(StatusCode::BadRequest));
}

#[test]
fn undecodable_head_is_a_bad_request() {
    let assembler = Assembler::new().feed(b"GET /\xff HTTP/1.1\r\n\r\n");
    assert_eq!(assembler.progress(), Progress::Failed(StatusCode::BadRequest));
}

#[test]
fn decodable_head_with_wide_characters_is_read() {
    let stream = "GET /caf\u{e9}/\u{4e2d} HTTP/1.1\r\n\r\n".as_bytes();
    let request = assemble(stream, 1).unwrap();
    assert_eq!(
        request.request_line.path.chunks,
        vec!["caf\u{e9}".to_string(), "\u{4e2d}".to_string()]
    );
}

#[test]
fn malformed_head_is_a_bad_request() {
    let assembler = Assembler::new().feed(b"nonsense\r\n\r\n");
    assert_eq!(assembler.progress(), Progress::Failed(StatusCode::BadRequest));
    let still = assembler.feed(b"GET / HTTP/1.1\r\n\r\n");
    assert_eq!(still.progress(), Progress::Failed(StatusCode::BadRequest));
}

#[test]
fn complete_request_ignores_further_reads() {
    let assembler = Assembler::new().feed(b"GET /a HTTP/1.1\r\n\r\n").feed(b"GET /b HTTP/1.1\r\n\r\n");
    let request = assembler.finish().unwrap();
    assert_eq!(request.request_line.path.chunks, vec!["a".to_string()]);
}

#[test]
fn head_is_not_complete_until_both_line_breaks_came() {
    let assembler = Assembler::new().feed(b"GET / HTTP/1.1\r\n\r");
    assert_eq!(assembler.progress(), Progress::NeedHead);
    assert_eq!(assembler.feed(b"\n").progress(), Progress::Done);
}

#[test]
fn numbers_are_read_as_rust_reads_them() {
    assert_eq!(parse_usize("0"), Some(0));
    assert_eq!(parse_usize("42"), Some(42));
    assert_eq!(parse_usize("+42"), Some(42));
    assert_eq!(parse_usize("007"), Some(7));
    assert_eq!(parse_usize(""), None);
    assert_eq!(parse_usize("+"), None);
    assert_eq!(parse_usize("-1"), None);
    assert_eq!(parse_usize("4 2"), None);
    assert_eq!(parse_usize("12a"), None);
    assert_eq!(parse_usize(&usize::MAX.to_string()), Some(usize::MAX));
    assert_eq!(parse_usize(&format!("{}0", usize::MAX)), None);
    assert_eq!(parse_usize("99999999999999999999999999"), None);
    for text in ["0", "42", "+42", "007", "", "+", "-1", "4 2", "12a", "18446744073709551616"] {
        assert_eq!(parse_usize(text), text.parse::<usize>().ok());
    }
}

#[test]
fn body_length_takes_the_last_content_length() {
    let headers = Headers {
        pairs: vec![
            ("content-length".to_string(), "3".to_string()),
            ("content-length".to_string(), "8".to_string()),
        ],
    };
    assert_eq!(body_length(&headers), 8);
    assert_eq!(body_length(&Headers { pairs: Vec::new() }), 0);
}
