//! The grammar of the head of a request, and the function that reads it.

use vstd::prelude::*;
use crate::path::{split_path, valid_chunks, PathBuf};
use crate::request::{
    lower_all, lowered, Headers, HttpVersion, RequestLine, RequestLineView, RequestMethod,
};
use crate::util::{chars_of, find_char, first_of, text_of};

verus! {

/// The method that a token of the request line names.
pub open spec fn method_of(token: Seq<char>) -> RequestMethod {
    if token == "OPTIONS"@ {
        RequestMethod::Options
    } else if token == "GET"@ {
        RequestMethod::Get
    } else if token == "HEAD"@ {
        RequestMethod::Head
    } else if token == "POST"@ {
        RequestMethod::Post
    } else if token == "PUT"@ {
        RequestMethod::Put
    } else if token == "DELETE"@ {
        RequestMethod::Delete
    } else if token == "TRACE"@ {
        RequestMethod::Trace
    } else if token == "CONNECT"@ {
        RequestMethod::Connect
    } else if token == "PATCH"@ {
        RequestMethod::Patch
    } else {
        RequestMethod::Unknown
    }
}

/// The version that a token of the request line names, if it names one.
pub open spec fn version_of(token: Seq<char>) -> Option<HttpVersion> {
    if token == "HTTP/1.0"@ {
        Some(HttpVersion::Http10)
    } else if token == "HTTP/1.1"@ {
        Some(HttpVersion::Http11)
    } else if token == "HTTP/2.0"@ || token == "HTTP/2"@ {
        Some(HttpVersion::Http2)
    } else {
        None
    }
}

/// What a request line says: a method, a target and a version with one
/// space between them, none of them empty. The path is the target up to
/// its first `?`; its components must be well formed. A method that the
/// server does not know is no fault of the line.
pub open spec fn parse_request_line(line: Seq<char>) -> Option<RequestLineView> {
    let a = first_of(line, ' ');
    if a == 0 || a >= line.len() {
        None
    } else {
        let rest = line.skip(a as int + 1);
        let b = first_of(rest, ' ');
        if b == 0 || b >= rest.len() {
            None
        } else {
            let target = rest.take(b as int);
            let path = target.take(first_of(target, '?') as int);
            match version_of(rest.skip(b as int + 1)) {
                Some(version) => if valid_chunks(split_path(path)) {
                    Some(
                        RequestLineView {
                            method: method_of(line.take(a as int)),
                            path: split_path(path),
                            version,
                        },
                    )
                } else {
                    None
                },
                None => None,
            }
        }
    }
}

/// A space or a tab.
pub open spec fn is_blank(c: char) -> bool {
    c == ' ' || c == '\t'
}

/// A text without the blanks at its start.
pub open spec fn trim_start(s: Seq<char>) -> Seq<char>
    decreases s.len(),
{
    if s.len() > 0 && is_blank(s[0]) {
        trim_start(s.drop_first())
    } else {
        s
    }
}

/// A text without the blanks at its end.
pub open spec fn trim_end(s: Seq<char>) -> Seq<char>
    decreases s.len(),
{
    if s.len() > 0 && is_blank(s.last()) {
        trim_end(s.drop_last())
    } else {
        s
    }
}

/// A text without the blanks at its start and at its end.
pub open spec fn trim(s: Seq<char>) -> Seq<char> {
    trim_end(trim_start(s))
}

/// What a header line says: a name, which is not empty, a colon and a
/// value. The name is taken in lower case, the value without the blanks
/// around it.
pub open spec fn parse_header_line(line: Seq<char>) -> Option<(Seq<char>, Seq<char>)> {
    let colon = first_of(line, ':');
    if colon == 0 || colon >= line.len() {
        None
    } else {
        Some((lower_all(line.take(colon as int)), trim(line.skip(colon as int + 1))))
    }
}

/// A line break, a carriage return with a line feed behind it, stands in
/// `s` at position `at`.
pub open spec fn breaks_at(s: Seq<char>, at: int) -> bool {
    0 <= at && at + 1 < s.len() && s[at] == '\r' && s[at + 1] == '\n'
}

/// How many characters stand before the first line break of `s` (all of
/// them, if it has none).
pub open spec fn first_break(s: Seq<char>) -> nat
    decreases s.len(),
{
    if s.len() < 2 {
        s.len()
    } else if breaks_at(s, 0) {
        0
    } else {
        1 + first_break(s.drop_first())
    }
}

/// What the header lines say, line by line; nothing if one of them is no
/// header line.
pub open spec fn parse_headers(text: Seq<char>) -> Option<Seq<(Seq<char>, Seq<char>)>>
    decreases text.len(),
{
    let n = first_break(text);
    match parse_header_line(text.take(n as int)) {
        Some(pair) => if n + 2 > text.len() {
            Some(seq![pair])
        } else {
            match parse_headers(text.skip(n as int + 2)) {
                Some(rest) => Some(seq![pair] + rest),
                None => None,
            }
        },
        None => None,
    }
}

/// The head of a request, as a mathematical value.
pub struct HeadView {
    pub line: RequestLineView,
    pub headers: Seq<(Seq<char>, Seq<char>)>,
}

/// What the head of a request says: its first line is the request line,
/// each further line a header.
pub open spec fn parse_head(text: Seq<char>) -> Option<HeadView> {
    let n = first_break(text);
    match parse_request_line(text.take(n as int)) {
        Some(line) => if n + 2 > text.len() {
            Some(HeadView { line, headers: Seq::empty() })
        } else {
            match parse_headers(text.skip(n as int + 2)) {
                Some(headers) => Some(HeadView { line, headers }),
                None => None,
            }
        },
        None => None,
    }
}

/// `first_break` stays within the sequence, no line break stands before
/// it, and one stands at it unless it is the end.
pub proof fn lemma_first_break(s: Seq<char>)
    ensures
        first_break(s) <= s.len(),
        first_break(s) < s.len() ==> breaks_at(s, first_break(s) as int),
        forall|j: int| 0 <= j < first_break(s) ==> !#[trigger] breaks_at(s, j),
    decreases s.len(),
{
    if s.len() < 2 {
        assert forall|j: int| 0 <= j < first_break(s) implies !#[trigger] breaks_at(s, j) by {}
    } else if breaks_at(s, 0) {
    } else {
        let t = s.drop_first();
        lemma_first_break(t);
        let n = first_break(t) as int;
        if n < t.len() {
            assert(breaks_at(t, n));
            assert(s[n + 1] == t[n]);
            assert(s[n + 2] == t[n + 1]);
        }
        assert forall|j: int| 0 <= j < first_break(s) implies !#[trigger] breaks_at(s, j) by {
            if j > 0 {
                assert(!breaks_at(t, j - 1));
                if j + 1 < s.len() {
                    assert(s[j] == t[j - 1]);
                    assert(s[j + 1] == t[j]);
                }
            }
        }
    }
}

/// A run without a line break that ends at one, or at the end of the
/// sequence, ends where `first_break` says.
pub proof fn lemma_first_break_is(s: Seq<char>, n: int)
    requires
        0 <= n <= s.len(),
        forall|j: int| 0 <= j < n ==> !#[trigger] breaks_at(s, j),
        n < s.len() ==> breaks_at(s, n),
    ensures
        first_break(s) == n,
{
    lemma_first_break(s);
    let m = first_break(s) as int;
    if m < n {
        assert(breaks_at(s, m));
    }
}

/// Whether `chars[from..to]` is the text `word`.
pub fn same_text(chars: &Vec<char>, from: usize, to: usize, word: &str) -> (same: bool)
    requires
        from <= to <= chars@.len(),
    ensures
        same == (chars@.subrange(from as int, to as int) == word@),
{
    let letters = chars_of(word);
    let ghost part = chars@.subrange(from as int, to as int);
    if letters.len() != to - from {
        return false;
    }
    let mut i: usize = 0;
    while i < letters.len()
        invariant
            from <= to <= chars@.len(),
            letters@ == word@,
            letters@.len() == to - from,
            part == chars@.subrange(from as int, to as int),
            i <= letters@.len(),
            forall|j: int| 0 <= j < i ==> part[j] == letters@[j],
        decreases letters@.len() - i,
    {
        if chars[from + i] != letters[i] {
            return false;
        }
        i += 1;
    }
    proof {
        assert(part =~= letters@);
    }
    true
}

/// The method that `chars[from..to]` names.
fn method(chars: &Vec<char>, from: usize, to: usize) -> (m: RequestMethod)
    requires
        from <= to <= chars@.len(),
    ensures
        m == method_of(chars@.subrange(from as int, to as int)),
{
    if same_text(chars, from, to, "OPTIONS") {
        RequestMethod::Options
    } else if same_text(chars, from, to, "GET") {
        RequestMethod::Get
    } else if same_text(chars, from, to, "HEAD") {
        RequestMethod::Head
    } else if same_text(chars, from, to, "POST") {
        RequestMethod::Post
    } else if same_text(chars, from, to, "PUT") {
        RequestMethod::Put
    } else if same_text(chars, from, to, "DELETE") {
        RequestMethod::Delete
    } else if same_text(chars, from, to, "TRACE") {
        RequestMethod::Trace
    } else if same_text(chars, from, to, "CONNECT") {
        RequestMethod::Connect
    } else if same_text(chars, from, to, "PATCH") {
        RequestMethod::Patch
    } else {
        RequestMethod::Unknown
    }
}

/// The version that `chars[from..to]` names, if it names one.
fn version(chars: &Vec<char>, from: usize, to: usize) -> (v: Option<HttpVersion>)
    requires
        from <= to <= chars@.len(),
    ensures
        v == version_of(chars@.subrange(from as int, to as int)),
{
    if same_text(chars, from, to, "HTTP/1.0") {
        Some(HttpVersion::Http10)
    } else if same_text(chars, from, to, "HTTP/1.1") {
        Some(HttpVersion::Http11)
    } else if same_text(chars, from, to, "HTTP/2.0") || same_text(chars, from, to, "HTTP/2") {
        Some(HttpVersion::Http2)
    } else {
        None
    }
}

/// What the request line `chars[from..to]` says.
fn request_line(chars: &Vec<char>, from: usize, to: usize) -> (r: Option<RequestLine>)
    requires
        from <= to <= chars@.len(),
    ensures
        match r {
            Some(line) => parse_request_line(chars@.subrange(from as int, to as int)) == Some(
                line@,
            ),
            None => parse_request_line(chars@.subrange(from as int, to as int)) is None,
        },
{
    let ghost line = chars@.subrange(from as int, to as int);
    let a = find_char(chars, from, to, ' ');
    if a == from || a >= to {
        return None;
    }
    let ghost rest = line.skip(a - from + 1);
    proof {
        assert(rest == chars@.subrange(a as int + 1, to as int));
    }
    let b = find_char(chars, a + 1, to, ' ');
    if b == a + 1 || b >= to {
        return None;
    }
    let ghost target = rest.take(b - a - 1);
    proof {
        assert(target == chars@.subrange(a as int + 1, b as int));
        assert(rest.skip(b - a - 1 + 1) == chars@.subrange(b as int + 1, to as int));
        assert(line.take(a - from) == chars@.subrange(from as int, a as int));
    }
    let q = find_char(chars, a + 1, b, '?');
    proof {
        assert(target.take(q - a - 1) == chars@.subrange(a as int + 1, q as int));
    }
    let version = match version(chars, b + 1, to) {
        Some(v) => v,
        None => {
            return None;
        },
    };
    let text = text_of(chars, a + 1, q);
    match PathBuf::parse(text.as_str()) {
        Ok(path) => Some(RequestLine { method: method(chars, from, a), path, version }),
        Err(_) => None,
    }
}

/// The position behind the blanks at the start of `chars[from..to]`.
pub fn skip_blanks(chars: &Vec<char>, from: usize, to: usize) -> (at: usize)
    requires
        from <= to <= chars@.len(),
    ensures
        from <= at <= to,
        trim_start(chars@.subrange(from as int, to as int)) == chars@.subrange(
            at as int,
            to as int,
        ),
{
    let mut at: usize = from;
    while at < to && (chars[at] == ' ' || chars[at] == '\t')
        invariant
            from <= at <= to <= chars@.len(),
            trim_start(chars@.subrange(from as int, to as int)) == trim_start(
                chars@.subrange(at as int, to as int),
            ),
        decreases to - at,
    {
        proof {
            assert(chars@.subrange(at as int, to as int).drop_first() == chars@.subrange(
                at as int + 1,
                to as int,
            ));
        }
        at += 1;
    }
    at
}

/// The position before the blanks at the end of `chars[from..to]`.
pub fn drop_blanks(chars: &Vec<char>, from: usize, to: usize) -> (at: usize)
    requires
        from <= to <= chars@.len(),
    ensures
        from <= at <= to,
        trim_end(chars@.subrange(from as int, to as int)) == chars@.subrange(
            from as int,
            at as int,
        ),
{
    let mut at: usize = to;
    while at > from && (chars[at - 1] == ' ' || chars[at - 1] == '\t')
        invariant
            from <= at <= to <= chars@.len(),
            trim_end(chars@.subrange(from as int, to as int)) == trim_end(
                chars@.subrange(from as int, at as int),
            ),
        decreases at,
    {
        proof {
            assert(chars@.subrange(from as int, at as int).drop_last() == chars@.subrange(
                from as int,
                at as int - 1,
            ));
        }
        at -= 1;
    }
    at
}

/// What the header line `chars[from..to]` says.
fn header_line(chars: &Vec<char>, from: usize, to: usize) -> (r: Option<(String, String)>)
    requires
        from <= to <= chars@.len(),
    ensures
        match r {
            Some(pair) => parse_header_line(chars@.subrange(from as int, to as int)) == Some(
                (pair.0@, pair.1@),
            ),
            None => parse_header_line(chars@.subrange(from as int, to as int)) is None,
        },
{
    let ghost line = chars@.subrange(from as int, to as int);
    let colon = find_char(chars, from, to, ':');
    if colon == from || colon >= to {
        return None;
    }
    proof {
        assert(line.skip(colon - from + 1) == chars@.subrange(colon as int + 1, to as int));
    }
    let name = lowered(chars, from, colon);
    let start = skip_blanks(chars, colon + 1, to);
    let end = drop_blanks(chars, start, to);
    let value = text_of(chars, start, end);
    Some((name, value))
}

/// The position of the first line break at or behind `from`, or the end.
fn find_break(chars: &Vec<char>, from: usize) -> (at: usize)
    requires
        from <= chars@.len(),
    ensures
        from <= at <= chars@.len(),
        at == from + first_break(chars@.skip(from as int)),
        at < chars@.len() ==> at + 2 <= chars@.len(),
{
    let n = chars.len();
    let ghost tail = chars@.skip(from as int);
    let mut at: usize = from;
    while at < n && !(at + 1 < n && chars[at] == '\r' && chars[at + 1] == '\n')
        invariant
            from <= at <= n,
            n == chars@.len(),
            tail == chars@.skip(from as int),
            forall|j: int| 0 <= j < at - from ==> !#[trigger] breaks_at(tail, j),
        decreases n - at,
    {
        at += 1;
    }
    proof {
        lemma_first_break_is(tail, at - from);
    }
    at
}

/// The header lines read so far, and then what the rest of the text says.
pub open spec fn and_then(
    done: Seq<(Seq<char>, Seq<char>)>,
    rest: Option<Seq<(Seq<char>, Seq<char>)>>,
) -> Option<Seq<(Seq<char>, Seq<char>)>> {
    match rest {
        Some(more) => Some(done + more),
        None => None,
    }
}

/// Reads the head of a request: the request line and the headers. Gives
/// nothing if the text is no head.
pub fn parse_without_body(decoded: &str) -> (r: Option<(RequestLine, Headers)>)
    ensures
        match r {
            Some(head) => parse_head(decoded@) == Some(
                HeadView { line: head.0@, headers: head.1@ },
            ),
            None => parse_head(decoded@) is None,
        },
{
    let chars = chars_of(decoded);
    let n = chars.len();
    let first = find_break(&chars, 0);
    proof {
        assert(chars@.skip(0) == chars@);
    }
    let line = match request_line(&chars, 0, first) {
        Some(line) => line,
        None => {
            return None;
        },
    };
    let mut headers = Headers { pairs: Vec::new() };
    if first >= n {
        proof {
            assert(headers@ == Seq::<(Seq<char>, Seq<char>)>::empty());
        }
        return Some((line, headers));
    }
    let ghost all = chars@.skip(first as int + 2);
    let mut pos: usize = first + 2;
    loop
        invariant
            n == chars@.len(),
            decoded@ == chars@,
            first + 2 <= pos <= n,
            first == first_break(chars@),
            parse_request_line(chars@.take(first as int)) == Some(line@),
            all == chars@.skip(first as int + 2),
            parse_headers(all) == and_then(headers@, parse_headers(chars@.skip(pos as int))),
        decreases n - pos,
    {
        let ghost tail = chars@.skip(pos as int);
        let ghost done = headers@;
        let end = find_break(&chars, pos);
        proof {
            assert(tail.take(end - pos) == chars@.subrange(pos as int, end as int));
        }
        match header_line(&chars, pos, end) {
            Some(pair) => {
                headers.pairs.push(pair);
            },
            None => {
                return None;
            },
        }
        proof {
            let pair = headers@.last();
            if end >= n {
                assert(done + seq![pair] == headers@);
            } else {
                assert(tail.skip(end - pos + 2) == chars@.skip(end as int + 2));
            }
        }
        if end >= n {
            return Some((line, headers));
        }
        pos = end + 2;
    }
}

} // verus!
