//! The assembler: it takes what the reads of a connection give and puts
//! together the head and the body of one request.

use vstd::prelude::*;
use vstd::utf8::{decode_utf8, encode_utf8_decode_utf8, valid_utf8};
use vstd::string::StringSliceAdditionalSpecFns;
use crate::constants::StatusCode;
use crate::head::{parse_head, parse_without_body, HeadView};
use crate::request::{header_value, lower_all, Headers, Request, RequestLine};
use crate::util::{append_bytes, bytes_of, chars_of, find_in_slice, first_occurrence};

verus! {

/// The error of `core::str::from_utf8`.
#[verifier::external_type_specification]
#[verifier::external_body]
pub struct ExUtf8Error(core::str::Utf8Error);

/// `core::str::from_utf8` succeeds exactly on the byte sequences that are
/// valid UTF-8, and the string slice that it then gives has exactly these
/// bytes.
pub assume_specification[ core::str::from_utf8 ](v: &[u8]) -> (r: Result<
    &str,
    core::str::Utf8Error,
>)
    ensures
        r is Ok <==> valid_utf8(v@),
        r matches Ok(s) ==> s.spec_bytes() == v@,
;

/// The value of one decimal digit.
pub open spec fn digit_of(c: char) -> Option<nat> {
    if '0' <= c && c <= '9' {
        Some((c as u8 - 48) as nat)
    } else {
        None
    }
}

/// The number that a text of decimal digits stands for; nothing for the
/// empty text and for a text that holds anything but digits.
pub open spec fn decimal(s: Seq<char>) -> Option<nat>
    decreases s.len(),
{
    if s.len() == 0 {
        None
    } else {
        match digit_of(s.last()) {
            Some(d) => if s.len() == 1 {
                Some(d)
            } else {
                match decimal(s.drop_last()) {
                    Some(v) => Some(v * 10 + d),
                    None => None,
                }
            },
            None => None,
        }
    }
}

/// The number that a text stands for as a `usize`: decimal digits, a `+`
/// before them or not, and a value that fits.
pub open spec fn number_of(s: Seq<char>) -> Option<usize> {
    let digits = if s.len() > 0 && s[0] == '+' {
        s.skip(1)
    } else {
        s
    };
    match decimal(digits) {
        Some(v) => if v <= usize::MAX {
            Some(v as usize)
        } else {
            None
        },
        None => None,
    }
}

/// A text of digits stands for a number that is not less than the number
/// that any part of it from the start stands for.
pub proof fn lemma_decimal_grows(s: Seq<char>, k: int)
    requires
        0 < k <= s.len(),
        decimal(s) is Some,
    ensures
        decimal(s.take(k)) is Some,
        decimal(s.take(k)).unwrap() <= decimal(s).unwrap(),
    decreases s.len(),
{
    if k == s.len() {
        assert(s.take(k) == s);
    } else {
        lemma_decimal_grows(s.drop_last(), k);
        assert(s.drop_last().take(k) == s.take(k));
    }
}

/// The number that `text` stands for, if it stands for one.
pub fn parse_usize(text: &str) -> (r: Option<usize>)
    ensures
        r == number_of(text@),
{
    let chars = chars_of(text);
    let n = chars.len();
    let start: usize = if n > 0 && chars[0] == '+' {
        1
    } else {
        0
    };
    let ghost digits = chars@.skip(start as int);
    proof {
        assert(chars@.skip(0) == chars@);
    }
    if start == n {
        return None;
    }
    let mut value: usize = 0;
    let mut i: usize = start;
    while i < n
        invariant
            start <= i <= n,
            start < n,
            n == chars@.len(),
            digits == chars@.skip(start as int),
            number_of(text@) == match decimal(digits) {
                Some(v) => if v <= usize::MAX {
                    Some(v as usize)
                } else {
                    None
                },
                None => None,
            },
            i == start ==> value == 0,
            i > start ==> decimal(digits.take(i - start)) == Some(value as nat),
        decreases n - i,
    {
        let c = chars[i];
        proof {
            assert(digits.take(i - start + 1).drop_last() == digits.take(i - start));
        }
        if !(c >= '0' && c <= '9') {
            proof {
                if decimal(digits) is Some {
                    lemma_decimal_grows(digits, i - start + 1);
                }
            }
            return None;
        }
        let d = (c as u8 - 48) as usize;
        let grown = match value.checked_mul(10) {
            Some(tens) => tens.checked_add(d),
            None => None,
        };
        match grown {
            Some(v) => {
                value = v;
            },
            None => {
                proof {
                    if decimal(digits) is Some {
                        lemma_decimal_grows(digits, i - start + 1);
                    }
                }
                return None;
            },
        }
        i += 1;
    }
    proof {
        assert(digits.take(n - start) == digits);
    }
    Some(value)
}

/// The length of the body that the headers announce: the number in the
/// last `content-length` header, and zero if there is no such header or its
/// value is no number.
pub open spec fn content_length(headers: Seq<(Seq<char>, Seq<char>)>) -> usize {
    match header_value(headers, lower_all("content-length"@)) {
        Some(value) => match number_of(value) {
            Some(n) => n,
            None => 0,
        },
        None => 0,
    }
}

/// The length of the body that the headers announce.
pub fn body_length(headers: &Headers) -> (n: usize)
    ensures
        n == content_length(headers@),
{
    match headers.get("content-length") {
        Some(value) => match parse_usize(value.as_str()) {
            Some(n) => n,
            None => 0,
        },
        None => 0,
    }
}

/// The bytes that end the head of a request: two line breaks.
pub open spec fn head_end() -> Seq<u8> {
    seq![13u8, 10u8, 13u8, 10u8]
}

/// Where the head of the request ends in `stream`: the first position at
/// which two line breaks stand, if they stand in it at all.
pub open spec fn boundary(stream: Seq<u8>) -> Option<int> {
    if exists|at: int| first_occurrence(stream, head_end(), at) {
        Some(choose|at: int| first_occurrence(stream, head_end(), at))
    } else {
        None
    }
}

/// How far a request is assembled, as a mathematical value.
pub enum Assembly {
    /// The head is not complete. `data` is what was read of it.
    Head { data: Seq<u8> },
    /// The head is read, and `missing` bytes of the body are still to come
    /// behind those of `body`.
    Body { head: HeadView, body: Seq<u8>, missing: nat },
    /// The request is complete.
    Done { head: HeadView, body: Seq<u8> },
    /// The request is refused.
    Failed { status: StatusCode },
}

/// How far the request is assembled once the bytes of `stream` were read.
/// Until two line breaks have come the head is not complete. The bytes
/// before them are the head: they must be valid UTF-8 and say what a head
/// says, or the request is bad. The body is as long as the headers
/// announce: the first so many bytes behind the head.
pub open spec fn after(stream: Seq<u8>) -> Assembly {
    match boundary(stream) {
        None => Assembly::Head { data: stream },
        Some(at) => {
            let bytes = stream.take(at);
            if !valid_utf8(bytes) {
                Assembly::Failed { status: StatusCode::BadRequest }
            } else {
                match parse_head(decode_utf8(bytes)) {
                    None => Assembly::Failed { status: StatusCode::BadRequest },
                    Some(head) => {
                        let want = content_length(head.headers) as int;
                        let rest = stream.skip(at + 4);
                        if rest.len() >= want {
                            Assembly::Done { head, body: rest.take(want) }
                        } else {
                            Assembly::Body { head, body: rest, missing: (want - rest.len()) as nat }
                        }
                    },
                }
            }
        },
    }
}

/// How far the request is assembled after one more read gave `chunk`. A
/// read that gives nothing means that the connection is closed: a request
/// that is not complete then is bad. While the head is read, the bytes are
/// put behind those that came before. While the body is read, the bytes
/// that are still missing are taken, and no more. A request that is
/// complete or refused stays as it is.
pub open spec fn step(state: Assembly, chunk: Seq<u8>) -> Assembly {
    match state {
        Assembly::Head { data } => if chunk.len() == 0 {
            Assembly::Failed { status: StatusCode::BadRequest }
        } else {
            after(data + chunk)
        },
        Assembly::Body { head, body, missing } => if chunk.len() == 0 {
            Assembly::Failed { status: StatusCode::BadRequest }
        } else if chunk.len() >= missing {
            Assembly::Done { head, body: body + chunk.take(missing as int) }
        } else {
            Assembly::Body { head, body: body + chunk, missing: (missing - chunk.len()) as nat }
        },
        Assembly::Done { head, body } => state,
        Assembly::Failed { status } => state,
    }
}

/// What the driver of an assembler is to do next.
#[derive(Copy, Clone, Debug, PartialEq, Eq, Structural)]
pub enum Progress {
    /// Read from the connection, up to `BUF_SIZE` bytes, and feed what
    /// came.
    NeedHead,
    /// Read exactly this many bytes in one read, and feed them.
    NeedBody(usize),
    /// Take the request.
    Done,
    /// Report the status and end the cycle.
    Failed(StatusCode),
}

/// What is to be done next at each point of the assembly.
pub open spec fn progress_of(state: Assembly) -> Progress {
    match state {
        Assembly::Head { data } => Progress::NeedHead,
        Assembly::Body { head, body, missing } => Progress::NeedBody(missing as usize),
        Assembly::Done { head, body } => Progress::Done,
        Assembly::Failed { status } => Progress::Failed(status),
    }
}

enum Stage {
    Head(Vec<u8>),
    Body { line: RequestLine, headers: Headers, body: Vec<u8>, missing: usize },
    Done { line: RequestLine, headers: Headers, body: Vec<u8> },
    Failed(StatusCode),
}

/// Assembles one request from what the reads of a connection give, however
/// the bytes are cut into reads.
pub struct Assembler {
    stage: Stage,
}

impl View for Assembler {
    type V = Assembly;

    closed spec fn view(&self) -> Assembly {
        match self.stage {
            Stage::Head(data) => Assembly::Head { data: data@ },
            Stage::Body { line, headers, body, missing } => Assembly::Body {
                head: HeadView { line: line@, headers: headers@ },
                body: body@,
                missing: missing as nat,
            },
            Stage::Done { line, headers, body } => Assembly::Done {
                head: HeadView { line: line@, headers: headers@ },
                body: body@,
            },
            Stage::Failed(status) => Assembly::Failed { status },
        }
    }
}

/// Two positions that are both the first at which a needle stands are one
/// position.
pub proof fn lemma_first_occurrence_unique(haystack: Seq<u8>, needle: Seq<u8>, a: int, b: int)
    requires
        first_occurrence(haystack, needle, a),
        first_occurrence(haystack, needle, b),
    ensures
        a == b,
{
}

impl Assembler {
    /// An assembler that has read nothing.
    pub fn new() -> (assembler: Assembler)
        ensures
            assembler@ == (Assembly::Head { data: Seq::empty() }),
    {
        Assembler { stage: Stage::Head(Vec::new()) }
    }

    /// How far the request is assembled once `data` was read.
    fn settle(data: Vec<u8>) -> (assembler: Assembler)
        ensures
            assembler@ == after(data@),
    {
        let needle: Vec<u8> = vec![13u8, 10u8, 13u8, 10u8];
        let at = match find_in_slice(data.as_slice(), needle.as_slice()) {
            Some(at) => at,
            None => {
                return Assembler { stage: Stage::Head(data) };
            },
        };
        proof {
            lemma_first_occurrence_unique(data@, head_end(), at as int, boundary(data@).unwrap());
        }
        let bytes = bytes_of(data.as_slice(), 0, at);
        let text = match core::str::from_utf8(bytes.as_slice()) {
            Ok(text) => text,
            Err(_) => {
                return Assembler { stage: Stage::Failed(StatusCode::BadRequest) };
            },
        };
        proof {
            encode_utf8_decode_utf8(text@);
        }
        let (line, headers) = match parse_without_body(text) {
            Some(head) => head,
            None => {
                return Assembler { stage: Stage::Failed(StatusCode::BadRequest) };
            },
        };
        let want = body_length(&headers);
        let have = data.len() - (at + 4);
        if have >= want {
            let body = bytes_of(data.as_slice(), at + 4, at + 4 + want);
            proof {
                assert(body@ == data@.skip(at as int + 4).take(want as int));
            }
            Assembler { stage: Stage::Done { line, headers, body } }
        } else {
            let body = bytes_of(data.as_slice(), at + 4, data.len());
            Assembler { stage: Stage::Body { line, headers, body, missing: want - have } }
        }
    }

    /// Takes what one read gave.
    pub fn feed(self, chunk: &[u8]) -> (next: Assembler)
        ensures
            next@ == step(self@, chunk@),
    {
        match self.stage {
            Stage::Head(data) => {
                if chunk.len() == 0 {
                    Assembler { stage: Stage::Failed(StatusCode::BadRequest) }
                } else {
                    let mut data = data;
                    append_bytes(&mut data, chunk);
                    Self::settle(data)
                }
            },
            Stage::Body { line, headers, body, missing } => {
                if chunk.len() == 0 {
                    Assembler { stage: Stage::Failed(StatusCode::BadRequest) }
                } else if chunk.len() >= missing {
                    let mut body = body;
                    let part = bytes_of(chunk, 0, missing);
                    append_bytes(&mut body, part.as_slice());
                    Assembler { stage: Stage::Done { line, headers, body } }
                } else {
                    let mut body = body;
                    append_bytes(&mut body, chunk);
                    Assembler {
                        stage: Stage::Body { line, headers, body, missing: missing - chunk.len() },
                    }
                }
            },
            Stage::Done { line, headers, body } => Assembler {
                stage: Stage::Done { line, headers, body },
            },
            Stage::Failed(status) => Assembler { stage: Stage::Failed(status) },
        }
    }

    /// What the driver is to do next.
    pub fn progress(&self) -> (p: Progress)
        ensures
            p == progress_of(self@),
    {
        match &self.stage {
            Stage::Head(_) => Progress::NeedHead,
            Stage::Body { line, headers, body, missing } => Progress::NeedBody(*missing),
            Stage::Done { line, headers, body } => Progress::Done,
            Stage::Failed(status) => Progress::Failed(*status),
        }
    }

    /// The request, if it is complete.
    pub fn finish(self) -> (r: Option<Request>)
        ensures
            match r {
                Some(request) => self@ == (Assembly::Done {
                    head: HeadView { line: request.request_line@, headers: request.headers@ },
                    body: request.body@,
                }),
                None => !(self@ is Done),
            },
    {
        match self.stage {
            Stage::Done { line, headers, body } => Some(
                Request { request_line: line, headers, body },
            ),
            _ => None,
        }
    }
}

} // verus!
