//! Requests: methods, versions, the request line, the headers.

use vstd::prelude::*;
use crate::path::PathBuf;
use crate::util::{chars_of, pair_views};

verus! {

/// The method of a request, or of a route.
#[derive(Copy, Clone, Debug, PartialEq, Eq, Structural, Hash)]
pub enum RequestMethod {
    Options,
    Get,
    Head,
    Post,
    Put,
    Delete,
    Trace,
    Connect,
    Patch,
    /// Of a route: it serves every method. No request has it.
    All,
    /// Of a request: its method is none that the server knows.
    Unknown,
}

impl RequestMethod {
    /// Whether the method is one that the server knows.
    pub fn is_some(&self) -> (b: bool)
        ensures
            b == (*self != RequestMethod::Unknown),
    {
        !matches!(self, RequestMethod::Unknown)
    }
}

/// The protocol version that a request names.
#[derive(Copy, Clone, Debug, PartialEq, Eq, Structural)]
pub enum HttpVersion {
    Http10,
    Http11,
    Http2,
}

/// The first line of a request, as a mathematical value.
pub struct RequestLineView {
    pub method: RequestMethod,
    pub path: Seq<Seq<char>>,
    pub version: HttpVersion,
}

/// The first line of a request.
pub struct RequestLine {
    pub method: RequestMethod,
    pub path: PathBuf,
    pub version: HttpVersion,
}

impl View for RequestLine {
    type V = RequestLineView;

    open spec fn view(&self) -> RequestLineView {
        RequestLineView { method: self.method, path: self.path@, version: self.version }
    }
}

/// A letter of the upper case as the same letter of the lower case, any
/// other character as itself.
pub open spec fn lower(c: char) -> char {
    if 'A' <= c && c <= 'Z' {
        ((c as u8) + 32) as char
    } else {
        c
    }
}

/// A text with its letters in lower case.
pub open spec fn lower_all(s: Seq<char>) -> Seq<char> {
    Seq::new(s.len(), |i: int| lower(s[i]))
}

/// A letter of the upper case as the same letter of the lower case, any
/// other character as itself.
pub fn to_lower(c: char) -> (r: char)
    ensures
        r == lower(c),
{
    if c >= 'A' && c <= 'Z' {
        ((c as u8) + 32) as char
    } else {
        c
    }
}

/// The text `chars[from..to]` with its letters in lower case.
pub fn lowered(chars: &Vec<char>, from: usize, to: usize) -> (s: String)
    requires
        from <= to <= chars@.len(),
    ensures
        s@ == lower_all(chars@.subrange(from as int, to as int)),
{
    let mut s = String::new();
    let mut i: usize = from;
    while i < to
        invariant
            from <= i <= to <= chars@.len(),
            s@ == lower_all(chars@.subrange(from as int, i as int)),
        decreases to - i,
    {
        s.push(to_lower(chars[i]));
        i += 1;
    }
    s
}

/// The value of the last header with the name `name`, if there is one.
pub open spec fn header_value(pairs: Seq<(Seq<char>, Seq<char>)>, name: Seq<char>) -> Option<
    Seq<char>,
>
    decreases pairs.len(),
{
    if pairs.len() == 0 {
        None
    } else if pairs.last().0 == name {
        Some(pairs.last().1)
    } else {
        header_value(pairs.drop_last(), name)
    }
}

/// The headers of a request, in the order in which they came. Names are
/// kept in lower case.
pub struct Headers {
    pub pairs: Vec<(String, String)>,
}

impl View for Headers {
    type V = Seq<(Seq<char>, Seq<char>)>;

    open spec fn view(&self) -> Seq<(Seq<char>, Seq<char>)> {
        pair_views(self.pairs@)
    }
}

impl Headers {
    /// The value of the header `name`, whatever the case of its letters.
    /// Of several headers with the name the last one counts.
    pub fn get(&self, name: &str) -> (value: Option<&String>)
        ensures
            match value {
                Some(text) => header_value(self@, lower_all(name@)) == Some(text@),
                None => header_value(self@, lower_all(name@)) is None,
            },
    {
        let chars = chars_of(name);
        let wanted = lowered(&chars, 0, chars.len());
        proof {
            assert(self@.take(self@.len() as int) == self@);
        }
        let mut i: usize = self.pairs.len();
        while i > 0
            invariant
                i <= self.pairs@.len(),
                wanted@ == lower_all(name@),
                header_value(self@, wanted@) == header_value(self@.take(i as int), wanted@),
            decreases i,
        {
            proof {
                assert(self@.take(i as int).drop_last() == self@.take(i as int - 1));
            }
            i -= 1;
            if self.pairs[i].0 == wanted {
                return Some(&self.pairs[i].1);
            }
        }
        None
    }
}

/// A request: its first line, its headers and its body.
pub struct Request {
    pub request_line: RequestLine,
    pub headers: Headers,
    pub body: Vec<u8>,
}

/// A request as one handler sees it: with the texts that the variables of
/// the handler's pattern were bound to.
pub struct MatchedRequest<'a> {
    pub request: &'a Request,
    /// Name and text of each variable, in the order of the pattern.
    pub vars: &'a Vec<(String, String)>,
}

} // verus!
