//! The response that the handlers build up, and its form on the wire.

use vstd::prelude::*;
use vstd::slice::slice_to_vec;
use vstd::utf8::encode_utf8;
use crate::constants::{code_of, StatusCode};
use crate::util::{append_bytes, pair_views};

verus! {

/// The decimal digits of a number, as the bytes of their characters.
pub open spec fn digits_of(n: nat) -> Seq<u8>
    decreases n,
{
    if n < 10 {
        seq![(48 + n) as u8]
    } else {
        digits_of(n / 10).push((48 + n % 10) as u8)
    }
}

/// The decimal digits of `n`.
pub fn digits(n: usize) -> (text: Vec<u8>)
    ensures
        text@ == digits_of(n as nat),
    decreases n,
{
    if n < 10 {
        let mut text: Vec<u8> = Vec::new();
        text.push(48 + n as u8);
        text
    } else {
        let mut text = digits(n / 10);
        text.push(48 + (n % 10) as u8);
        text
    }
}

/// The words that go with a status on the status line; none for a status
/// that this table does not hold.
pub open spec fn reason_of(status: u16) -> Seq<char> {
    if status == 200 {
        "OK"@
    } else if status == 201 {
        "Created"@
    } else if status == 204 {
        "No Content"@
    } else if status == 301 {
        "Moved Permanently"@
    } else if status == 302 {
        "Found"@
    } else if status == 304 {
        "Not Modified"@
    } else if status == 400 {
        "Bad Request"@
    } else if status == 401 {
        "Unauthorized"@
    } else if status == 403 {
        "Forbidden"@
    } else if status == 404 {
        "Not Found"@
    } else if status == 500 {
        "Internal Server Error"@
    } else if status == 501 {
        "Not Implemented"@
    } else {
        ""@
    }
}

/// The words that go with a status on the status line.
pub fn reason(status: u16) -> (words: &'static str)
    ensures
        words@ == reason_of(status),
{
    if status == 200 {
        "OK"
    } else if status == 201 {
        "Created"
    } else if status == 204 {
        "No Content"
    } else if status == 301 {
        "Moved Permanently"
    } else if status == 302 {
        "Found"
    } else if status == 304 {
        "Not Modified"
    } else if status == 400 {
        "Bad Request"
    } else if status == 401 {
        "Unauthorized"
    } else if status == 403 {
        "Forbidden"
    } else if status == 404 {
        "Not Found"
    } else if status == 500 {
        "Internal Server Error"
    } else if status == 501 {
        "Not Implemented"
    } else {
        ""
    }
}

/// The header lines as they go over the wire: for each header its name, a
/// colon and a space, its value and a line break.
pub open spec fn header_lines(headers: Seq<(Seq<char>, Seq<char>)>) -> Seq<u8>
    decreases headers.len(),
{
    if headers.len() == 0 {
        Seq::empty()
    } else {
        header_lines(headers.drop_last()) + encode_utf8(headers.last().0) + encode_utf8(": "@)
            + encode_utf8(headers.last().1) + encode_utf8("\r\n"@)
    }
}

/// A response as it goes over the wire: the status line, the headers, a
/// header with the length of the body, an empty line, and the body.
pub open spec fn wire(
    status: u16,
    headers: Seq<(Seq<char>, Seq<char>)>,
    body: Seq<u8>,
) -> Seq<u8> {
    encode_utf8("HTTP/1.1 "@) + digits_of(status as nat) + encode_utf8(" "@) + encode_utf8(
        reason_of(status),
    ) + encode_utf8("\r\n"@) + header_lines(headers) + encode_utf8("content-length: "@)
        + digits_of(body.len()) + encode_utf8("\r\n\r\n"@) + body
}

/// The response to one request, as the handlers build it up. Once it has a
/// body no further handler runs.
pub struct Response {
    /// The status code.
    pub status: u16,
    /// Name and value of each header, in the order in which they were set.
    pub headers: Vec<(String, String)>,
    /// The body.
    pub body: Vec<u8>,
    /// Whether a body was given.
    pub has_body: bool,
}

impl Response {
    /// A response with the status 200 and without headers. It has a body
    /// exactly when `body` is not empty.
    pub fn new(body: &[u8]) -> (res: Response)
        ensures
            res.status == 200,
            res.headers@.len() == 0,
            res.body@ == body@,
            res.has_body == (body@.len() > 0),
    {
        Response {
            status: 200,
            headers: Vec::new(),
            body: slice_to_vec(body),
            has_body: body.len() > 0,
        }
    }

    /// Gives the response `body` as its body, in place of what it had.
    pub fn send(&mut self, body: &[u8])
        ensures
            final(self).body@ == body@,
            final(self).has_body,
            final(self).status == old(self).status,
            final(self).headers == old(self).headers,
    {
        self.body = slice_to_vec(body);
        self.has_body = true;
    }

    /// The response that reports `status`: it has the number of the status
    /// and its words as its body.
    pub fn error(status: StatusCode) -> (res: Response)
        ensures
            res.status == code_of(status),
            res.headers@.len() == 0,
            res.body@ == encode_utf8(reason_of(code_of(status))),
            res.has_body,
    {
        let code = status.code();
        Response {
            status: code,
            headers: Vec::new(),
            body: slice_to_vec(reason(code).as_bytes()),
            has_body: true,
        }
    }

    /// The response as it goes over the wire.
    pub fn get_data(&self) -> (data: Vec<u8>)
        ensures
            data@ == wire(self.status, pair_views(self.headers@), self.body@),
    {
        let mut data: Vec<u8> = Vec::new();
        append_bytes(&mut data, "HTTP/1.1 ".as_bytes());
        append_bytes(&mut data, digits(self.status as usize).as_slice());
        append_bytes(&mut data, " ".as_bytes());
        append_bytes(&mut data, reason(self.status).as_bytes());
        append_bytes(&mut data, "\r\n".as_bytes());
        let ghost start = data@;
        let ghost all = pair_views(self.headers@);
        let mut i: usize = 0;
        while i < self.headers.len()
            invariant
                i <= self.headers@.len(),
                all == pair_views(self.headers@),
                data@ == start + header_lines(all.take(i as int)),
            decreases self.headers@.len() - i,
        {
            proof {
                assert(all.take(i as int + 1).drop_last() == all.take(i as int));
            }
            append_bytes(&mut data, self.headers[i].0.as_str().as_bytes());
            append_bytes(&mut data, ": ".as_bytes());
            append_bytes(&mut data, self.headers[i].1.as_str().as_bytes());
            append_bytes(&mut data, "\r\n".as_bytes());
            i += 1;
        }
        proof {
            assert(all.take(all.len() as int) == all);
        }
        append_bytes(&mut data, "content-length: ".as_bytes());
        append_bytes(&mut data, digits(self.body.len()).as_slice());
        append_bytes(&mut data, "\r\n\r\n".as_bytes());
        append_bytes(&mut data, self.body.as_slice());
        data
    }

    /// Sets the status code.
    pub fn set_status(&mut self, status: u16)
        ensures
            final(self).status == status,
            final(self).headers == old(self).headers,
            final(self).body == old(self).body,
            final(self).has_body == old(self).has_body,
    {
        self.status = status;
    }

    /// Adds a header behind those that were set.
    pub fn set_header(&mut self, name: String, value: String)
        ensures
            final(self).headers@ == old(self).headers@.push((name, value)),
            final(self).status == old(self).status,
            final(self).body == old(self).body,
            final(self).has_body == old(self).has_body,
    {
        self.headers.push((name, value));
    }
}

} // verus!
