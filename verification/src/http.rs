//! The HTTP responses of the site.
use vstd::prelude::*;
use vstd::string::*;
use crate::text::{decimal, push_decimal};

verus! {

/// An HTTP response: a status code, header lines and a body.
pub struct Response {
    pub body: String,
    pub headers: Vec<(String, String)>,
    pub code: i32,
}

/// The reason phrase the site sends with a status code.
pub open spec fn status_text(code: i32) -> Seq<char> {
    if code == 100 {
        "CONTINUE"@
    } else if code == 200 {
        "OK"@
    } else if code == 404 {
        "NOT FOUND"@
    } else {
        "UNKNOWN"@
    }
}

/// The names and values of header lines.
pub open spec fn headers_view(h: Seq<(String, String)>) -> Seq<(Seq<char>, Seq<char>)> {
    h.map_values(|p: (String, String)| (p.0@, p.1@))
}

/// The header lines `name: value`, each ended by CR LF.
pub open spec fn headers_text(h: Seq<(Seq<char>, Seq<char>)>) -> Seq<char>
    decreases h.len(),
{
    if h.len() == 0 {
        Seq::empty()
    } else {
        headers_text(h.drop_last()) + h.last().0 + ": "@ + h.last().1 + "\r\n"@
    }
}

/// The text of a response: the status line, the header lines, two empty
/// lines and the body.
pub open spec fn response_text(code: i32, headers: Seq<(Seq<char>, Seq<char>)>, body: Seq<char>) -> Seq<
    char,
> {
    "HTTP/1.1 "@ + decimal(code as int) + " "@ + status_text(code) + "\r\n"@ + headers_text(headers)
        + "\r\n\r\n"@ + body
}

impl Response {
    /// The text of this response, as it is sent.
    pub fn build(&self) -> (r: String)
        ensures
            r@ == response_text(self.code, headers_view(self.headers@), self.body@),
    {
        let ghost hv = headers_view(self.headers@);
        let mut result = String::new();
        result.append("HTTP/1.1 ");
        push_decimal(&mut result, self.code as i64);
        result.append(" ");
        result.append(self.get_status());
        result.append("\r\n");
        let ghost start = result@;
        assert(start + headers_text(hv.take(0)) =~= start);
        let mut i: usize = 0;
        while i < self.headers.len()
            invariant
                hv == headers_view(self.headers@),
                i <= self.headers.len(),
                result@ == start + headers_text(hv.take(i as int)),
            decreases self.headers.len() - i,
        {
            result.append(self.headers[i].0.as_str());
            result.append(": ");
            result.append(self.headers[i].1.as_str());
            result.append("\r\n");
            assert(hv.take(i + 1).drop_last() =~= hv.take(i as int));
            assert(result@ =~= start + headers_text(hv.take(i + 1)));
            i = i + 1;
        }
        assert(hv.take(i as int) =~= hv);
        result.append("\r\n\r\n");
        result.append(self.body.as_str());
        assert(result@ =~= response_text(self.code, hv, self.body@));
        result
    }

    /// The reason phrase of this response's status code.
    pub fn get_status(&self) -> (r: &str)
        ensures
            r@ == status_text(self.code),
    {
        if self.code == 100 {
            "CONTINUE"
        } else if self.code == 200 {
            "OK"
        } else if self.code == 404 {
            "NOT FOUND"
        } else {
            "UNKNOWN"
        }
    }

    /// An empty `200 OK` response.
    pub fn new() -> (r: Response)
        ensures
            r.body@ == Seq::<char>::empty(),
            r.headers@ == Seq::<(String, String)>::empty(),
            r.code == 200,
    {
        Response { body: String::new(), headers: Vec::new(), code: 200 }
    }
}

} // verus!
