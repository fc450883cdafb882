//! An HTTP request and response as the Blob service's calls carry them: a
//! method, a path, query parameters and headers in the order they were
//! added, and a body.
use vstd::prelude::*;

use crate::text::{chars_of, lower, same_chars, same_ignoring_case, text_from_bytes, text_of};

verus! {

/// Name-value pairs of strings, as pairs of character sequences.
pub open spec fn string_pairs(s: Seq<(String, String)>) -> Seq<(Seq<char>, Seq<char>)> {
    s.map_values(|p: (String, String)| (p.0@, p.1@))
}

/// The value of the first pair whose name is `name` but for ASCII case.
pub open spec fn find_ignoring_case(pairs: Seq<(Seq<char>, Seq<char>)>, name: Seq<char>) -> Option<
    Seq<char>,
>
    decreases pairs.len(),
{
    if pairs.len() == 0 {
        None
    } else if lower(pairs[0].0) == lower(name) {
        Some(pairs[0].1)
    } else {
        find_ignoring_case(pairs.drop_first(), name)
    }
}

/// The value of the first pair whose name is exactly `name`.
pub open spec fn find_exact(pairs: Seq<(Seq<char>, Seq<char>)>, name: Seq<char>) -> Option<
    Seq<char>,
>
    decreases pairs.len(),
{
    if pairs.len() == 0 {
        None
    } else if pairs[0].0 == name {
        Some(pairs[0].1)
    } else {
        find_exact(pairs.drop_first(), name)
    }
}

/// An optional string slice, as an optional character sequence.
pub open spec fn opt_view(o: Option<&str>) -> Option<Seq<char>> {
    match o {
        Some(s) => Some(s@),
        None => None,
    }
}

/// The first pair of `pairs` named `name` but for ASCII case, by index.
fn position_ignoring_case(pairs: &Vec<(String, String)>, name: &str) -> (r: Option<usize>)
    ensures
        match r {
            Some(i) => i < pairs.len() && find_ignoring_case(string_pairs(pairs@), name@) == Some(
                pairs@[i as int].1@,
            ),
            None => find_ignoring_case(string_pairs(pairs@), name@) is None,
        },
{
    let wanted = chars_of(name);
    let mut i: usize = 0;
    assert(string_pairs(pairs@).skip(0) =~= string_pairs(pairs@));
    while i < pairs.len()
        invariant
            i <= pairs.len(),
            wanted@ == name@,
            find_ignoring_case(string_pairs(pairs@), name@) == find_ignoring_case(
                string_pairs(pairs@).skip(i as int),
                name@,
            ),
        decreases pairs.len() - i,
    {
        let candidate = chars_of(pairs[i].0.as_str());
        assert(string_pairs(pairs@).skip(i as int)[0] == (pairs@[i as int].0@, pairs@[i as int].1@));
        if same_ignoring_case(&candidate, &wanted) {
            return Some(i);
        }
        assert(string_pairs(pairs@).skip(i as int).drop_first() =~= string_pairs(pairs@).skip(
            i + 1,
        ));
        i = i + 1;
    }
    None
}

/// The first pair of `pairs` named exactly `name`, by index.
fn position_exact(pairs: &Vec<(String, String)>, name: &str) -> (r: Option<usize>)
    ensures
        match r {
            Some(i) => i < pairs.len() && find_exact(string_pairs(pairs@), name@) == Some(
                pairs@[i as int].1@,
            ),
            None => find_exact(string_pairs(pairs@), name@) is None,
        },
{
    let wanted = chars_of(name);
    let mut i: usize = 0;
    assert(string_pairs(pairs@).skip(0) =~= string_pairs(pairs@));
    while i < pairs.len()
        invariant
            i <= pairs.len(),
            wanted@ == name@,
            find_exact(string_pairs(pairs@), name@) == find_exact(
                string_pairs(pairs@).skip(i as int),
                name@,
            ),
        decreases pairs.len() - i,
    {
        let candidate = chars_of(pairs[i].0.as_str());
        assert(string_pairs(pairs@).skip(i as int)[0] == (pairs@[i as int].0@, pairs@[i as int].1@));
        if same_chars(&candidate, &wanted) {
            return Some(i);
        }
        assert(string_pairs(pairs@).skip(i as int).drop_first() =~= string_pairs(pairs@).skip(
            i + 1,
        ));
        i = i + 1;
    }
    None
}

/// What a request is: its parts as sequences.
pub struct RequestView {
    pub method: Seq<char>,
    pub path: Seq<char>,
    pub query: Seq<(Seq<char>, Seq<char>)>,
    pub headers: Seq<(Seq<char>, Seq<char>)>,
    pub body: Seq<u8>,
}

impl RequestView {
    /// The same request with the header `name: value` added last.
    pub open spec fn with_header(self, name: Seq<char>, value: Seq<char>) -> RequestView {
        RequestView { headers: self.headers.push((name, value)), ..self }
    }

    /// The same request with the query parameter `name=value` added last.
    pub open spec fn with_query(self, name: Seq<char>, value: Seq<char>) -> RequestView {
        RequestView { query: self.query.push((name, value)), ..self }
    }

    /// The same request with `path` as its path.
    pub open spec fn with_path(self, path: Seq<char>) -> RequestView {
        RequestView { path, ..self }
    }

    /// The same request with `body` as its body.
    pub open spec fn with_body(self, body: Seq<u8>) -> RequestView {
        RequestView { body, ..self }
    }

    /// The value of the first header named `name`, ASCII case aside.
    pub open spec fn header(self, name: Seq<char>) -> Option<Seq<char>> {
        find_ignoring_case(self.headers, name)
    }

    /// The value of the first query parameter named `name`.
    pub open spec fn query_param(self, name: Seq<char>) -> Option<Seq<char>> {
        find_exact(self.query, name)
    }
}

/// A request with `method` on `path` and nothing else.
pub open spec fn bare_request(method: Seq<char>, path: Seq<char>) -> RequestView {
    RequestView { method, path, query: seq![], headers: seq![], body: seq![] }
}

/// What a response is: its parts as sequences.
pub struct ResponseView {
    pub status: u16,
    pub headers: Seq<(Seq<char>, Seq<char>)>,
    pub body: Seq<u8>,
}

impl ResponseView {
    /// The same response with the header `name: value` added last.
    pub open spec fn with_header(self, name: Seq<char>, value: Seq<char>) -> ResponseView {
        ResponseView { headers: self.headers.push((name, value)), ..self }
    }

    /// The same response with `body` as its body.
    pub open spec fn with_body(self, body: Seq<u8>) -> ResponseView {
        ResponseView { body, ..self }
    }

    /// The value of the first header named `name`, ASCII case aside.
    pub open spec fn header(self, name: Seq<char>) -> Option<Seq<char>> {
        find_ignoring_case(self.headers, name)
    }
}

/// A response with `status` and nothing else.
pub open spec fn bare_response(status: u16) -> ResponseView {
    ResponseView { status, headers: seq![], body: seq![] }
}

/// A request: the method, the path, the query parameters and the headers
/// in the order they were added, and the body.
#[derive(Clone, Debug)]
pub struct Request {
    pub method: String,
    pub path: String,
    pub query: Vec<(String, String)>,
    pub headers: Vec<(String, String)>,
    pub body: Vec<u8>,
}

impl View for Request {
    type V = RequestView;

    open spec fn view(&self) -> RequestView {
        RequestView {
            method: self.method@,
            path: self.path@,
            query: string_pairs(self.query@),
            headers: string_pairs(self.headers@),
            body: self.body@,
        }
    }
}

impl View for Response {
    type V = ResponseView;

    open spec fn view(&self) -> ResponseView {
        ResponseView { status: self.status, headers: string_pairs(self.headers@), body: self.body@ }
    }
}

impl Request {
    /// A request for `method` on `path`, with no query, no headers and an
    /// empty body.
    pub fn new(method: &str, path: &str) -> (r: Request)
        ensures
            r@ == bare_request(method@, path@),
    {
        let r = Request {
            method: method.to_string(),
            path: path.to_string(),
            query: Vec::new(),
            headers: Vec::new(),
            body: Vec::new(),
        };
        proof {
            assert(string_pairs(r.query@) =~= seq![]);
            assert(string_pairs(r.headers@) =~= seq![]);
            assert(r.body@ =~= seq![]);
        }
        r
    }

    /// This request with the query parameter `name=value` added last.
    pub fn query(self, name: &str, value: &str) -> (r: Request)
        ensures
            r@ == self@.with_query(name@, value@),
    {
        let mut r = self;
        r.query.push((name.to_string(), value.to_string()));
        proof {
            assert(string_pairs(r.query@) =~= string_pairs(self.query@).push((name@, value@)));
        }
        r
    }

    /// This request with the header `name: value` added last.
    pub fn header(self, name: &str, value: &str) -> (r: Request)
        ensures
            r@ == self@.with_header(name@, value@),
    {
        let mut r = self;
        r.headers.push((name.to_string(), value.to_string()));
        proof {
            assert(string_pairs(r.headers@) =~= string_pairs(self.headers@).push((name@, value@)));
        }
        r
    }

    /// This request with `bytes` as its body.
    pub fn body(self, bytes: &[u8]) -> (r: Request)
        ensures
            r@ == self@.with_body(bytes@),
    {
        let mut r = self;
        r.body = vstd::slice::slice_to_vec(bytes);
        r
    }

    /// The value of the first header named `name`, ASCII case aside.
    pub fn header_value(&self, name: &str) -> (r: Option<&str>)
        ensures
            opt_view(r) == self@.header(name@),
    {
        match position_ignoring_case(&self.headers, name) {
            Some(i) => Some(self.headers[i].1.as_str()),
            None => None,
        }
    }

    /// The value of the first query parameter named exactly `name`.
    pub fn query_value(&self, name: &str) -> (r: Option<&str>)
        ensures
            opt_view(r) == self@.query_param(name@),
    {
        match position_exact(&self.query, name) {
            Some(i) => Some(self.query[i].1.as_str()),
            None => None,
        }
    }
}

/// A response: the status, the headers in the order they were added, and
/// the body.
#[derive(Clone, Debug)]
pub struct Response {
    pub status: u16,
    pub headers: Vec<(String, String)>,
    pub body: Vec<u8>,
}

impl Response {
    /// A response with `status`, no headers and an empty body.
    pub fn new(status: u16) -> (r: Response)
        ensures
            r@ == bare_response(status),
    {
        let r = Response { status, headers: Vec::new(), body: Vec::new() };
        proof {
            assert(string_pairs(r.headers@) =~= seq![]);
            assert(r.body@ =~= seq![]);
        }
        r
    }

    /// This response with the header `name: value` added last.
    pub fn header(self, name: &str, value: &str) -> (r: Response)
        ensures
            r@ == self@.with_header(name@, value@),
    {
        let mut r = self;
        r.headers.push((name.to_string(), value.to_string()));
        proof {
            assert(string_pairs(r.headers@) =~= string_pairs(self.headers@).push((name@, value@)));
        }
        r
    }

    /// This response with `bytes` as its body.
    pub fn body(self, bytes: &[u8]) -> (r: Response)
        ensures
            r@ == self@.with_body(bytes@),
    {
        let mut r = self;
        r.body = vstd::slice::slice_to_vec(bytes);
        r
    }

    /// The value of the first header named `name`, ASCII case aside.
    pub fn header_value(&self, name: &str) -> (r: Option<&str>)
        ensures
            opt_view(r) == self@.header(name@),
    {
        match position_ignoring_case(&self.headers, name) {
            Some(i) => Some(self.headers[i].1.as_str()),
            None => None,
        }
    }

    /// The body as text, UTF-8 with anything ill-formed replaced.
    pub fn text(&self) -> (r: String)
        ensures
            r@ == text_of(self.body@),
    {
        text_from_bytes(self.body.as_slice())
    }
}

} // verus!
