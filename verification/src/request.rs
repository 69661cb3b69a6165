//! The request and response values that handlers exchange.
use vstd::prelude::*;
use crate::form::{get_query_param, has_key_of, parse_query, query_has, query_value};

verus! {

/// Represents an incoming HTTP request containing body, method, path, and query.
#[derive(Debug, Clone)]
pub struct Request {
    pub body: String,
    pub method: String,
    pub path: String,
    pub query: String,
}

impl Request {
    /// Constructs a new Request instance.
    pub fn new(body: String, method: String, path: String, query: String) -> (r: Request)
        ensures
            r.body@ == body@,
            r.method@ == method@,
            r.path@ == path@,
            r.query@ == query@,
    {
        Request { body, method, path, query }
    }

    /// Returns the body payload of the request.
    pub fn body(&self) -> (r: String)
        ensures
            r@ == self.body@,
    {
        self.body.clone()
    }

    /// Returns the HTTP method (e.g. GET, POST) of the request.
    pub fn method(&self) -> (r: String)
        ensures
            r@ == self.method@,
    {
        self.method.clone()
    }

    /// Returns the URL path of the request.
    pub fn path(&self) -> (r: String)
        ensures
            r@ == self.path@,
    {
        self.path.clone()
    }

    /// Returns the raw URL query string (without the leading '?').
    pub fn query(&self) -> (r: String)
        ensures
            r@ == self.query@,
    {
        self.query.clone()
    }

    /// Extracts a specific query parameter value by key.
    pub fn query_param(&self, key: String) -> (r: String)
        ensures
            r@ == query_value(self.query@, key@),
    {
        get_query_param(self.query.clone(), key)
    }

    /// Checks if a query parameter exists in the query string.
    pub fn has_query(&self, key: String) -> (r: bool)
        ensures
            r == query_has(self.query@, key@),
    {
        let pairs = parse_query(&self.query);
        has_key_of(&pairs, &key)
    }
}

/// Represents an outgoing HTTP response with status code, body, and content-type.
#[derive(Debug, Clone)]
pub struct Response {
    pub body: String,
    pub status: i64,
    pub content_type: String,
}

/// The content type of plain text responses.
pub open spec fn text_plain() -> Seq<char> {
    "text/plain"@
}

/// The content type of JSON responses.
pub open spec fn application_json() -> Seq<char> {
    "application/json"@
}

/// The content type of HTML responses.
pub open spec fn text_html() -> Seq<char> {
    "text/html"@
}

impl Response {
    /// Creates a generic Response with HTTP 200 and text/plain.
    pub fn new(body: String) -> (r: Response)
        ensures
            r.body@ == body@,
            r.status == 200,
            r.content_type@ == text_plain(),
    {
        Response { body, status: 200, content_type: "text/plain".to_owned() }
    }

    /// Creates a JSON Response with HTTP 200 and application/json.
    pub fn json(body: String) -> (r: Response)
        ensures
            r.body@ == body@,
            r.status == 200,
            r.content_type@ == application_json(),
    {
        Response { body, status: 200, content_type: "application/json".to_owned() }
    }

    /// Creates an HTML Response with HTTP 200 and text/html.
    pub fn html(body: String) -> (r: Response)
        ensures
            r.body@ == body@,
            r.status == 200,
            r.content_type@ == text_html(),
    {
        Response { body, status: 200, content_type: "text/html".to_owned() }
    }

    /// Creates a plain text Response with HTTP 200 and text/plain.
    pub fn text(body: String) -> (r: Response)
        ensures
            r.body@ == body@,
            r.status == 200,
            r.content_type@ == text_plain(),
    {
        Response { body, status: 200, content_type: "text/plain".to_owned() }
    }

    /// Sets the HTTP status code (e.g. 200, 201, 404, 500).
    pub fn set_status(&mut self, status: i64)
        ensures
            final(self).status == status,
            final(self).body == old(self).body,
            final(self).content_type == old(self).content_type,
    {
        self.status = status;
    }

    /// Sets the Content-Type header (e.g. "application/json").
    pub fn set_content_type(&mut self, content_type: String)
        ensures
            final(self).content_type@ == content_type@,
            final(self).status == old(self).status,
            final(self).body == old(self).body,
    {
        self.content_type = content_type;
    }

    /// Returns the HTTP status code.
    pub fn status(&self) -> (r: i64)
        ensures
            r == self.status,
    {
        self.status
    }

    /// Returns the response body.
    pub fn body(&self) -> (r: String)
        ensures
            r@ == self.body@,
    {
        self.body.clone()
    }

    /// Returns the Content-Type of the response.
    pub fn content_type(&self) -> (r: String)
        ensures
            r@ == self.content_type@,
    {
        self.content_type.clone()
    }
}

/// Constructs a new Response object with body, status code, and content type.
pub fn response_create(body: String, status: i64, content_type: String) -> (r: Response)
    ensures
        r.body@ == body@,
        r.status == status,
        r.content_type@ == content_type@,
{
    Response { body, status, content_type }
}

} // verus!
