//! Responses: the closed set of statuses, their fixed error bodies, and the
//! exact bytes written back to the client.
use vstd::prelude::*;
use vstd::utf8::encode_utf8;

verus! {

/// The statuses this server answers with.
#[derive(Debug, Clone, Copy, PartialEq, Eq, Structural)]
pub enum Status {
    Success,
    BadRequest,
    Forbidden,
    NotFound,
}

pub open spec fn code_of(s: Status) -> u16 {
    match s {
        Status::Success => 200,
        Status::BadRequest => 400,
        Status::Forbidden => 403,
        Status::NotFound => 404,
    }
}

pub open spec fn code_text_of(s: Status) -> Seq<char> {
    match s {
        Status::Success => "200"@,
        Status::BadRequest => "400"@,
        Status::Forbidden => "403"@,
        Status::NotFound => "404"@,
    }
}

pub open spec fn reason_of(s: Status) -> Seq<char> {
    match s {
        Status::Success => "OK"@,
        Status::BadRequest => "Bad Request"@,
        Status::Forbidden => "Forbidden"@,
        Status::NotFound => "Not Found"@,
    }
}

impl Status {
    /// The numeric status code.
    pub fn code(&self) -> (r: u16)
        ensures
            r == code_of(*self),
    {
        match self {
            Status::Success => 200,
            Status::BadRequest => 400,
            Status::Forbidden => 403,
            Status::NotFound => 404,
        }
    }

    /// The status code as three decimal digits.
    pub fn code_text(&self) -> (r: &'static str)
        ensures
            r@ == code_text_of(*self),
    {
        match self {
            Status::Success => "200",
            Status::BadRequest => "400",
            Status::Forbidden => "403",
            Status::NotFound => "404",
        }
    }

    /// The reason phrase of the status line.
    pub fn reason(&self) -> (r: &'static str)
        ensures
            r@ == reason_of(*self),
    {
        match self {
            Status::Success => "OK",
            Status::BadRequest => "Bad Request",
            Status::Forbidden => "Forbidden",
            Status::NotFound => "Not Found",
        }
    }
}

/// The identifier that every response carries.
pub open spec fn server_tag_text() -> Seq<char> {
    "agf453-agl475-web-server/0.1"@
}

pub fn server_tag() -> (r: &'static str)
    ensures
        r@ == server_tag_text(),
{
    "agf453-agl475-web-server/0.1"
}

/// The fixed markup sent as the body of an error status.
pub open spec fn error_body_text(s: Status) -> Seq<char> {
    "<h1>"@ + code_text_of(s) + " "@ + reason_of(s) + "</h1>"@
}

/// A response. `content_type` and `content_length` are set for a success
/// only; an error carries its fixed markup as the body.
#[derive(Debug, PartialEq, Eq)]
pub struct Response {
    pub status: Status,
    pub web_server: String,
    pub content_type: String,
    pub content_length: usize,
    pub data: Vec<u8>,
}

impl Response {
    /// The status determines which fields are populated.
    pub open spec fn wf(&self) -> bool {
        &&& self.web_server@ == server_tag_text()
        &&& if self.status is Success {
            &&& self.content_length == self.data@.len()
            &&& self.content_type@.len() > 0
        } else {
            &&& self.content_type@.len() == 0
            &&& self.content_length == 0
            &&& self.data@ == encode_utf8(error_body_text(self.status))
        }
    }
}

/// A successful response carrying `data` with the given content type.
pub fn create_success_response(content_type: &str, data: Vec<u8>) -> (r: Response)
    requires
        content_type@.len() > 0,
    ensures
        r.wf(),
        r.status == Status::Success,
        r.content_type@ == content_type@,
        r.content_length == data@.len(),
        r.data@ == data@,
{
    let n = data.len();
    Response {
        status: Status::Success,
        web_server: String::from_str(server_tag()),
        content_type: String::from_str(content_type),
        content_length: n,
        data,
    }
}

/// The response for an error status, with its fixed markup as the body.
pub fn create_error_response(status: Status) -> (r: Response)
    requires
        !(status is Success),
    ensures
        r.wf(),
        r.status == status,
        r.content_type@.len() == 0,
        r.content_length == 0,
        r.data@ == encode_utf8(error_body_text(status)),
{
    let mut body = String::from_str("<h1>");
    body.append(status.code_text());
    body.append(" ");
    body.append(status.reason());
    body.append("</h1>");
    Response {
        status,
        web_server: String::from_str(server_tag()),
        content_type: String::new(),
        content_length: 0,
        data: body.as_str().as_bytes_vec(),
    }
}

/// Decimal digits of `n`, most significant first.
pub open spec fn decimal(n: nat) -> Seq<char>
    decreases n,
{
    if n < 10 {
        seq!["0123456789"@[n as int]]
    } else {
        decimal(n / 10).push("0123456789"@[(n % 10) as int])
    }
}

/// `n` written in decimal.
pub fn decimal_text(n: usize) -> (r: String)
    ensures
        r@ == decimal(n as nat),
    decreases n,
{
    proof {
        reveal_strlit("0123456789");
    }
    let d = n % 10;
    let digit = "0123456789".substring_char(d, d + 1);
    assert(digit@ == seq!["0123456789"@[d as int]]);
    if n < 10 {
        String::from_str(digit)
    } else {
        let mut s = decimal_text(n / 10);
        s.append(digit);
        s
    }
}

/// The text that precedes the body on the wire.
pub open spec fn head_text(r: Response) -> Seq<char> {
    if r.status is Success {
        "HTTP/1.0 "@ + code_text_of(r.status) + " "@ + reason_of(r.status) + "\n"@ + r.web_server@
            + "\n"@ + "text/"@ + r.content_type@ + "\n"@ + decimal(r.content_length as nat)
            + "\n\n"@
    } else {
        "HTTP/1.0 "@ + code_text_of(r.status) + " "@ + reason_of(r.status) + "\n"@ + r.web_server@
            + "\n\n"@
    }
}

/// The bytes sent to the client for `r`.
pub open spec fn wire(r: Response) -> Seq<u8> {
    encode_utf8(head_text(r)) + r.data@
}

/// Serializes a response: status line, server tag, for a success the
/// content type and length, a blank line, then the body.
pub fn response_bytes(res: &Response) -> (r: Vec<u8>)
    ensures
        r@ == wire(*res),
{
    let mut head = String::from_str("HTTP/1.0 ");
    head.append(res.status.code_text());
    head.append(" ");
    head.append(res.status.reason());
    head.append("\n");
    head.append(res.web_server.as_str());
    if res.status == Status::Success {
        head.append("\n");
        head.append("text/");
        head.append(res.content_type.as_str());
        head.append("\n");
        let len = decimal_text(res.content_length);
        head.append(len.as_str());
    }
    head.append("\n\n");
    let mut out = head.as_str().as_bytes_vec();
    let mut body = res.data.clone();
    out.append(&mut body);
    out
}

} // verus!
