//! Log records: one newline-terminated, multi-line record per handled
//! request, stamped with the current UTC time.
use vstd::prelude::*;
use crate::request::Request;
use crate::response::{code_text_of, Response, Status};

verus! {

/// A record: the request line, the timestamp, the status code, and a blank
/// line that ends it.
pub open spec fn log_record_text(req: Request, timestamp: Seq<char>, status: Status) -> Seq<
    char,
> {
    req.method@ + " "@ + req.path@ + " "@ + req.protocol@ + "\n"@ + timestamp + "\n"@
        + code_text_of(status) + "\n\n"@
}

/// Text on one line that ends in ` UTC`, as chrono displays a UTC
/// date-time.
pub open spec fn is_utc_text(t: Seq<char>) -> bool {
    &&& t.len() >= 4
    &&& t.subrange(t.len() - 4, t.len() as int) == " UTC"@
    &&& no_newline(t)
}

pub open spec fn no_newline(t: Seq<char>) -> bool {
    forall|i: int| 0 <= i < t.len() ==> t[i] != '\n'
}

/// The request line of a record.
pub open spec fn request_line(req: Request) -> Seq<char> {
    req.method@ + " "@ + req.path@ + " "@ + req.protocol@
}

/// A record is five lines: the request line, the timestamp, the status
/// code, and two empty lines, so its newlines stand exactly at the four
/// positions that end them.
pub proof fn lemma_log_record_lines(req: Request, t: Seq<char>, status: Status)
    requires
        no_newline(req.method@),
        no_newline(req.path@),
        no_newline(req.protocol@),
        no_newline(t),
    ensures
        ({
            let r = log_record_text(req, t, status);
            let l = request_line(req);
            let p1 = l.len() as int;
            let p2 = p1 + 1 + t.len();
            let p3 = p2 + 4;
            &&& r.len() == p3 + 2
            &&& r.subrange(0, p1) == l
            &&& r.subrange(p1 + 1, p2) == t
            &&& r.subrange(p2 + 1, p3) == code_text_of(status)
            &&& forall|i: int| 0 <= i < r.len() ==> (r[i] == '\n' <==> (i == p1 || i == p2 || i == p3
                || i == p3 + 1))
        }),
{
    reveal_strlit(" ");
    reveal_strlit("\n");
    reveal_strlit("\n\n");
    reveal_strlit("200");
    reveal_strlit("400");
    reveal_strlit("403");
    reveal_strlit("404");
    let r = log_record_text(req, t, status);
    let l = request_line(req);
    let c = code_text_of(status);
    assert(c.len() == 3);
    assert(no_newline(c));
    let nl = "\n"@;
    assert(r == l + nl + t + nl + c + "\n\n"@);
    assert(no_newline(l)) by {
        let a = req.method@ + " "@;
        let b = a + req.path@ + " "@;
        assert forall|i: int| 0 <= i < l.len() implies l[i] != '\n' by {
            if i < req.method@.len() {
                assert(l[i] == req.method@[i]);
            } else if i < a.len() {
                assert(l[i] == ' ');
            } else if i < a.len() + req.path@.len() {
                assert(l[i] == req.path@[i - a.len()]);
            } else if i < b.len() {
                assert(l[i] == ' ');
            } else {
                assert(l[i] == req.protocol@[i - b.len()]);
            }
        }
    }
    let p1 = l.len() as int;
    let p2 = p1 + 1 + t.len();
    let p3 = p2 + 4;
    assert(r.subrange(0, p1) == l);
    assert(r.subrange(p1 + 1, p2) == t);
    assert(r.subrange(p2 + 1, p3) == c);
    assert forall|i: int| 0 <= i < r.len() implies (r[i] == '\n' <==> (i == p1 || i == p2 || i
        == p3 || i == p3 + 1)) by {
        if i < p1 {
            assert(r[i] == l[i]);
        } else if i == p1 || i == p2 || i == p3 || i == p3 + 1 {
        } else if i < p2 {
            assert(r[i] == t[i - p1 - 1]);
        } else {
            assert(r[i] == c[i - p2 - 1]);
        }
    }
}

/// The log record for `req`, answered with `status`, at `timestamp`.
pub fn log_record(req: &Request, timestamp: &str, status: Status) -> (r: String)
    ensures
        r@ == log_record_text(*req, timestamp@, status),
{
    let mut r = String::from_str(req.method.as_str());
    r.append(" ");
    r.append(req.path.as_str());
    r.append(" ");
    r.append(req.protocol.as_str());
    r.append("\n");
    r.append(timestamp);
    r.append("\n");
    r.append(status.code_text());
    r.append("\n\n");
    r
}

/// Relies on `chrono::Utc::now` for the current time, and on chrono's
/// `Display` for `DateTime<Utc>`, which writes the date (digits, `-`, and a
/// sign for years outside 0 to 9999), a space, the time (digits, `:` and
/// `.`), a space, and `UTC`.
#[verifier::external_body]
fn utc_timestamp() -> (r: String)
    ensures
        is_utc_text(r@),
{
    chrono::Utc::now().to_string()
}

/// The log record for a handled request, stamped with the current UTC time.
pub fn log_entry(req: &Request, res: &Response) -> (r: String)
    ensures
        exists|t: Seq<char>| is_utc_text(t) && r@ == log_record_text(*req, t, res.status),
{
    let ts = utc_timestamp();
    log_record(req, ts.as_str(), res.status)
}

} // verus!
