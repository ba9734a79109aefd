//! Splitting a raw request line into its method, path and protocol tokens.
use vstd::prelude::*;

verus! {

/// Unicode `White_Space` characters, the separators of a request line.
pub open spec fn is_ws(c: char) -> bool {
    let u = c as u32;
    ||| 0x9 <= u <= 0xd
    ||| u == 0x20
    ||| u == 0x85
    ||| u == 0xa0
    ||| u == 0x1680
    ||| 0x2000 <= u <= 0x200a
    ||| u == 0x2028
    ||| u == 0x2029
    ||| u == 0x202f
    ||| u == 0x205f
    ||| u == 0x3000
}

/// Left-to-right scan of `s`: the tokens completed so far and the token in
/// progress (empty when the last character read was whitespace).
pub open spec fn scan(s: Seq<char>) -> (Seq<Seq<char>>, Seq<char>)
    decreases s.len(),
{
    if s.len() == 0 {
        (Seq::empty(), Seq::empty())
    } else {
        let (done, cur) = scan(s.drop_last());
        let c = s.last();
        if is_ws(c) {
            if cur.len() > 0 {
                (done.push(cur), Seq::empty())
            } else {
                (done, cur)
            }
        } else {
            (done, cur.push(c))
        }
    }
}

/// The maximal runs of non-whitespace characters of `s`, in order.
pub open spec fn tokens(s: Seq<char>) -> Seq<Seq<char>> {
    let (done, cur) = scan(s);
    if cur.len() > 0 {
        done.push(cur)
    } else {
        done
    }
}

/// Whether `w` holds no whitespace character.
pub open spec fn is_word(w: Seq<char>) -> bool {
    forall|i: int| 0 <= i < w.len() ==> !is_ws(#[trigger] w[i])
}

proof fn lemma_scan_word(s: Seq<char>, w: Seq<char>)
    requires
        is_word(w),
    ensures
        scan(s + w) == (scan(s).0, scan(s).1 + w),
    decreases w.len(),
{
    if w.len() == 0 {
        assert(s + w == s);
        assert(scan(s).1 + w == scan(s).1);
    } else {
        let w0 = w.drop_last();
        lemma_scan_word(s, w0);
        assert((s + w).drop_last() == s + w0);
        assert(scan(s).1 + w == (scan(s).1 + w0).push(w.last()));
    }
}

/// Three words joined by single spaces tokenize back to those three words,
/// so `parse_request` accepts the joined line and returns them unchanged.
pub proof fn lemma_tokens_round_trip(m: Seq<char>, p: Seq<char>, v: Seq<char>)
    requires
        m.len() > 0,
        p.len() > 0,
        v.len() > 0,
        is_word(m),
        is_word(p),
        is_word(v),
    ensures
        tokens(m + seq![' '] + p + seq![' '] + v) == seq![m, p, v],
{
    let e = Seq::<char>::empty();
    let sp = seq![' '];
    assert(e + m == m);
    lemma_scan_word(e, m);
    assert(scan(e) == (Seq::<Seq<char>>::empty(), e));
    let a = m + sp;
    assert(a.drop_last() == m);
    assert(scan(a) == (seq![m], e));
    lemma_scan_word(a, p);
    assert(e + p == p);
    let b = a + p + sp;
    assert(b.drop_last() == a + p);
    assert(scan(b) == (seq![m, p], e));
    lemma_scan_word(b, v);
    assert(b + v == m + sp + p + sp + v);
}

/// A parsed request line.
#[derive(Debug, PartialEq, Eq)]
pub struct Request {
    pub method: String,
    pub path: String,
    pub protocol: String,
}

/// Why a request line could not be parsed.
#[derive(Debug, Clone, Copy, PartialEq, Eq)]
pub enum ParseError {
    /// The line does not hold exactly three whitespace-separated tokens.
    MalformedRequestLine,
}

/// Whether `c` is a Unicode whitespace character.
pub fn is_whitespace_char(c: char) -> (r: bool)
    ensures
        r == is_ws(c),
{
    let u = c as u32;
    (0x9 <= u && u <= 0xd) || u == 0x20 || u == 0x85 || u == 0xa0 || u == 0x1680 || (0x2000
        <= u && u <= 0x200a) || u == 0x2028 || u == 0x2029 || u == 0x202f || u == 0x205f || u
        == 0x3000
}

/// The character sequences that the strings hold.
pub open spec fn views(v: Seq<String>) -> Seq<Seq<char>> {
    v.map_values(|t: String| t@)
}

/// The whitespace-separated tokens of `s`.
pub fn split_tokens(s: &str) -> (r: Vec<String>)
    ensures
        views(r@) == tokens(s@),
{
    let n = s.unicode_len();
    let mut out: Vec<String> = Vec::new();
    let mut start: usize = 0;
    let mut i: usize = 0;
    while i < n
        invariant
            n == s@.len(),
            start <= i <= n,
            views(out@) == scan(s@.subrange(0, i as int)).0,
            s@.subrange(start as int, i as int) == scan(s@.subrange(0, i as int)).1,
        decreases n - i,
    {
        let c = s.get_char(i);
        assert(s@.subrange(0, i + 1).drop_last() == s@.subrange(0, i as int));
        if is_whitespace_char(c) {
            if start < i {
                let t = String::from_str(s.substring_char(start, i));
                out.push(t);
                assert(views(out@) == views(out@.drop_last()).push(t@));
            }
            start = i + 1;
        } else {
            assert(s@.subrange(start as int, i + 1) == s@.subrange(start as int, i as int).push(c));
        }
        i = i + 1;
    }
    assert(s@.subrange(0, n as int) == s@);
    if start < n {
        let t = String::from_str(s.substring_char(start, n));
        out.push(t);
        assert(views(out@) == views(out@.drop_last()).push(t@));
    }
    out
}

/// Parses a request line of exactly three whitespace-separated tokens:
/// method, path and protocol, in that order.
pub fn parse_request(req_string: &str) -> (r: Result<Request, ParseError>)
    ensures
        r is Ok <==> tokens(req_string@).len() == 3,
        r is Ok ==> r->Ok_0.method@ == tokens(req_string@)[0] && r->Ok_0.path@ == tokens(
            req_string@,
        )[1] && r->Ok_0.protocol@ == tokens(req_string@)[2],
{
    let toks = split_tokens(req_string);
    if toks.len() == 3 {
        let req = Request {
            method: toks[0].clone(),
            path: toks[1].clone(),
            protocol: toks[2].clone(),
        };
        Ok(req)
    } else {
        Err(ParseError::MalformedRequestLine)
    }
}

} // verus!
