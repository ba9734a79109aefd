//! Decisions that map a validated request onto the document root: the
//! relative target, the index-file fallback for directories, the content
//! type, and the response for the outcome of reading the file.
use vstd::prelude::*;
use crate::request::Request;
use crate::response::{create_error_response, create_success_response, Response, Status};
use crate::text::{find_last, last_index_of, str_equal};
use crate::validate::{request_ok, validate};

verus! {

/// `p` without its leading run of `/`, so that joining it to the document
/// root never yields an absolute path.
pub open spec fn strip_root(p: Seq<char>) -> Seq<char>
    decreases p.len(),
{
    if p.len() > 0 && p[0] == '/' {
        strip_root(p.drop_first())
    } else {
        p
    }
}

/// The request path relative to the document root.
pub fn relative_target(path: &str) -> (r: String)
    ensures
        r@ == strip_root(path@),
        r@.len() == 0 || r@[0] != '/',
{
    let n = path.unicode_len();
    let mut i: usize = 0;
    assert(path@.subrange(0, n as int) == path@);
    while i < n && path.get_char(i) == '/'
        invariant
            n == path@.len(),
            i <= n,
            strip_root(path@) == strip_root(path@.subrange(i as int, n as int)),
        decreases n - i,
    {
        assert(path@.subrange(i as int, n as int).drop_first() == path@.subrange(i + 1, n as int));
        i = i + 1;
    }
    String::from_str(path.substring_char(i, n))
}

/// How a request ends before any file is touched: a bad request, or the
/// relative target to look up.
pub fn plan_request(req: &Request) -> (r: Result<String, Response>)
    ensures
        request_ok(*req) ==> r is Ok && r->Ok_0@ == strip_root(req.path@),
        !request_ok(*req) ==> r is Err && r->Err_0.wf() && r->Err_0.status == Status::BadRequest,
{
    if validate(req) {
        Ok(relative_target(req.path.as_str()))
    } else {
        Err(create_error_response(Status::BadRequest))
    }
}

/// The index files probed inside a directory, in priority order.
pub open spec fn index_name(i: int) -> Seq<char> {
    if i == 0 {
        "index.txt"@
    } else if i == 1 {
        "index.html"@
    } else {
        "index.shtml"@
    }
}

/// The number of index files probed.
pub const INDEX_FILES: usize = 3;

pub fn index_file(i: usize) -> (r: &'static str)
    requires
        i < INDEX_FILES,
    ensures
        r@ == index_name(i as int),
{
    if i == 0 {
        "index.txt"
    } else if i == 1 {
        "index.html"
    } else {
        "index.shtml"
    }
}

/// `name` inside the directory `dir` (relative; empty for the root).
pub open spec fn join_path(dir: Seq<char>, name: Seq<char>) -> Seq<char> {
    if dir.len() == 0 || dir.last() == '/' {
        dir + name
    } else {
        dir + "/"@ + name
    }
}

pub fn join(dir: &str, name: &str) -> (r: String)
    ensures
        r@ == join_path(dir@, name@),
{
    let n = dir.unicode_len();
    let mut r = String::from_str(dir);
    if !(n == 0 || dir.get_char(n - 1) == '/') {
        r.append("/");
    }
    r.append(name);
    r
}

/// The index-file candidates inside the directory `dir`, in priority order.
pub fn index_candidates(dir: &str) -> (r: Vec<String>)
    ensures
        r@.len() == INDEX_FILES,
        forall|i: int| 0 <= i < INDEX_FILES ==> (#[trigger] r@[i])@ == join_path(dir@, index_name(i)),
{
    let mut r: Vec<String> = Vec::new();
    let mut i: usize = 0;
    while i < INDEX_FILES
        invariant
            i <= INDEX_FILES,
            r@.len() == i,
            forall|k: int| 0 <= k < i ==> (#[trigger] r@[k])@ == join_path(dir@, index_name(k)),
        decreases INDEX_FILES - i,
    {
        r.push(join(dir, index_file(i)));
        i = i + 1;
    }
    r
}

/// The first index file that exists, or -1.
pub open spec fn first_present(present: Seq<bool>) -> int {
    if present[0] {
        0
    } else if present[1] {
        1
    } else if present[2] {
        2
    } else {
        -1
    }
}

/// The file a request resolves to, and whether an index file stood in for
/// a directory.
pub struct ResolvedTarget {
    pub path: String,
    pub fallback: bool,
}

/// Chooses the file to serve for the relative target `rel`: for a directory,
/// the first index file that exists (`present` answers, in priority order,
/// whether each candidate exists); otherwise `rel` itself.
pub fn resolve_target(rel: &str, is_dir: bool, present: &Vec<bool>) -> (r: ResolvedTarget)
    requires
        is_dir ==> present@.len() == INDEX_FILES,
    ensures
        is_dir && first_present(present@) >= 0 ==> r.fallback && r.path@ == join_path(
            rel@,
            index_name(first_present(present@)),
        ),
        (!is_dir || first_present(present@) < 0) ==> !r.fallback && r.path@ == rel@,
{
    if is_dir {
        let mut i: usize = 0;
        while i < INDEX_FILES
            invariant
                is_dir,
                present@.len() == INDEX_FILES,
                i <= INDEX_FILES,
                forall|k: int| 0 <= k < i ==> !present@[k],
            decreases INDEX_FILES - i,
        {
            if present[i] {
                let path = join(rel, index_file(i));
                let r = ResolvedTarget { path, fallback: true };
                assert(first_present(present@) == i as int);
                return r;
            }
            i = i + 1;
        }
        assert(first_present(present@) == -1);
    }
    ResolvedTarget { path: String::from_str(rel), fallback: false }
}

/// The last component of `p`.
pub open spec fn file_name(p: Seq<char>) -> Seq<char> {
    p.subrange(last_index_of(p, '/') + 1, p.len() as int)
}

/// The file name has the extension `html`: it ends in `.html` with
/// something before the dot.
pub open spec fn has_html_extension(p: Seq<char>) -> bool {
    let name = file_name(p);
    name.len() > 5 && name.subrange(name.len() - 5, name.len() as int) == ".html"@
}

pub open spec fn content_type_of(p: Seq<char>) -> Seq<char> {
    if has_html_extension(p) {
        "html"@
    } else {
        "plain"@
    }
}

/// A file whose name holds no `.` has no extension, and is served as
/// `plain`.
pub proof fn lemma_no_extension_is_plain(p: Seq<char>)
    requires
        forall|i: int| 0 <= i < file_name(p).len() ==> file_name(p)[i] != '.',
    ensures
        content_type_of(p) == "plain"@,
{
    reveal_strlit(".html");
    let name = file_name(p);
    if name.len() > 5 {
        let tail = name.subrange(name.len() - 5, name.len() as int);
        assert(tail[0] == name[name.len() - 5]);
        assert(tail != ".html"@);
    }
}

/// The content type named by the file's extension: `html` or `plain`.
pub fn content_type(path: &str) -> (r: &'static str)
    ensures
        r@ == content_type_of(path@),
{
    let n = path.unicode_len();
    let start = match find_last(path, '/') {
        None => 0,
        Some(k) => k + 1,
    };
    let name = path.substring_char(start, n);
    assert(name@ == file_name(path@));
    let m = name.unicode_len();
    if m > 5 && str_equal(name.substring_char(m - 5, m), ".html") {
        "html"
    } else {
        "plain"
    }
}

/// How reading a file failed.
#[derive(Debug, Clone, Copy, PartialEq, Eq, Structural)]
pub enum FileError {
    NotFound,
    PermissionDenied,
    Other,
}

/// The status that a failed read maps to.
pub open spec fn error_status(e: FileError) -> Status {
    match e {
        FileError::NotFound => Status::NotFound,
        FileError::PermissionDenied => Status::Forbidden,
        FileError::Other => Status::BadRequest,
    }
}

/// The response for the resolved `target`: `None` when it is not a regular
/// file, else the outcome of reading it.
pub fn finish_request(target: &str, loaded: Option<Result<Vec<u8>, FileError>>) -> (r: Response)
    ensures
        r.wf(),
        loaded is None ==> r.status == Status::NotFound,
        loaded matches Some(Err(e)) ==> r.status == error_status(e),
        loaded matches Some(Err(FileError::NotFound)) ==> r.status == Status::NotFound,
        loaded matches Some(Err(FileError::PermissionDenied)) ==> r.status == Status::Forbidden,
        loaded matches Some(Ok(data)) ==> r.status == Status::Success && r.data@ == data@
            && r.content_type@ == content_type_of(target@),
{
    match loaded {
        None => create_error_response(Status::NotFound),
        Some(Ok(data)) => {
            let ct = content_type(target);
            proof {
                reveal_strlit("html");
                reveal_strlit("plain");
            }
            create_success_response(ct, data)
        },
        Some(Err(FileError::NotFound)) => create_error_response(Status::NotFound),
        Some(Err(FileError::PermissionDenied)) => create_error_response(Status::Forbidden),
        Some(Err(FileError::Other)) => create_error_response(Status::BadRequest),
    }
}

} // verus!
