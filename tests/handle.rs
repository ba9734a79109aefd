use static_http::log::{log_entry, log_record};
use static_http::request::{parse_request, Request};
use static_http::resolve::{
    content_type, finish_request, index_candidates, plan_request, relative_target, resolve_target,
    FileError,
};
use static_http::response::{
    create_error_response, create_success_response, decimal_text, response_bytes, Response, Status,
};

/// A document root held in memory: its directories and its files.
struct Root {
    dirs: Vec<&'static str>,
    files: Vec<(&'static str, Result<Vec<u8>, FileError>)>,
}

impl Root {
    fn file(&self, path: &str) -> Option<Result<Vec<u8>, FileError>> {
        self.files.iter().find(|(p, _)| *p == path).map(|(_, r)| r.clone())
    }
}

fn handle(req: &Request, root: &Root) -> Response {
    let rel = match plan_request(req) {
        Ok(rel) => rel,
        Err(res) => return res,
    };
    let is_dir = root.dirs.contains(&rel.trim_end_matches('/'));
    let present: Vec<bool> = if is_dir {
        index_candidates(&rel).iter().map(|c| root.file(c).is_some()).collect()
    } else {
        Vec::new()
    };
    let target = resolve_target(&rel, is_dir, &present);
    finish_request(&target.path, root.file(&target.path))
}

fn project_root() -> Root {
    Root {
        dirs: vec!["", "src"],
        files: vec![
            ("lol.txt", Ok(b"lol\n".to_vec())),
            ("index.html", Ok(b"hi".to_vec())),
            ("forbidden.txt", Err(FileError::PermissionDenied)),
            ("src/main.rs", Ok(b"fn main() {}\n".to_vec())),
        ],
    }
}

fn request(method: &str, path: &str, protocol: &str) -> Request {
    Request { method: method.to_string(), path: path.to_string(), protocol: protocol.to_string() }
}

#[test]
fn handle_request_bad_request_is_400_test() {
    let req = request("POST", "/lol.txt", "HTTP");
    let res = handle(&req, &project_root());
    assert_eq!(res.status.code(), 400);
}

#[test]
fn handle_request_forbidden_is_403_test() {
    let req = request("GET", "/forbidden.txt", "HTTP/2.0");
    let res = handle(&req, &project_root());
    assert_eq!(res.status.code(), 403);
}

#[test]
fn handle_request_not_found_is_404() {
    let req = request("GET", "/path/does/not/exist", "HTTP/2.0");
    let res = handle(&req, &project_root());
    assert_eq!(res.status.code(), 404);
}

#[test]
fn handle_request_dir_without_index_file_is_404() {
    let req = request("GET", "/src", "HTTP/2.0");
    let res = handle(&req, &project_root());
    assert_eq!(res.status.code(), 404);
}

#[test]
fn handle_request_file_is_200() {
    let req = request("GET", "/lol.txt", "HTTP/2.0");
    let res = handle(&req, &project_root());
    assert_eq!(res.status.code(), 200);
}

#[test]
fn handle_request_dir_with_index_file_is_200() {
    let req = request("GET", "/", "HTTP/2.0");
    let res = handle(&req, &project_root());
    assert_eq!(res.status.code(), 200);
}

#[test]
fn handle_request_content_type_test() {
    let req1 = request("GET", "/index.html", "HTTP/2.0");
    let req2 = request("GET", "/lol.txt", "HTTP/2.0");
    let res1 = handle(&req1, &project_root());
    let res2 = handle(&req2, &project_root());
    assert_eq!(res1.content_type, "html");
    assert_eq!(res2.content_type, "plain");
}

#[test]
fn root_with_index_html_is_served_as_html() {
    let root = Root { dirs: vec![""], files: vec![("index.html", Ok(b"<p>x</p>".to_vec()))] };
    let res = handle(&request("GET", "/", "HTTP/1.0"), &root);
    assert_eq!(res.status, Status::Success);
    assert_eq!(res.content_type, "html");
    assert_eq!(res.data, b"<p>x</p>".to_vec());
}

#[test]
fn index_files_are_probed_in_priority_order() {
    let root = Root {
        dirs: vec!["", "docs"],
        files: vec![
            ("docs/index.shtml", Ok(b"s".to_vec())),
            ("docs/index.txt", Ok(b"t".to_vec())),
        ],
    };
    let res = handle(&request("GET", "/docs/", "HTTP/1.0"), &root);
    assert_eq!(res.data, b"t".to_vec());
    assert_eq!(res.content_type, "plain");
    let target = resolve_target("docs", true, &vec![false, false, true]);
    assert_eq!(target.path, "docs/index.shtml");
    assert!(target.fallback);
    let plain = resolve_target("docs", false, &Vec::new());
    assert_eq!(plain.path, "docs");
    assert!(!plain.fallback);
}

#[test]
fn index_candidates_join_the_directory() {
    let c = index_candidates("");
    assert_eq!(c, vec!["index.txt".to_string(), "index.html".to_string(), "index.shtml".to_string()]);
    let d = index_candidates("a/b");
    assert_eq!(d[1], "a/b/index.html");
}

#[test]
fn file_without_extension_is_plain() {
    let root = Root { dirs: vec![""], files: vec![("README", Ok(b"read me".to_vec()))] };
    let res = handle(&request("GET", "/README", "HTTP/1.0"), &root);
    assert_eq!(res.status, Status::Success);
    assert_eq!(res.content_type, "plain");
    assert_eq!(content_type("dir.html/README"), "plain");
}

#[test]
fn content_type_follows_the_extension() {
    assert_eq!(content_type("a/b.html"), "html");
    assert_eq!(content_type("x.y.html"), "html");
    assert_eq!(content_type(".html"), "plain");
    assert_eq!(content_type("a/.html"), "plain");
    assert_eq!(content_type("page.htm"), "plain");
    assert_eq!(content_type("page.HTML"), "plain");
}

#[test]
fn missing_target_is_404() {
    let root = Root { dirs: vec![""], files: vec![] };
    let res = handle(&request("GET", "/nothing/here.txt", "HTTP/1.0"), &root);
    assert_eq!(res.status, Status::NotFound);
    assert_eq!(finish_request("a", Some(Err(FileError::NotFound))).status, Status::NotFound);
}

#[test]
fn unreadable_target_is_403() {
    let res = finish_request("secret.txt", Some(Err(FileError::PermissionDenied)));
    assert_eq!(res.status, Status::Forbidden);
    assert_eq!(res.data, b"<h1>403 Forbidden</h1>".to_vec());
}

#[test]
fn other_read_failure_is_400() {
    let res = finish_request("weird", Some(Err(FileError::Other)));
    assert_eq!(res.status, Status::BadRequest);
}

#[test]
fn relative_target_strips_every_leading_slash() {
    assert_eq!(relative_target("/a/b"), "a/b");
    assert_eq!(relative_target("///etc/passwd"), "etc/passwd");
    assert_eq!(relative_target("/"), "");
}

#[test]
fn end_to_end_get_index_html() {
    let root = Root { dirs: vec![""], files: vec![("index.html", Ok(b"hi".to_vec()))] };
    let req = parse_request("GET /index.html HTTP/1.0").unwrap();
    let res = handle(&req, &root);
    assert_eq!(res.status.code(), 200);
    assert_eq!(res.content_type, "html");
    assert_eq!(res.content_length, 2);
    assert_eq!(res.data, b"hi".to_vec());
    assert_eq!(response_bytes(&res), b"HTTP/1.0 200 OK\nagf453-agl475-web-server/0.1\ntext/html\n2\n\nhi".to_vec());
}

#[test]
fn end_to_end_post_is_400() {
    let root = Root { dirs: vec![""], files: vec![("a.txt", Ok(b"a".to_vec()))] };
    let req = parse_request("POST /a.txt HTTP/1.0").unwrap();
    let res = handle(&req, &root);
    assert_eq!(res.status.code(), 400);
    assert_eq!(
        response_bytes(&res),
        b"HTTP/1.0 400 Bad Request\nagf453-agl475-web-server/0.1\n\n<h1>400 Bad Request</h1>".to_vec()
    );
}

#[test]
fn end_to_end_missing_file_is_404() {
    let root = Root { dirs: vec![""], files: vec![] };
    let req = parse_request("GET /nope.txt HTTP/1.0").unwrap();
    let res = handle(&req, &root);
    assert_eq!(res.status.code(), 404);
    assert_eq!(
        response_bytes(&res),
        b"HTTP/1.0 404 Not Found\nagf453-agl475-web-server/0.1\n\n<h1>404 Not Found</h1>".to_vec()
    );
}

#[test]
fn status_codes_and_reasons() {
    assert_eq!(Status::Success.code(), 200);
    assert_eq!(Status::BadRequest.code_text(), "400");
    assert_eq!(Status::Forbidden.reason(), "Forbidden");
    assert_eq!(Status::NotFound.reason(), "Not Found");
}

#[test]
fn success_response_counts_bytes() {
    let res = create_success_response("plain", "héllo".as_bytes().to_vec());
    assert_eq!(res.content_length, 6);
    assert_eq!(res.web_server, "agf453-agl475-web-server/0.1");
    let big = create_success_response("plain", vec![b'x'; 1234]);
    let bytes = response_bytes(&big);
    assert!(bytes.starts_with(b"HTTP/1.0 200 OK\nagf453-agl475-web-server/0.1\ntext/plain\n1234\n\nxxx"));
    let head = "HTTP/1.0 200 OK\nagf453-agl475-web-server/0.1\ntext/plain\n1234\n\n";
    assert_eq!(head.len(), 62);
    assert_eq!(bytes.len(), head.len() + 1234);
}

#[test]
fn error_responses_carry_fixed_markup() {
    let res = create_error_response(Status::BadRequest);
    assert_eq!(res.data, b"<h1>400 Bad Request</h1>".to_vec());
    assert_eq!(res.content_type, "");
    assert_eq!(res.content_length, 0);
    assert_eq!(create_error_response(Status::NotFound).data, b"<h1>404 Not Found</h1>".to_vec());
}

#[test]
fn decimal_text_writes_digits() {
    assert_eq!(decimal_text(0), "0");
    assert_eq!(decimal_text(7), "7");
    assert_eq!(decimal_text(10), "10");
    assert_eq!(decimal_text(90210), "90210");
    assert_eq!(decimal_text(usize::MAX), usize::MAX.to_string());
}

#[test]
fn log_record_layout() {
    let req = request("GET", "/a.txt", "HTTP/1.0");
    let rec = log_record(&req, "2024-01-02 03:04:05 UTC", Status::NotFound);
    assert_eq!(rec, "GET /a.txt HTTP/1.0\n2024-01-02 03:04:05 UTC\n404\n\n");
}

#[test]
fn log_entry_is_stamped_in_utc() {
    let req = request("GET", "/", "HTTP");
    let res = create_error_response(Status::Forbidden);
    let rec = log_entry(&req, &res);
    assert!(rec.starts_with("GET / HTTP\n"));
    assert!(rec.ends_with(" UTC\n403\n\n"));
    assert_eq!(rec.matches('\n').count(), 4);
    assert!(rec.len() > "GET / HTTP\n UTC\n403\n\n".len() + 10);
}
