use simple_regex::CompileError;
use simple_regex::Re;
use simple_regex::client::Protocol;
use simple_regex::client::RequestBuilder;
use simple_regex::client::Response;
use simple_regex::url::Url;

#[test]
fn empty_pattern_matches_empty_prefix() {
    let re = Re::compile("").unwrap();
    let m = re.search("anything").unwrap();
    assert_eq!(m.matched, "");
    assert_eq!(m.captured, Vec::<String>::new());
    let m = re.search("").unwrap();
    assert_eq!(m.matched, "");
}

#[test]
fn wildcard_consumes_one_character() {
    let re = Re::compile("h.t").unwrap();
    assert_eq!(re.search("hat").unwrap().matched, "hat");
    assert_eq!(re.search("hot").unwrap().matched, "hot");
    assert!(re.search("ht").is_none());
    assert!(Re::compile(".").unwrap().search("").is_none());
}

#[test]
fn optional_is_idempotent_on_outcomes() {
    let once = Re::compile("Hel?o,").unwrap();
    let twice = Re::compile("Hel??o,").unwrap();
    for text in ["Heo,", "Helo,", "Hello,", "xeo,"] {
        assert_eq!(once.search(text).is_some(), twice.search(text).is_some());
    }
    assert!(twice.search("Heo,").is_some());
    assert!(twice.search("Helo,").is_some());
    assert!(twice.search("Hello,").is_none());
}

#[test]
fn anchors_alone() {
    assert_eq!(Re::compile("$").unwrap().search("").unwrap().matched, "");
    assert_eq!(Re::compile("^").unwrap().search("").unwrap().matched, "");
    assert!(Re::compile("$").unwrap().search("x").is_none());
    assert!(Re::compile("a$").unwrap().search("ab").is_none());
    assert_eq!(Re::compile("ab$").unwrap().search("ab").unwrap().matched, "ab");
}

#[test]
fn group_can_capture_empty_text() {
    let m = Re::compile("(a*)b").unwrap().search("b").unwrap();
    assert_eq!(m.matched, "b");
    assert_eq!(m.captured, vec![String::new()]);

    let m = Re::compile("()").unwrap().search("x").unwrap();
    assert_eq!(m.matched, "");
    assert_eq!(m.captured, vec![String::new()]);
}

#[test]
fn repeated_group_captures_every_repetition() {
    // Captures are recorded once per successful group match, in the
    // order the groups are opened.
    let m = Re::compile("(a)*").unwrap().search("aaa").unwrap();
    assert_eq!(m.matched, "aaa");
    assert_eq!(m.captured, vec!["a".to_string(), "a".to_string(), "a".to_string()]);
}

#[test]
fn optional_commits_to_its_sub_match() {
    // `Optional` keeps its sub-match whenever the sub-sequence
    // matches; it does not retry without it when a later node fails.
    let re = Re::compile("ab?bc").unwrap();
    assert!(re.search("abbc").is_some());
    assert!(re.search("abc").is_none());
}

#[test]
fn class_ranges_mix_with_members() {
    let re = Re::compile("[a-cx]*$").unwrap();
    assert_eq!(re.search("bxca").unwrap().matched, "bxca");
    assert!(re.search("bxd").is_none());
    // A dash with no character after it is a literal member.
    let re = Re::compile("[a-]*$").unwrap();
    assert_eq!(re.search("a-a").unwrap().matched, "a-a");
}

#[test]
fn compile_error_dangling_quantifier() {
    assert_eq!(Re::compile("?abc").err(), Some(CompileError::DanglingQuantifier));
    assert_eq!(Re::compile("*x").err(), Some(CompileError::DanglingQuantifier));
}

#[test]
fn compile_error_unterminated() {
    assert_eq!(Re::compile("(ab").err(), Some(CompileError::UnterminatedGroup));
    assert_eq!(Re::compile("[ab").err(), Some(CompileError::UnterminatedClass));
    // A nested group never sees its own closer: the outer group ends
    // at the first `)`.
    assert_eq!(Re::compile("(a(b)c)d").err(), Some(CompileError::UnterminatedGroup));
}

#[test]
fn compile_error_unsupported() {
    assert_eq!(Re::compile("a|b").err(), Some(CompileError::Unsupported));
    assert_eq!(Re::compile("a\\d").err(), Some(CompileError::Unsupported));
    assert_eq!(Re::compile("[a\\]").err(), Some(CompileError::Unsupported));
}

#[test]
fn compile_error_invalid_class_range() {
    assert_eq!(Re::compile("[c-a]").err(), Some(CompileError::InvalidClassRange));
}

#[test]
fn url_parse_extracts_parts() {
    let u = Url::parse("http://google.com").unwrap();
    assert_eq!(u.scheme(), "http");
    assert_eq!(u.host(), "google.com");
    assert_eq!(u.path(), "/");

    let u = Url::parse("http://example.org/a/b").unwrap();
    assert_eq!(u.host(), "example.org");
    assert_eq!(u.path(), "/a/b");
}

#[test]
fn url_parse_rejects_what_the_pattern_rejects() {
    assert!(Url::parse("https://example.org").is_err());
    assert!(Url::parse("ftp://example.org").is_err());
    assert!(Url::parse("http://example.org/x?q").is_err());
    assert!(Url::parse("no scheme at all").is_err());
}

#[test]
fn request_builder_from_url() {
    let b = RequestBuilder::from_url("http://example.org/x").unwrap();
    assert_eq!(b.method, "GET");
    assert_eq!(b.protocol, Protocol::HTTP);
    assert_eq!(b.host, "example.org");
    assert_eq!(b.path, "/x");

    let b = b.method("HEAD");
    assert_eq!(b.method, "HEAD");
    assert_eq!(b.host, "example.org");

    assert!(RequestBuilder::from_url("gopher://example.org").is_err());
}

#[test]
fn status_line_parses_code() {
    assert_eq!(Response::read_status_line("HTTP/1.0 200 OK"), Ok(200));
    assert_eq!(Response::read_status_line("HTTP/1.1 301 Moved Permanently"), Ok(301));
    assert!(Response::read_status_line("HTP/1.0 200 OK").is_err());
    assert!(Response::read_status_line("HTTP/1.0 99999 Too Big").is_err());
    assert!(Response::read_status_line("HTTP/1.0 2x0 Bad").is_err());
    assert!(Response::read_status_line("HTTP/1.0 200").is_err());
    assert!(Response::read_status_line("").is_err());
}

#[test]
fn headers_split_and_trim() {
    let lines = vec![
        "Content-Type: text/html; charset=ISO-8859-1".to_string(),
        "Location:http://www.google.com/".to_string(),
        "  X-Padded  :  value with spaces  ".to_string(),
        "X-Colons: a:b:c".to_string(),
        "".to_string(),
        "ignored: after blank".to_string(),
    ];
    let hs = Response::read_headers(&lines).unwrap();
    assert_eq!(
        hs,
        vec![
            ("Content-Type".to_string(), "text/html; charset=ISO-8859-1".to_string()),
            ("Location".to_string(), "http://www.google.com/".to_string()),
            ("X-Padded".to_string(), "value with spaces".to_string()),
            ("X-Colons".to_string(), "a:b:c".to_string()),
        ]
    );
}

#[test]
fn headers_reject_line_without_colon() {
    let lines = vec!["Content-Type: text/html".to_string(), "no colon here".to_string()];
    assert!(Response::read_headers(&lines).is_err());
}

#[test]
fn headers_empty_block() {
    assert_eq!(Response::read_headers(&Vec::new()), Ok(vec![]));
    let lines = vec!["   ".to_string(), "X: y".to_string()];
    assert_eq!(Response::read_headers(&lines), Ok(vec![]));
}
