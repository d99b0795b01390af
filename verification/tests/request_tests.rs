use canteen::request::{first_field_len, is_separator, read_request_line, Method, Request};

#[test]
fn new_request_is_empty() {
    let req = Request::new();
    assert_eq!(req.method(), Method::NoImpl);
    assert_eq!(req.path(), "");
    assert_eq!(req.payload(), "");
    assert_eq!(req.header_count(), 0);
}

#[test]
fn get_without_headers_or_body() {
    let req = Request::from_str("GET /\r\n\r\n");
    assert_eq!(req.method(), Method::Get);
    assert_eq!(req.path(), "/");
    assert_eq!(req.header_count(), 0);
    assert_eq!(req.payload(), "");
}

#[test]
fn post_with_header_and_body() {
    let req = Request::from_str("POST /x\r\nContent-Type: text/plain\r\n\r\nhello");
    assert_eq!(req.method(), Method::Post);
    assert_eq!(req.path(), "/x");
    assert_eq!(req.header_count(), 1);
    assert_eq!(req.header("Content-Type").unwrap(), "text/plain");
    assert_eq!(req.payload(), "hello");
}

#[test]
fn method_tokens_map_to_tags() {
    assert_eq!(Request::from_str("GET /a HTTP/1.1\r\n\r\n").method(), Method::Get);
    assert_eq!(Request::from_str("POST /a HTTP/1.1\r\n\r\n").method(), Method::Post);
    assert_eq!(Request::from_str("DELETE /a HTTP/1.1\r\n\r\n").method(), Method::Delete);
    assert_eq!(Request::from_str("PUT /a HTTP/1.1\r\n\r\n").method(), Method::Put);
    assert_eq!(Request::from_str("PATCH /a HTTP/1.1\r\n\r\n").method(), Method::Put);
    assert_eq!(Request::from_str("FOO /a HTTP/1.1\r\n\r\n").method(), Method::NoImpl);
}

#[test]
fn method_tokens_are_case_sensitive() {
    assert_eq!(Request::from_str("get /a\r\n\r\n").method(), Method::NoImpl);
    assert_eq!(Request::from_str("Get /a\r\n\r\n").method(), Method::NoImpl);
    assert_eq!(Request::from_str("GETS /a\r\n\r\n").method(), Method::NoImpl);
    assert_eq!(Request::from_str("GE /a\r\n\r\n").method(), Method::NoImpl);
}

#[test]
fn method_from_token_reads_characters() {
    let get: Vec<char> = "GET".chars().collect();
    let patch: Vec<char> = "PATCH".chars().collect();
    let none: Vec<char> = Vec::new();
    assert_eq!(Method::from_token(&get), Method::Get);
    assert_eq!(Method::from_token(&patch), Method::Put);
    assert_eq!(Method::from_token(&none), Method::NoImpl);
}

#[test]
fn protocol_version_is_ignored() {
    let req = Request::from_str("GET /index.html HTTP/1.1\r\nHost: example.org\r\n\r\n");
    assert_eq!(req.method(), Method::Get);
    assert_eq!(req.path(), "/index.html");
    assert_eq!(req.header("Host").unwrap(), "example.org");
}

#[test]
fn third_field_keeps_further_spaces() {
    let req = Request::from_str("GET /a b c d\r\n\r\n");
    assert_eq!(req.path(), "/a");
}

#[test]
fn request_line_is_the_first_line() {
    let req = Request::from_str("DELETE /first\r\nGET: /second\r\nPOST /third\r\n\r\n");
    assert_eq!(req.method(), Method::Delete);
    assert_eq!(req.path(), "/first");
    assert_eq!(req.header_count(), 1);
    assert_eq!(req.header("GET").unwrap(), "/second");
}

#[test]
fn empty_input_degrades_to_defaults() {
    let req = Request::from_str("");
    assert_eq!(req.method(), Method::NoImpl);
    assert_eq!(req.path(), "");
    assert_eq!(req.header_count(), 0);
    assert_eq!(req.payload(), "");
}

#[test]
fn single_token_request_line_degrades_to_defaults() {
    let req = Request::from_str("GET\r\nHost: h\r\n\r\nbody");
    assert_eq!(req.method(), Method::NoImpl);
    assert_eq!(req.path(), "");
    assert_eq!(req.header("Host").unwrap(), "h");
    assert_eq!(req.payload(), "body");
}

#[test]
fn doubled_space_gives_an_empty_path() {
    let req = Request::from_str("GET  /x\r\n\r\n");
    assert_eq!(req.method(), Method::Get);
    assert_eq!(req.path(), "");
}

#[test]
fn missing_separator_leaves_the_body_empty() {
    let req = Request::from_str("GET /x\r\nA: 1\r\nB: 2");
    assert_eq!(req.method(), Method::Get);
    assert_eq!(req.path(), "/x");
    assert_eq!(req.header("A").unwrap(), "1");
    assert_eq!(req.header("B").unwrap(), "2");
    assert_eq!(req.header_count(), 2);
    assert_eq!(req.payload(), "");
}

#[test]
fn header_lines_without_separator_are_skipped() {
    let req = Request::from_str("GET /\r\nNoSeparator\r\nAlso:none\r\nKey: Value\r\n\r\n");
    assert_eq!(req.header_count(), 1);
    assert_eq!(req.header("Key").unwrap(), "Value");
    assert!(req.header("NoSeparator").is_none());
    assert!(req.header("Also").is_none());
    assert!(req.header("Also:none").is_none());
}

#[test]
fn header_is_cut_at_the_first_separator() {
    let req = Request::from_str("GET /\r\nA: b: c\r\n\r\n");
    assert_eq!(req.header("A").unwrap(), "b: c");
    assert!(req.header("A: b").is_none());
}

#[test]
fn header_value_keeps_extra_whitespace() {
    let req = Request::from_str("GET /\r\nA:  padded \r\n\r\n");
    assert_eq!(req.header("A").unwrap(), " padded ");
}

#[test]
fn later_header_overwrites_earlier() {
    let req = Request::from_str("GET /\r\nA: 1\r\nB: x\r\nA: 2\r\n\r\n");
    assert_eq!(req.header_count(), 2);
    assert_eq!(req.header("A").unwrap(), "2");
    assert_eq!(req.header("B").unwrap(), "x");
}

#[test]
fn header_names_are_kept_as_received() {
    let req = Request::from_str("GET /\r\ncontent-type: a\r\n\r\n");
    assert_eq!(req.header("content-type").unwrap(), "a");
    assert!(req.header("Content-Type").is_none());
}

#[test]
fn body_is_copied_verbatim() {
    let req = Request::from_str("POST /p\r\nContent-Length: 2\r\n\r\nline one\r\n\r\nline: two\r\n");
    assert_eq!(req.payload(), "line one\r\n\r\nline: two\r\n");
    assert_eq!(req.header_count(), 1);
}

#[test]
fn bare_line_feeds_do_not_end_lines() {
    let req = Request::from_str("GET /\nA: 1\n\nbody");
    assert_eq!(req.method(), Method::Get);
    assert_eq!(req.path(), "/");
    assert_eq!(req.header_count(), 0);
    assert_eq!(req.payload(), "");
}

#[test]
fn bare_carriage_returns_do_not_end_lines() {
    let req = Request::from_str("GET /x\rA: 1\r\rbody");
    assert_eq!(req.method(), Method::Get);
    assert_eq!(req.path(), "/x");
    assert_eq!(req.header_count(), 0);
    assert_eq!(req.payload(), "");
}

#[test]
fn text_beyond_ascii_is_kept() {
    let req = Request::from_str("GET /caf\u{e9}\r\nX-N\u{e4}me: \u{4e16}\u{754c}\r\n\r\n\u{1f600}");
    assert_eq!(req.path(), "/caf\u{e9}");
    assert_eq!(req.header("X-N\u{e4}me").unwrap(), "\u{4e16}\u{754c}");
    assert_eq!(req.payload(), "\u{1f600}");
}

#[test]
fn parse_replaces_fields_and_adds_headers() {
    let mut req = Request::from_str("GET /old\r\nA: 1\r\nB: 2\r\n\r\nold body");
    req.parse("POST /new\r\nB: 3\r\nC: 4\r\n\r\nnew body");
    assert_eq!(req.method(), Method::Post);
    assert_eq!(req.path(), "/new");
    assert_eq!(req.payload(), "new body");
    assert_eq!(req.header_count(), 3);
    assert_eq!(req.header("A").unwrap(), "1");
    assert_eq!(req.header("B").unwrap(), "3");
    assert_eq!(req.header("C").unwrap(), "4");
}

#[test]
fn parse_of_malformed_text_resets_method_and_path() {
    let mut req = Request::from_str("GET /old\r\n\r\nbody");
    req.parse("nonsense");
    assert_eq!(req.method(), Method::NoImpl);
    assert_eq!(req.path(), "");
    assert_eq!(req.payload(), "");
}

#[test]
fn parsing_twice_gives_the_same_request() {
    let raw = "PUT /item/7 HTTP/1.0\r\nAccept: */*\r\n\r\n{}";
    let a = Request::from_str(raw);
    let b = Request::from_str(raw);
    assert_eq!(a.method(), b.method());
    assert_eq!(a.path(), b.path());
    assert_eq!(a.payload(), b.payload());
    assert_eq!(a.header_count(), b.header_count());
    assert_eq!(a.header("Accept"), b.header("Accept"));
}

#[test]
fn read_request_line_gives_method_and_path() {
    let line: Vec<char> = "POST /submit HTTP/1.1".chars().collect();
    let (method, path) = read_request_line(&line);
    assert_eq!(method, Method::Post);
    assert_eq!(path.iter().collect::<String>(), "/submit");
    let line: Vec<char> = "DELETE /x".chars().collect();
    let (method, path) = read_request_line(&line);
    assert_eq!(method, Method::Delete);
    assert_eq!(path.iter().collect::<String>(), "/x");
}

#[test]
fn read_request_line_without_space_gives_defaults() {
    let line: Vec<char> = "POST".chars().collect();
    let (method, path) = read_request_line(&line);
    assert_eq!(method, Method::NoImpl);
    assert_eq!(path.len(), 0);
    let (method, path) = read_request_line(&[]);
    assert_eq!(method, Method::NoImpl);
    assert_eq!(path.len(), 0);
}

#[test]
fn tabs_separate_fields() {
    let req = Request::from_str("GET\t/x\tHTTP/1.1\r\n\r\n");
    assert_eq!(req.method(), Method::Get);
    assert_eq!(req.path(), "/x");
    let req = Request::from_str("POST /y\tHTTP/1.1\r\n\r\n");
    assert_eq!(req.method(), Method::Post);
    assert_eq!(req.path(), "/y");
}

#[test]
fn white_space_beyond_ascii_does_not_separate_fields() {
    let req = Request::from_str("GET\u{a0}/x\r\n\r\n");
    assert_eq!(req.method(), Method::NoImpl);
    assert_eq!(req.path(), "");
    let req = Request::from_str("GET /a\u{2003}b c\r\n\r\n");
    assert_eq!(req.path(), "/a\u{2003}b");
}

#[test]
fn separators_are_the_white_space_of_ascii() {
    for code in 0u32..=0x2100 {
        if let Some(c) = char::from_u32(code) {
            assert_eq!(is_separator(c), c.is_ascii() && c.is_whitespace(), "{:?}", c);
        }
    }
    for c in [' ', '\t', '\n', '\u{b}', '\u{c}', '\r'] {
        assert!(is_separator(c));
    }
}

#[test]
fn first_field_ends_at_white_space() {
    let chars = |s: &str| s.chars().collect::<Vec<char>>();
    assert_eq!(first_field_len(&chars("GET /x")), 3);
    assert_eq!(first_field_len(&chars("GET")), 3);
    assert_eq!(first_field_len(&chars(" GET")), 0);
    assert_eq!(first_field_len(&chars("")), 0);
    assert_eq!(first_field_len(&chars("a\tb")), 1);
    assert_eq!(first_field_len(&chars("ab\u{a0}c d")), 4);
}

#[test]
fn leading_space_gives_an_unnamed_method() {
    let req = Request::from_str(" GET /x\r\n\r\n");
    assert_eq!(req.method(), Method::NoImpl);
    assert_eq!(req.path(), "GET");
}
