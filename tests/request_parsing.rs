use http_rs::server::{parse_url, read_line, HttpMethod, ParseError, Request};

fn text(s: &str) -> String {
    s.to_string()
}

#[test]
fn simple_get_parses() {
    let req = Request::new(b"GET /users HTTP/1.1\r\nHost: x\r\n\r\n").unwrap();
    assert_eq!(req.method, HttpMethod::GET);
    assert_eq!(req.route, "/users");
    assert_eq!(req.headers.get("Host"), Some(&text("x")));
    assert_eq!(req.headers.len(), 1);
    assert!(req.query_params.is_empty());
    assert!(req.body.is_empty());
}

#[test]
fn post_with_body_parses() {
    let input = b"POST /users HTTP/1.1\r\nContent-Length: 24\r\n\r\n{\"id\":2,\"name\":\"Bob\"}   ";
    let req = Request::new(input).unwrap();
    assert_eq!(req.method, HttpMethod::POST);
    assert_eq!(req.route, "/users");
    assert_eq!(req.body.len(), 24);
    assert_eq!(&req.body[..], &b"{\"id\":2,\"name\":\"Bob\"}   "[..]);
    let value: serde_json::Value = serde_json::from_slice(&req.body).unwrap();
    assert_eq!(value["id"], 2);
    assert_eq!(value["name"], "Bob");
}

#[test]
fn query_parsing_scenario() {
    let req = Request::new(b"GET /search?q=hello&lang=en&flag HTTP/1.1\r\n\r\n").unwrap();
    assert_eq!(req.route, "/search");
    assert_eq!(req.query_params.len(), 3);
    assert_eq!(req.query_params.get("q"), Some(&text("hello")));
    assert_eq!(req.query_params.get("lang"), Some(&text("en")));
    assert_eq!(req.query_params.get("flag"), Some(&text("")));
}

#[test]
fn unknown_method_is_rejected() {
    let r = Request::new(b"PATCH /x HTTP/1.1\r\n\r\n");
    assert_eq!(r.err(), Some(ParseError::UnsupportedMethod));
}

#[test]
fn truncated_body_is_rejected() {
    let r = Request::new(b"POST /u HTTP/1.1\r\nContent-Length: 10\r\n\r\nabc");
    assert_eq!(r.err(), Some(ParseError::TruncatedBody));
}

#[test]
fn empty_header_block() {
    let req = Request::new(b"GET / HTTP/1.1\r\n\r\n").unwrap();
    assert!(req.headers.is_empty());
    assert_eq!(req.headers.len(), 0);
    assert!(req.body.is_empty());
}

#[test]
fn zero_content_length_gives_empty_body() {
    let req = Request::new(b"POST /u HTTP/1.1\r\nContent-Length: 0\r\n\r\n").unwrap();
    assert!(req.body.is_empty());
    assert_eq!(req.headers.get("Content-Length"), Some(&text("0")));
}

#[test]
fn question_mark_with_empty_query() {
    let (route, params) = parse_url("/x?");
    assert_eq!(route, "/x");
    assert!(params.is_empty());
    let req = Request::new(b"GET /x? HTTP/1.1\r\n\r\n").unwrap();
    assert_eq!(req.route, "/x");
    assert!(req.query_params.is_empty());
}

#[test]
fn query_pair_without_equals() {
    let (route, params) = parse_url("/p?flag&k=v");
    assert_eq!(route, "/p");
    assert_eq!(params.len(), 2);
    assert_eq!(params.get("flag"), Some(&text("")));
    assert_eq!(params.get("k"), Some(&text("v")));
}

#[test]
fn duplicate_query_key_last_wins() {
    let (_, params) = parse_url("/p?a=1&a=2&b=3&a=4");
    assert_eq!(params.len(), 2);
    assert_eq!(params.get("a"), Some(&text("4")));
    assert_eq!(params.get("b"), Some(&text("3")));
}

#[test]
fn query_value_keeps_later_equals_signs() {
    let (_, params) = parse_url("/p?a=b=c&&x=");
    assert_eq!(params.len(), 2);
    assert_eq!(params.get("a"), Some(&text("b=c")));
    assert_eq!(params.get("x"), Some(&text("")));
}

#[test]
fn url_without_query() {
    let (route, params) = parse_url("/plain/path");
    assert_eq!(route, "/plain/path");
    assert!(params.is_empty());
    assert_eq!(params.get("plain"), None);
}

#[test]
fn header_value_with_colon_space() {
    let req = Request::new(b"GET / HTTP/1.1\r\nX-Note: a: b: c\r\n\r\n").unwrap();
    assert_eq!(req.headers.get("X-Note"), Some(&text("a: b: c")));
}

#[test]
fn malformed_header_lines_are_dropped() {
    let req =
        Request::new(b"GET / HTTP/1.1\r\nNoSeparator\r\nName:\r\nTight:x\r\nEmpty: \r\n\r\n")
            .unwrap();
    assert_eq!(req.headers.len(), 1);
    assert_eq!(req.headers.get("Empty"), Some(&text("")));
    assert_eq!(req.headers.get("NoSeparator"), None);
}

#[test]
fn duplicate_header_last_wins() {
    let req = Request::new(b"GET / HTTP/1.1\r\nA: 1\r\nA: 2\r\n\r\n").unwrap();
    assert_eq!(req.headers.len(), 1);
    assert_eq!(req.headers.get("A"), Some(&text("2")));
}

#[test]
fn header_names_are_case_sensitive() {
    let req = Request::new(b"POST / HTTP/1.1\r\ncontent-length: 3\r\n\r\nabc").unwrap();
    assert!(req.body.is_empty());
    assert_eq!(req.headers.get("content-length"), Some(&text("3")));
    assert_eq!(req.headers.get("Content-Length"), None);
}

#[test]
fn unparseable_content_length_means_no_body() {
    let req = Request::new(b"POST / HTTP/1.1\r\nContent-Length: abc\r\n\r\nxyz").unwrap();
    assert!(req.body.is_empty());
    let req = Request::new(b"POST / HTTP/1.1\r\nContent-Length: -1\r\n\r\nxyz").unwrap();
    assert!(req.body.is_empty());
    let req = Request::new(
        b"POST / HTTP/1.1\r\nContent-Length: 99999999999999999999999\r\n\r\nxyz",
    )
    .unwrap();
    assert!(req.body.is_empty());
}

#[test]
fn content_length_with_plus_sign() {
    let req = Request::new(b"POST / HTTP/1.1\r\nContent-Length: +2\r\n\r\nxyz").unwrap();
    assert_eq!(&req.body[..], &b"xy"[..]);
}

#[test]
fn bytes_after_body_are_ignored() {
    let req = Request::new(b"POST / HTTP/1.1\r\nContent-Length: 3\r\n\r\nabcdef").unwrap();
    assert_eq!(&req.body[..], &b"abc"[..]);
}

#[test]
fn bare_newlines_are_accepted() {
    let req = Request::new(b"GET /a?b=c HTTP/1.1\nHost: h\n\n").unwrap();
    assert_eq!(req.route, "/a");
    assert_eq!(req.headers.get("Host"), Some(&text("h")));
    assert_eq!(req.query_params.get("b"), Some(&text("c")));
}

#[test]
fn request_line_tokens_split_on_any_whitespace() {
    let req = Request::new(b"  POST\t /t   HTTP/1.1\r\n\r\n").unwrap();
    assert_eq!(req.method, HttpMethod::POST);
    assert_eq!(req.route, "/t");
    let req = Request::new(b"GET /only\r\n\r\n").unwrap();
    assert_eq!(req.route, "/only");
}

#[test]
fn missing_tokens_are_malformed() {
    assert_eq!(
        Request::new(b"\r\n\r\n").err(),
        Some(ParseError::MalformedRequestLine)
    );
    assert_eq!(
        Request::new(b"   \r\n\r\n").err(),
        Some(ParseError::MalformedRequestLine)
    );
    assert_eq!(
        Request::new(b"GET\r\n\r\n").err(),
        Some(ParseError::MalformedRequestLine)
    );
    assert_eq!(
        Request::new(b"get / HTTP/1.1\r\n\r\n").err(),
        Some(ParseError::UnsupportedMethod)
    );
}

#[test]
fn early_end_of_input() {
    assert_eq!(Request::new(b"").err(), Some(ParseError::EarlyEof));
    assert_eq!(
        Request::new(b"GET / HTTP/1.1\r\nHost: x\r\n").err(),
        Some(ParseError::EarlyEof)
    );
    assert_eq!(
        Request::new(b"GET / HTTP/1.1").err(),
        Some(ParseError::EarlyEof)
    );
}

#[test]
fn overlong_line_is_rejected() {
    let mut input = b"GET /".to_vec();
    input.extend(std::iter::repeat(b'a').take(9000));
    assert_eq!(
        Request::new(&input).err(),
        Some(ParseError::HeaderTooLarge)
    );
    input.extend_from_slice(b" HTTP/1.1\r\n\r\n");
    assert_eq!(
        Request::new(&input).err(),
        Some(ParseError::HeaderTooLarge)
    );
}

#[test]
fn invalid_utf8_is_rejected() {
    assert_eq!(
        Request::new(b"GET / HTTP/1.1\r\nX: \xff\xfe\r\n\r\n").err(),
        Some(ParseError::NotUtf8)
    );
    assert_eq!(
        Request::new(b"GET /\xc3 HTTP/1.1\r\n\r\n").err(),
        Some(ParseError::NotUtf8)
    );
}

#[test]
fn non_ascii_text_is_kept() {
    let req = Request::new("GET /caf\u{e9}?n=\u{fc}ber HTTP/1.1\r\nX-\u{e9}: \u{2713}\r\n\r\n".as_bytes())
        .unwrap();
    assert_eq!(req.route, "/caf\u{e9}");
    assert_eq!(req.query_params.get("n"), Some(&text("\u{fc}ber")));
    assert_eq!(req.headers.get("X-\u{e9}"), Some(&text("\u{2713}")));
}

#[test]
fn read_line_strips_one_crlf() {
    let (line, next) = read_line(b"abc\r\n", 0).unwrap();
    assert_eq!(line, "abc");
    assert_eq!(next, 5);
    let (line, next) = read_line(b"a\r\r\nrest", 0).unwrap();
    assert_eq!(line, "a\r");
    assert_eq!(next, 4);
    let (line, next) = read_line(b"x\r\n\r\n", 3).unwrap();
    assert_eq!(line, "");
    assert_eq!(next, 5);
    let (line, _) = read_line(b"no cr\n", 0).unwrap();
    assert_eq!(line, "no cr");
}

#[test]
fn read_line_errors() {
    assert_eq!(read_line(b"abc", 0).err(), Some(ParseError::EarlyEof));
    assert_eq!(read_line(b"\xff\r\n", 0).err(), Some(ParseError::NotUtf8));
    let long = vec![b'a'; 9000];
    assert_eq!(read_line(&long, 0).err(), Some(ParseError::HeaderTooLarge));
    let mut at_limit = vec![b'a'; 8192];
    at_limit.push(b'\n');
    assert_eq!(read_line(&at_limit, 0).unwrap().0.len(), 8192);
    let mut over_limit = vec![b'a'; 8193];
    over_limit.push(b'\n');
    assert_eq!(
        read_line(&over_limit, 0).err(),
        Some(ParseError::HeaderTooLarge)
    );
}

#[test]
fn body_length_matches_content_length() {
    for n in [0usize, 1, 5, 17] {
        let mut input = format!("POST /b HTTP/1.1\r\nContent-Length: {}\r\n\r\n", n).into_bytes();
        input.extend(std::iter::repeat(b'z').take(n + 2));
        let req = Request::new(&input).unwrap();
        assert_eq!(req.body.len(), n);
    }
}

#[test]
fn route_reassembles_to_path() {
    for target in ["/search?q=hello&lang=en&flag", "/plain", "/x?", "/a/b?c"] {
        let (route, params) = parse_url(target);
        let mut rebuilt = route.clone();
        if params.len() > 0 {
            rebuilt.push('?');
            for i in 0..params.len() {
                let (k, v) = params.entry(i);
                if i > 0 {
                    rebuilt.push('&');
                }
                rebuilt.push_str(&format!("{}={}", k, v));
            }
        }
        let path = target.split('?').next().unwrap();
        assert_eq!(rebuilt.split('?').next().unwrap(), path);
        assert_eq!(route, path);
    }
}
