use http_rs::server::Response;

fn text(s: &str) -> String {
    s.to_string()
}

#[test]
fn simple_get_response() {
    let r = Response::new(200).json(Ok(text("[{\"id\":1,\"name\":\"Alice\"}]")));
    let out = r.serialize();
    assert!(out.starts_with("HTTP/1.1 200 OK\r\n"));
    assert!(out.contains("Content-Type: application/json\r\n"));
    assert!(out.contains("Content-Length: 25\r\n"));
    assert!(out.ends_with("\r\n\r\n[{\"id\":1,\"name\":\"Alice\"}]"));
    assert_eq!(
        out,
        "HTTP/1.1 200 OK\r\nContent-Type: application/json\r\nContent-Length: 25\r\n\r\n[{\"id\":1,\"name\":\"Alice\"}]"
    );
}

#[test]
fn unknown_status_code() {
    let r = Response::new(418).json(serde_json::to_string(&"teapot"));
    let out = r.serialize();
    assert!(out.starts_with("HTTP/1.1 418 Unknown\r\n"));
    assert_eq!(r.body(), "\"teapot\"");
    assert_eq!(r.headers().get("Content-Length"), Some(&text("8")));
}

#[test]
fn reason_phrases() {
    let cases = [
        (200u16, "HTTP/1.1 200 OK\r\n"),
        (201, "HTTP/1.1 201 Created\r\n"),
        (400, "HTTP/1.1 400 Bad Request\r\n"),
        (404, "HTTP/1.1 404 Not Found\r\n"),
        (500, "HTTP/1.1 500 Internal Server Error\r\n"),
        (0, "HTTP/1.1 0 Unknown\r\n"),
        (65535, "HTTP/1.1 65535 Unknown\r\n"),
    ];
    for (status, line) in cases {
        assert!(Response::new(status).serialize().starts_with(line));
    }
}

#[test]
fn new_response_defaults() {
    let r = Response::new(404);
    assert_eq!(r.status(), 404);
    assert_eq!(r.body(), "");
    assert_eq!(r.headers().len(), 1);
    assert_eq!(
        r.headers().get("Content-Type"),
        Some(&text("application/json"))
    );
    assert_eq!(
        r.serialize(),
        "HTTP/1.1 404 Not Found\r\nContent-Type: application/json\r\n\r\n"
    );
}

#[test]
fn failed_encoding_gives_empty_body() {
    let err = serde_json::from_str::<serde_json::Value>("{").unwrap_err();
    let r = Response::new(500).json(Err(err));
    assert_eq!(r.body(), "");
    assert_eq!(
        r.serialize(),
        "HTTP/1.1 500 Internal Server Error\r\nContent-Type: application/json\r\nContent-Length: 0\r\n\r\n"
    );
}

#[test]
fn content_length_counts_bytes() {
    let r = Response::new(200).json(serde_json::to_string(&"\u{e9}\u{2713}"));
    assert_eq!(r.body(), "\"\u{e9}\u{2713}\"");
    assert_eq!(r.headers().get("Content-Length"), Some(&text("7")));
}

#[test]
fn json_twice_replaces_body_and_length() {
    let r = Response::new(201)
        .json(Ok(text("1234567890")))
        .json(Ok(text("[]")));
    assert_eq!(r.headers().len(), 2);
    assert_eq!(
        r.serialize(),
        "HTTP/1.1 201 Created\r\nContent-Type: application/json\r\nContent-Length: 2\r\n\r\n[]"
    );
}

#[test]
fn single_header_separator() {
    let out = Response::new(200)
        .json(serde_json::to_string(&vec![1, 2, 3]))
        .serialize();
    assert_eq!(out.matches("\r\n\r\n").count(), 1);
    let at = out.find("\r\n\r\n").unwrap();
    assert_eq!(&out[at + 4..], "[1,2,3]");
}
