use fleet_conductor::http::{self, MalformedRequestLine, RequestHead};

fn head(line: &str) -> RequestHead {
    match RequestHead::start(line) {
        Ok(head) => head,
        Err(_) => panic!("malformed"),
    }
}

#[test]
fn request_line_names_method_and_path() {
    let h = head("GET /health HTTP/1.1\r\n");
    assert_eq!(h.method, "GET");
    assert_eq!(h.path, "/health");
    assert_eq!(h.content_length, 0);
    let h = head("  POST \t /drain/1");
    assert_eq!(h.method, "POST");
    assert_eq!(h.path, "/drain/1");
}

#[test]
fn short_request_lines_are_malformed() {
    for line in ["", "\r\n", "GET", "GET\r\n", "   "] {
        assert_eq!(RequestHead::start(line).err(), Some(MalformedRequestLine));
    }
}

#[test]
fn content_length_is_read_in_any_case() {
    for line in [
        "Content-Length: 12\r\n",
        "content-length:12",
        "  CONTENT-LENGTH:   +12  \r\n",
    ] {
        let mut h = head("POST /reconcile HTTP/1.1\r\n");
        assert!(h.header("Host: localhost\r\n"));
        assert_eq!(h.content_length, 0);
        assert!(h.header(line));
        assert_eq!(h.content_length, 12);
        assert!(h.header("Connection: close\r\n"));
        assert_eq!(h.content_length, 12);
        assert!(!h.header("\r\n"));
        assert_eq!(h.content_length, 12);
    }
}

#[test]
fn last_content_length_decides_and_nonsense_counts_as_zero() {
    let mut h = head("POST / HTTP/1.1");
    h.header("Content-Length: 5");
    h.header("Content-Length: 6");
    assert_eq!(h.content_length, 6);
    h.header("Content-Length: many");
    assert_eq!(h.content_length, 0);
    h.header("Content-Length: 7");
    h.header("Content-Length: -7");
    assert_eq!(h.content_length, 0);
    h.header("Content-Length : 8");
    assert_eq!(h.content_length, 0);
    h.header("Content-Length: 18446744073709551616");
    assert_eq!(h.content_length, 0);
}

#[test]
fn blank_line_or_end_of_input_ends_the_head() {
    let mut h = head("GET / HTTP/1.1");
    assert!(!h.header(""));
    assert!(!h.header("\n"));
    assert!(!h.header(" \t\r\n"));
    assert!(h.header("x"));
}

#[test]
fn finished_request_keeps_its_parts() {
    let r = head("POST /reconcile HTTP/1.1").finish("{}".to_string());
    assert_eq!(r.method, "POST");
    assert_eq!(r.path, "/reconcile");
    assert_eq!(r.body, "{}");
}

#[test]
fn response_text_is_exact() {
    assert_eq!(
        http::format_response(200, "{\"status\":\"ok\"}"),
        "HTTP/1.1 200 OK\r\nContent-Type: application/json\r\nContent-Length: 15\r\n\
         Connection: close\r\n\r\n{\"status\":\"ok\"}"
    );
    // The length counts bytes, not characters.
    assert!(http::format_response(200, "\u{e9}").contains("Content-Length: 2\r\n"));
}

#[test]
fn status_codes_have_reason_phrases() {
    for (status, phrase) in [
        (200, "200 OK"),
        (400, "400 Bad Request"),
        (404, "404 Not Found"),
        (405, "405 Method Not Allowed"),
        (500, "500 Internal Server Error"),
        (302, "302 OK"),
    ] {
        let start = format!("HTTP/1.1 {phrase}\r\n");
        assert!(http::format_response(status, "").starts_with(&start));
    }
}

#[test]
fn what_a_client_writes_is_read_back() {
    for (method, path) in [("GET", "/agent/7"), ("POST", "/x?y=\u{e9}"), ("a", "b")] {
        let h = head(&format!("{method} {path} HTTP/1.1\r\n"));
        assert_eq!((h.method.as_str(), h.path.as_str()), (method, path));
    }
    for n in [0, 1, 15, 4096, usize::MAX] {
        let mut h = head("POST / HTTP/1.1\r\n");
        assert!(h.header(&format!("Content-Length: {n}\r\n")));
        assert_eq!(h.content_length, n);
    }
}

#[test]
fn whole_heads_are_read_back() {
    for name in ["Content-Length", "content-length", "CONTENT-LENGTH", "cOnTeNt-LeNgTh"] {
        let lines = [
            "Host: localhost\r\n".to_string(),
            "Content-Length: 99\r\n".to_string(),
            format!("{name}:  42 \r\n"),
            "Content-Lengthy: 7\r\n".to_string(),
            "\r\n".to_string(),
            "Content-Length: 5\r\n".to_string(),
        ];
        let mut h = head("POST /reconcile HTTP/1.1\r\n");
        let mut read = 0;
        for line in &lines {
            read += 1;
            if !h.header(line) {
                break;
            }
        }
        assert_eq!(read, 5);
        assert_eq!((h.method.as_str(), h.path.as_str()), ("POST", "/reconcile"));
        assert_eq!(h.content_length, 42);
    }
    let mut h = head("GET /health HTTP/1.1\r\n");
    assert!(h.header("Host: localhost\r\n"));
    assert!(!h.header("\r\n"));
    assert_eq!(h.content_length, 0);
}
