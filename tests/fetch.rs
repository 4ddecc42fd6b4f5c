use emote_catalog::fetch::{extract_body, request_text, FetchError, GenericError};

#[test]
fn request_has_crlf_lines_and_blank_terminator() {
    let r = request_text("unicode.org", "/Public/emoji/13.0/emoji-test.txt");
    assert_eq!(
        r,
        "GET /Public/emoji/13.0/emoji-test.txt HTTP/1.1\r\nHost: unicode.org\r\n\r\n"
    );
}

#[test]
fn body_follows_first_blank_line() {
    let resp = "HTTP/1.1 200 OK\r\nContent-Type: text/plain\r\n\r\n# group: G\r\n\r\nmore";
    match extract_body(resp) {
        Ok(b) => assert_eq!(b, "# group: G\r\n\r\nmore"),
        Err(e) => panic!("unexpected error {:?}", e),
    }
}

#[test]
fn empty_body_is_ok() {
    match extract_body("HTTP/1.1 200 OK\r\n\r\n") {
        Ok(b) => assert_eq!(b, ""),
        Err(e) => panic!("unexpected error {:?}", e),
    }
}

#[test]
fn scenario_missing_status_is_unexpected() {
    let resp = "HTTP/1.1 404 Not Found\r\nContent-Length: 0\r\n\r\n";
    assert!(matches!(extract_body(resp), Err(FetchError::UnexpectedStatus)));
    assert!(matches!(extract_body(""), Err(FetchError::UnexpectedStatus)));
}

#[test]
fn status_check_is_a_substring_search() {
    let resp = "HTTP/1.1 500 Internal Server Error\r\n\r\nbody says 200 OK";
    match extract_body(resp) {
        Ok(b) => assert_eq!(b, "body says 200 OK"),
        Err(e) => panic!("unexpected error {:?}", e),
    }
}

#[test]
fn scenario_missing_separator_is_malformed() {
    let resp = "HTTP/1.1 200 OK\r\nContent-Length: 3\r\nabc";
    assert!(matches!(extract_body(resp), Err(FetchError::MalformedResponse)));
}

#[test]
fn missing_status_wins_over_missing_separator() {
    assert!(matches!(extract_body("HTTP/1.1 404 Not Found"), Err(FetchError::UnexpectedStatus)));
}

#[test]
fn generic_error_keeps_its_message() {
    let e = GenericError::new("Response missing body".to_string());
    assert_eq!(e.message(), "Response missing body");
}
