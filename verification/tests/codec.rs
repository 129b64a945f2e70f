use requester::storage::HttpRequest;

fn request(method: &str, url: &str, headers: &[(&str, &str)], body: &str) -> HttpRequest {
    HttpRequest {
        method: method.to_string(),
        url: url.to_string(),
        headers: headers.iter().map(|(k, v)| (k.to_string(), v.to_string())).collect(),
        body: body.to_string(),
    }
}

fn same(a: &HttpRequest, b: &HttpRequest) -> bool {
    a.method == b.method && a.url == b.url && a.headers == b.headers && a.body == b.body
}

#[test]
fn new_request_is_a_get_without_headers_or_body() {
    let r = HttpRequest::new();
    assert_eq!(r.method, "GET");
    assert_eq!(r.url, "https://httpbin.org/get");
    assert!(r.headers.is_empty());
    assert_eq!(r.body, "");
}

#[test]
fn encodes_first_line_headers_blank_line_and_body() {
    let r = request("POST", "https://x.com/a", &[("X", "1"), ("Y", "2")], "Hello");
    assert_eq!(r.to_http_string(), "POST https://x.com/a\nX: 1\nY: 2\n\nHello");
}

#[test]
fn encodes_a_request_without_headers_or_body() {
    let r = request("GET", "https://x.com", &[], "");
    assert_eq!(r.to_http_string(), "GET https://x.com\n\n");
}

#[test]
fn encodes_names_and_values_verbatim() {
    let r = request("get", "u", &[(" a:b ", "  v  ")], "line\n");
    assert_eq!(r.to_http_string(), "get u\n a:b :   v  \n\nline\n");
}

#[test]
fn decodes_method_url_headers_and_body() {
    let r = HttpRequest::from_http_string("GET https://x.com/a\nX: 1\nY: 2\n\nHello").unwrap();
    assert_eq!(r.method, "GET");
    assert_eq!(r.url, "https://x.com/a");
    assert_eq!(
        r.headers,
        vec![("X".to_string(), "1".to_string()), ("Y".to_string(), "2".to_string())]
    );
    assert_eq!(r.body, "Hello");
}

#[test]
fn decoding_nothing_fails() {
    let e = HttpRequest::from_http_string("").unwrap_err();
    assert_eq!(e, "Empty file");
}

#[test]
fn decoding_a_first_line_of_one_word_fails() {
    let e = HttpRequest::from_http_string("GET\n\n").unwrap_err();
    assert_eq!(e, "Invalid first line: search for 'METHOD URL'");
}

#[test]
fn decoding_a_blank_first_line_fails() {
    let e = HttpRequest::from_http_string("\nGET https://x.com\n").unwrap_err();
    assert_eq!(e, "Invalid first line: search for 'METHOD URL'");
    let e = HttpRequest::from_http_string("   \t ").unwrap_err();
    assert_eq!(e, "Invalid first line: search for 'METHOD URL'");
}

#[test]
fn a_header_line_without_a_colon_is_dropped() {
    let r = HttpRequest::from_http_string("GET https://x.com\nmalformed-line\nX: 1\n\nB").unwrap();
    assert_eq!(r.headers, vec![("X".to_string(), "1".to_string())]);
    assert_eq!(r.body, "B");
}

#[test]
fn the_method_is_put_in_upper_case() {
    let r = HttpRequest::from_http_string("get https://x.com\n").unwrap();
    assert_eq!(r.method, "GET");
    let r = HttpRequest::from_http_string("stra\u{df}e https://x.com\n").unwrap();
    assert_eq!(r.method, "STRASSE");
}

#[test]
fn the_url_is_the_other_words_with_single_spaces() {
    let r = HttpRequest::from_http_string("  GET \t https://x.com/a   b\u{a0}c  \n").unwrap();
    assert_eq!(r.method, "GET");
    assert_eq!(r.url, "https://x.com/a b c");
}

#[test]
fn a_header_is_split_at_its_first_colon_and_trimmed() {
    let r = HttpRequest::from_http_string("GET u\n  Host :  a:b:c \t\n:\nK:\n\n").unwrap();
    assert_eq!(
        r.headers,
        vec![
            ("Host".to_string(), "a:b:c".to_string()),
            ("".to_string(), "".to_string()),
            ("K".to_string(), "".to_string()),
        ]
    );
}

#[test]
fn headers_end_at_the_first_blank_line() {
    let r = HttpRequest::from_http_string("GET u\nA: 1\n \t \nB: 2\n\nC: 3").unwrap();
    assert_eq!(r.headers, vec![("A".to_string(), "1".to_string())]);
    assert_eq!(r.body, "B: 2\n\nC: 3");
}

#[test]
fn the_body_loses_one_line_feed_at_its_end() {
    let r = HttpRequest::from_http_string("GET u\n\nHello\n").unwrap();
    assert_eq!(r.body, "Hello");
    let r = HttpRequest::from_http_string("GET u\n\nHello\n\n\n").unwrap();
    assert_eq!(r.body, "Hello\n\n");
    let r = HttpRequest::from_http_string("GET u\n\nHello  ").unwrap();
    assert_eq!(r.body, "Hello  ");
}

#[test]
fn a_text_without_a_blank_line_has_no_body() {
    let r = HttpRequest::from_http_string("GET u\nA: 1").unwrap();
    assert_eq!(r.headers, vec![("A".to_string(), "1".to_string())]);
    assert_eq!(r.body, "");
}

#[test]
fn carriage_returns_before_line_feeds_are_dropped() {
    let r = HttpRequest::from_http_string("GET u\r\nA: 1\r\n\r\nx\r\ny\r").unwrap();
    assert_eq!(r.method, "GET");
    assert_eq!(r.url, "u");
    assert_eq!(r.headers, vec![("A".to_string(), "1".to_string())]);
    assert_eq!(r.body, "x\ny\r");
}

#[test]
fn a_canonical_request_comes_back_from_its_text() {
    let cases = vec![
        request("GET", "https://x.com/a", &[("X", "1"), ("Y", "2")], "Hello"),
        request("POST", "https://x.com/a b c", &[("A", ""), ("", "v"), ("A", "x: y")], "a\n\nb"),
        request("M-SEARCH", "*", &[], ""),
        request("PUT", "u", &[("K", "v\rw")], "  spaced \r\t"),
        request("DELETE", "u", &[("Content-Type", "text/plain; charset=utf-8")], "{\n  \"a\": 1\n}"),
    ];
    for r in cases {
        let back = HttpRequest::from_http_string(&r.to_http_string()).unwrap();
        assert!(same(&back, &r), "{:?} came back as {:?}", r, back);
    }
}

#[test]
fn a_request_in_lower_case_comes_back_in_upper_case() {
    let r = request("patch", "u", &[("a", "b")], "c");
    let back = HttpRequest::from_http_string(&r.to_http_string()).unwrap();
    assert!(same(&back, &request("PATCH", "u", &[("a", "b")], "c")));
}

#[test]
fn a_request_that_is_not_canonical_does_not_come_back() {
    let r = request("GET", "a  b", &[], "");
    let back = HttpRequest::from_http_string(&r.to_http_string()).unwrap();
    assert_eq!(back.url, "a b");
    let r = request("GET", "u", &[("a:b", "c")], "");
    let back = HttpRequest::from_http_string(&r.to_http_string()).unwrap();
    assert_eq!(back.headers, vec![("a".to_string(), "b: c".to_string())]);
    let r = request("GET", "u", &[], "body\n");
    let back = HttpRequest::from_http_string(&r.to_http_string()).unwrap();
    assert_eq!(back.body, "body");
    let r = request("GET", "u", &[], "a\r\nb");
    let back = HttpRequest::from_http_string(&r.to_http_string()).unwrap();
    assert_eq!(back.body, "a\nb");
}

#[test]
fn a_copy_of_a_request_equals_the_request() {
    let r = request("POST", "https://x.com/a", &[("X", "1"), ("Y", "2")], "Hello");
    assert!(same(&r.clone(), &r));
    assert_eq!(requester::storage::copy_headers(&r.headers), r.headers);
}
