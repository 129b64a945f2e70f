use requester::client::{conclude, normalize_response, prepare_request, HttpResponse, RawResponse};
use requester::storage::HttpRequest;

fn request(method: &str, headers: &[(&str, &str)]) -> HttpRequest {
    HttpRequest {
        method: method.to_string(),
        url: "https://x.com/a".to_string(),
        headers: headers.iter().map(|(k, v)| (k.to_string(), v.to_string())).collect(),
        body: "payload".to_string(),
    }
}

fn pairs(headers: &[(&str, &str)]) -> Vec<(String, String)> {
    headers.iter().map(|(k, v)| (k.to_string(), v.to_string())).collect()
}

#[test]
fn a_request_that_can_be_sent_is_handed_on_as_it_is() {
    let r = request("POST", &[("Content-Type", "text/plain"), ("X-A", "1"), ("X-A", "2")]);
    let sent = prepare_request(&r).unwrap();
    assert_eq!(sent.method, "POST");
    assert_eq!(sent.url, "https://x.com/a");
    assert_eq!(sent.headers, pairs(&[("Content-Type", "text/plain"), ("X-A", "1"), ("X-A", "2")]));
    assert_eq!(sent.body, "payload");
}

#[test]
fn a_method_that_is_no_token_is_reported() {
    for m in ["", "GE T", "G\u{e9}T", "GET\n", "a(b)", "x:y", "\"GET\""] {
        let e = prepare_request(&request(m, &[])).unwrap_err();
        assert_eq!(e, "Invalid method: invalid HTTP method", "{:?}", m);
    }
}

#[test]
fn any_token_is_a_method() {
    for m in ["GET", "get", "M-SEARCH", "!#$%&'*+-.^_`|~09azAZ", "AVERYLONGMETHODNAMEBEYONDTHEINLINELIMIT"] {
        assert!(prepare_request(&request(m, &[])).is_ok(), "{:?}", m);
    }
}

#[test]
fn headers_that_cannot_be_sent_are_dropped() {
    let r = request(
        "GET",
        &[
            ("Good", "v"),
            ("", "empty name"),
            ("bad name", "v"),
            ("Bad:Name", "v"),
            ("N\u{e9}", "v"),
            ("Ok", "line\nfeed"),
            ("Ok", "del\u{7f}"),
            ("Ok", "nul\u{0}"),
            ("Tab", "a\tb"),
            ("Utf8", "caf\u{e9}"),
            ("Empty-Value", ""),
            ("Spaces", "  a  "),
        ],
    );
    let sent = prepare_request(&r).unwrap();
    assert_eq!(
        sent.headers,
        pairs(&[("Good", "v"), ("Tab", "a\tb"), ("Utf8", "caf\u{e9}"), ("Empty-Value", ""), ("Spaces", "  a  ")])
    );
}

#[test]
fn a_header_name_may_have_65535_characters_and_no_more() {
    let fits = "a".repeat(65535);
    let too_long = "a".repeat(65536);
    let r = request("GET", &[(fits.as_str(), "v"), (too_long.as_str(), "v")]);
    let sent = prepare_request(&r).unwrap();
    assert_eq!(sent.headers.len(), 1);
    assert_eq!(sent.headers[0].0.len(), 65535);
}

#[test]
fn every_character_is_judged_as_the_transport_judges_it() {
    let mut c: u32 = 0;
    while c < 0x400 {
        if let Some(ch) = char::from_u32(c) {
            let s = ch.to_string();
            let sent = prepare_request(&request(&s, &[(s.as_str(), "v"), ("n", s.as_str())]));
            let method_ok = s.parse::<reqwest::Method>().is_ok();
            assert_eq!(sent.is_ok(), method_ok, "method U+{:04X}", c);
            let name_ok = s.parse::<reqwest::header::HeaderName>().is_ok();
            let value_ok = reqwest::header::HeaderValue::from_str(&s).is_ok();
            if let Ok(sent) = prepare_request(&request("GET", &[(s.as_str(), "v"), ("n", s.as_str())])) {
                let mut want = Vec::new();
                if name_ok {
                    want.push((s.clone(), "v".to_string()));
                }
                if value_ok {
                    want.push(("n".to_string(), s.clone()));
                }
                assert_eq!(sent.headers, want, "header U+{:04X}", c);
            } else {
                panic!("GET is a method");
            }
        }
        c += 1;
    }
}

#[test]
fn an_answer_is_shown_with_its_parts() {
    let raw = RawResponse {
        status: 404,
        status_text: "404 Not Found".to_string(),
        headers: vec![
            ("content-type".to_string(), Some("text/html".to_string())),
            ("x-bin".to_string(), None),
            ("content-type".to_string(), Some("again".to_string())),
        ],
        body: Some("<html/>".to_string()),
    };
    let shown: HttpResponse = normalize_response(raw);
    assert_eq!(shown.status, 404);
    assert_eq!(shown.status_text, "404 Not Found");
    assert_eq!(shown.headers, pairs(&[("content-type", "text/html"), ("x-bin", ""), ("content-type", "again")]));
    assert_eq!(shown.body, "<html/>");
}

#[test]
fn a_body_that_is_no_text_is_shown_as_empty() {
    let raw = RawResponse { status: 200, status_text: "200 OK".to_string(), headers: vec![], body: None };
    let shown = normalize_response(raw);
    assert_eq!(shown.body, "");
    assert!(shown.headers.is_empty());
}

#[test]
fn a_failure_of_the_transport_is_passed_on() {
    let e = conclude(Err("error sending request for url (http://unreachable.invalid/)".to_string())).unwrap_err();
    assert_eq!(e, "error sending request for url (http://unreachable.invalid/)");
    let raw = RawResponse { status: 204, status_text: "204 No Content".to_string(), headers: vec![], body: Some(String::new()) };
    let shown = conclude(Ok(raw)).unwrap();
    assert_eq!(shown.status, 204);
    assert_eq!(shown.status_text, "204 No Content");
}
