use vsb::http::{
    append_query, content_kind, header_value_debug_text, is_whitespace_char, ContentKind, HttpClientError,
    HttpRequestBuildingError, HttpResponse, JsonErrorReader, JsonReplyReader, RawResponseReader, ResponseReader,
};
use vsb::http::{status_class, unexpected_status_error, StatusClass};

fn response(status: u16, content_type: Option<&[u8]>, body: &str) -> HttpResponse {
    let mut headers = vec![("x-other".to_owned(), b"1".to_vec())];
    if let Some(t) = content_type {
        headers.push(("content-type".to_owned(), t.to_vec()));
    }
    HttpResponse { status, headers, body: body.as_bytes().to_vec() }
}

#[test]
fn headers_as_text() {
    let r = response(200, Some(b"application/json"), "");
    assert_eq!(r.get_header("content-type").unwrap(), Some("application/json".to_owned()));
    assert_eq!(r.get_header("x-missing").unwrap(), None);
    let r = response(200, Some(b"bad\x01value"), "");
    assert_eq!(r.get_header("content-type").unwrap_err(), "Got invalid \"content-type\" header value: \"bad\\x1value\"");
}

#[test]
fn header_values_show_like_their_debug_form() {
    assert_eq!(header_value_debug_text(b"plain text"), "\"plain text\"");
    assert_eq!(header_value_debug_text(b"q\"uote"), "\"q\\\"uote\"");
    assert_eq!(header_value_debug_text(&[0x7f, 0xff, b'\t']), "\"\\x7f\\xff\t\"");
}

#[test]
fn content_kinds() {
    assert_eq!(content_kind("application/json"), ContentKind::Json);
    assert_eq!(content_kind("Application/JSON; charset=utf-8"), ContentKind::Json);
    assert_eq!(content_kind("text/plain"), ContentKind::PlainText);
    assert_eq!(content_kind("text/html"), ContentKind::Other);
    assert_eq!(content_kind("not a mime type"), ContentKind::Other);
}

#[test]
fn json_replies() {
    let reader = JsonReplyReader::<()>::new();
    assert!(reader.check(&response(200, Some(b"application/json"), "{}")).is_ok());
    assert_eq!(reader.check(&response(404, None, "")).unwrap_err(), "Server returned 404 Not Found response without Content-Type");
    assert_eq!(
        reader.check(&response(200, Some(b"text/html"), "")).unwrap_err(),
        "Server returned 200 OK response with an invalid content type: text/html",
    );
}

#[test]
fn error_replies() {
    let reader = JsonErrorReader::<()>::new();
    assert!(reader.check(response(400, Some(b"application/json"), "{}")).is_ok());
    assert_eq!(
        reader.check(response(500, Some(b"text/plain"), "  Something broke...\nmore")).unwrap_err(),
        "Server returned an error: Something broke",
    );
    assert_eq!(
        reader.check(response(503, Some(b"text/plain"), "\n")).unwrap_err(),
        "Server returned an error: 503 Service Unavailable",
    );
    assert_eq!(
        reader.check(response(502, Some(b"text/html"), "")).unwrap_err(),
        "Server returned 502 Bad Gateway error with an invalid content type: text/html",
    );
    assert_eq!(reader.read_plain_text_error(response(401, None, "Bad token.\n")), "Bad token");
    assert_eq!(reader.read_plain_text_error(HttpResponse { status: 401, headers: vec![], body: vec![0xff] }), "401 Unauthorized");
}

#[test]
fn raw_replies_are_taken_as_they_are() {
    let r = RawResponseReader::new().read(response(204, None, "body")).unwrap();
    assert_eq!((r.status, r.body.as_slice()), (204, b"body".as_slice()));
}

#[test]
fn queries_are_appended() {
    assert_eq!(append_query("https://a/b", "x=1"), "https://a/b?x=1");
    assert_eq!(append_query("https://a/b?y=2", "x=1"), "https://a/b?y=2&x=1");
}

#[test]
fn errors() {
    assert_eq!(HttpRequestBuildingError::new("bad url").to_string(), "bad url");
    match HttpClientError::<u8>::generic_from("timeout") {
        HttpClientError::Generic(m) => assert_eq!(m, "timeout"),
        HttpClientError::Api(_) => panic!("not an API error"),
    }
    match HttpClientError::<u8>::from_building_error(HttpRequestBuildingError::new("bad url")) {
        HttpClientError::Generic(m) => assert_eq!(m, "bad url"),
        HttpClientError::Api(_) => panic!("not an API error"),
    }
}

#[test]
fn whitespace_is_unicode_whitespace() {
    for c in [' ', '\t', '\n', '\u{a0}', '\u{3000}', 'a', '.', '\u{200b}'] {
        assert_eq!(is_whitespace_char(c), c.is_whitespace(), "{:?}", c);
    }
}

#[test]
fn replies_by_status() {
    assert_eq!(status_class(200), StatusClass::Success);
    assert_eq!(status_class(204), StatusClass::Success);
    assert_eq!(status_class(404), StatusClass::Failure);
    assert_eq!(status_class(503), StatusClass::Failure);
    assert_eq!(status_class(302), StatusClass::Unexpected);
    assert_eq!(status_class(101), StatusClass::Unexpected);
    assert_eq!(unexpected_status_error(302), "Server returned an error: 302 Found");
}

#[test]
fn content_types_that_are_not_text_are_refused() {
    let message = "Got invalid \"content-type\" header value: \"\\x1\"";
    let reply = response(200, Some(&[1u8][..]), "{}");
    assert_eq!(JsonReplyReader::<()>::new().check(&reply).err().unwrap(), message);
    let reply = response(400, Some(&[1u8][..]), "{}");
    assert_eq!(JsonErrorReader::<()>::new().check(reply).err().unwrap(), message);
}
