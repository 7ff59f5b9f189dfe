//! What the HTTP client decides on its own: reading headers and error replies, checking
//! content types, building request URLs. The program sends the requests.

use vstd::prelude::*;

use crate::text::{debug_quoted, debug_str, lines_spec, push_char};

verus! {

/// The text of a status code as `reqwest::StatusCode` displays it (`"404 Not Found"`).
pub uninterp spec fn status_display(code: u16) -> Seq<char>;

/// `reqwest::StatusCode::from_u16` and its `Display`: the text of a status code.
#[verifier::external_body]
fn status_text(code: u16) -> (r: String)
    requires
        100 <= code <= 999,
    ensures
        r@ == status_display(code),
{
    reqwest::StatusCode::from_u16(code).unwrap().to_string()
}

/// The type and subtype that `mime::Mime::from_str` parses out of a content type (both
/// in lower case), or `None` if it does not parse.
pub uninterp spec fn mime_parts(content_type: Seq<char>) -> Option<(Seq<char>, Seq<char>)>;

/// `mime::Mime::from_str`, `type_` and `subtype`: the type and subtype of a content type.
#[verifier::external_body]
fn parse_mime(content_type: &str) -> (r: Option<(String, String)>)
    ensures
        match r {
            Some((t, s)) => mime_parts(content_type@) == Some((t@, s@)),
            None => mime_parts(content_type@) is None,
        },
{
    match content_type.parse::<mime::Mime>() {
        Ok(m) => Some((m.type_().as_str().to_string(), m.subtype().as_str().to_string())),
        Err(_) => None,
    }
}

/// A reply of a server.
pub struct HttpResponse {
    pub status: u16,
    /// The headers, by lower-case name, in the order received.
    pub headers: Vec<(String, Vec<u8>)>,
    pub body: Vec<u8>,
}

/// Whether a byte can stand in a header value read as text.
pub open spec fn is_visible_ascii(b: u8) -> bool {
    (32 <= b < 127) || b == 9
}

/// The lower-case hex digits of a byte, without leading zeros.
pub open spec fn hex_digits(b: u8) -> Seq<char> {
    if b < 16 {
        seq![crate::hash::hex_char(b as nat)]
    } else {
        seq![crate::hash::hex_char((b / 16) as nat), crate::hash::hex_char((b % 16) as nat)]
    }
}

/// How a header value shows in messages (`Debug for HeaderValue`): quoted, with quotes
/// escaped and other bytes that are not visible ASCII written as `\x..`.
pub open spec fn header_value_debug_body(bytes: Seq<u8>) -> Seq<char>
    decreases bytes.len(),
{
    if bytes.len() == 0 {
        seq![]
    } else {
        let b = bytes.last();
        header_value_debug_body(bytes.drop_last()) + if b == 34 {
            seq!['\\', '"']
        } else if is_visible_ascii(b) {
            seq![b as char]
        } else {
            seq!['\\', 'x'] + hex_digits(b)
        }
    }
}

/// How a header value shows in messages.
pub open spec fn header_value_debug(bytes: Seq<u8>) -> Seq<char> {
    seq!['"'] + header_value_debug_body(bytes) + seq!['"']
}

/// Whether a header value is text.
pub open spec fn is_text_value(bytes: Seq<u8>) -> bool {
    forall|i: int| 0 <= i < bytes.len() ==> is_visible_ascii(#[trigger] bytes[i])
}

/// The text of a header value made of visible ASCII.
pub open spec fn value_text(bytes: Seq<u8>) -> Seq<char> {
    bytes.map_values(|b: u8| b as char)
}

/// The value of the first header of a name.
pub open spec fn header_lookup(headers: Seq<(Seq<char>, Seq<u8>)>, name: Seq<char>) -> Option<Seq<u8>>
    decreases headers.len(),
{
    if headers.len() == 0 {
        None
    } else if headers[0].0 == name {
        Some(headers[0].1)
    } else {
        header_lookup(headers.drop_first(), name)
    }
}

/// The headers of a response as values.
pub open spec fn headers_view(headers: Seq<(String, Vec<u8>)>) -> Seq<(Seq<char>, Seq<u8>)> {
    headers.map_values(|h: (String, Vec<u8>)| (h.0@, h.1@))
}

/// The lower-case hex digit of a number below 16.
fn hex_digit_char(n: u8) -> (c: char)
    requires
        n < 16,
    ensures
        c == crate::hash::hex_char(n as nat),
{
    if n < 10 { (('0' as u8) + n) as char } else { (('a' as u8) + n - 10) as char }
}

/// How a header value shows in messages (see `header_value_debug`).
pub fn header_value_debug_text(bytes: &[u8]) -> (r: String)
    ensures
        r@ == header_value_debug(bytes@),
{
    let mut r = String::new();
    push_char(&mut r, '"');
    let mut i: usize = 0;
    while i < bytes.len()
        invariant
            i <= bytes@.len(),
            r@ == seq!['"'] + header_value_debug_body(bytes@.take(i as int)),
        decreases bytes@.len() - i,
    {
        let b = bytes[i];
        proof {
            assert(bytes@.take(i + 1).drop_last() =~= bytes@.take(i as int));
            assert(bytes@.take(i + 1).last() == b);
        }
        let ghost before = r@;
        if b == 34 {
            push_char(&mut r, '\\');
            push_char(&mut r, '"');
        } else if (32 <= b && b < 127) || b == 9 {
            push_char(&mut r, b as char);
        } else {
            push_char(&mut r, '\\');
            push_char(&mut r, 'x');
            if b < 16 {
                push_char(&mut r, hex_digit_char(b));
            } else {
                push_char(&mut r, hex_digit_char(b / 16));
                push_char(&mut r, hex_digit_char(b % 16));
            }
        }
        i += 1;
        assert(r@ =~= seq!['"'] + header_value_debug_body(bytes@.take(i as int)));
    }
    push_char(&mut r, '"');
    assert(bytes@.take(i as int) =~= bytes@);
    assert(r@ =~= header_value_debug(bytes@));
    r
}

/// The error about a header whose value is not text.
pub open spec fn invalid_header_message(name: Seq<char>, value: Seq<u8>) -> Seq<char> {
    "Got invalid "@ + debug_quoted(name) + " header value: "@ + header_value_debug(value)
}

impl HttpResponse {
    /// The value of a header (by lower-case name) as text, if the response has it; an error
    /// if it is not text.
    pub fn get_header(&self, name: &str) -> (r: Result<Option<String>, String>)
        ensures
            match header_lookup(headers_view(self.headers@), name@) {
                None => r == Ok::<Option<String>, String>(None),
                Some(v) => if is_text_value(v) {
                    r matches Ok(Some(s)) && s@ == value_text(v)
                } else {
                    r matches Err(e) && e@ == invalid_header_message(name@, v)
                },
            },
    {
        let ghost hv = headers_view(self.headers@);
        let mut i: usize = 0;
        assert(hv.skip(0) =~= hv);
        while i < self.headers.len()
            invariant
                i <= hv.len(),
                hv == headers_view(self.headers@),
                header_lookup(hv, name@) == header_lookup(hv.skip(i as int), name@),
            decreases hv.len() - i,
        {
            proof {
                assert(hv.skip(i as int)[0] == hv[i as int]);
                assert(hv.skip(i as int).drop_first() =~= hv.skip(i + 1));
                assert(hv[i as int].0 == self.headers@[i as int].0@);
            }
            if crate::text::str_eq(self.headers[i].0.as_str(), name) {
                let value = &self.headers[i].1;
                let mut text = String::new();
                let mut j: usize = 0;
                let mut ok = true;
                while j < value.len()
                    invariant
                        j <= value@.len(),
                        ok ==> text@ == value_text(value@.take(j as int)),
                        ok == is_text_value(value@.take(j as int)),
                    decreases value@.len() - j,
                {
                    let b = value[j];
                    if (32 <= b && b < 127) || b == 9 {
                        if ok {
                            push_char(&mut text, b as char);
                        }
                    } else {
                        ok = false;
                    }
                    proof {
                        assert(value@.take(j + 1).drop_last() =~= value@.take(j as int));
                        if ok {
                            assert(text@ =~= value_text(value@.take(j + 1)));
                        }
                        if !is_visible_ascii(b) {
                            assert(value@.take(j + 1)[j as int] == b);
                        }
                        assert(is_text_value(value@.take(j + 1)) == (is_text_value(value@.take(j as int)) && is_visible_ascii(b))) by {
                            if is_text_value(value@.take(j as int)) && is_visible_ascii(b) {
                                assert forall|k: int| 0 <= k < j + 1 implies is_visible_ascii(#[trigger] value@.take(j + 1)[k]) by {
                                    if k < j {
                                        assert(value@.take(j + 1)[k] == value@.take(j as int)[k]);
                                    }
                                }
                            }
                            if is_text_value(value@.take(j + 1)) {
                                assert(is_visible_ascii(value@.take(j + 1)[j as int]));
                                assert forall|k: int| 0 <= k < j implies is_visible_ascii(#[trigger] value@.take(j as int)[k]) by {
                                    assert(value@.take(j + 1)[k] == value@.take(j as int)[k]);
                                }
                            }
                        }
                    }
                    j += 1;
                }
                assert(value@.take(j as int) =~= value@);
                assert(hv[i as int].1 == value@);
                if ok {
                    return Ok(Some(text));
                }
                let mut m = String::from_str("Got invalid ");
                m.append(debug_str(name).as_str());
                m.append(" header value: ");
                m.append(header_value_debug_text(value.as_slice()).as_str());
                return Err(m);
            }
            i += 1;
        }
        Ok(None)
    }
}

/// A reply that holds nothing.
pub struct EmptyResponse {}

/// A request that holds nothing.
pub struct EmptyRequest {}

/// An error of a request that could not be built.
pub struct HttpRequestBuildingError(pub String);

impl HttpRequestBuildingError {
    /// An error with the given message.
    pub fn new(err: &str) -> (r: HttpRequestBuildingError)
        ensures
            r.0@ == err@,
    {
        HttpRequestBuildingError(String::from_str(err))
    }

    /// The message of the error.
    pub fn to_string(&self) -> (r: String)
        ensures
            r@ == self.0@,
    {
        String::from_str(self.0.as_str())
    }
}

/// An error of a request: of the transport or the program, or one that the API replied.
pub enum HttpClientError<T> {
    Generic(String),
    Api(T),
}

impl<T> HttpClientError<T> {
    /// An error of the transport or the program with the given message.
    pub fn generic_from(error: &str) -> (r: HttpClientError<T>)
        ensures
            r matches HttpClientError::Generic(m) && m@ == error@,
    {
        HttpClientError::Generic(String::from_str(error))
    }

    /// The error of a request that could not be built.
    pub fn from_building_error(err: HttpRequestBuildingError) -> (r: HttpClientError<T>)
        ensures
            r matches HttpClientError::Generic(m) && m@ == err.0@,
    {
        HttpClientError::Generic(err.0)
    }
}

/// A URL with query parameters (already encoded) appended.
pub open spec fn with_query(url: Seq<char>, query: Seq<char>) -> Seq<char> {
    url + (if url.contains('?') { "&"@ } else { "?"@ }) + query
}

/// Appends encoded query parameters to a URL (see `with_query`).
pub fn append_query(url: &str, query: &str) -> (r: String)
    ensures
        r@ == with_query(url@, query@),
{
    let chars = crate::text::chars_of(url);
    let at = crate::text::find_char(chars.as_slice(), 0, '?');
    assert(chars@.skip(0) =~= chars@);
    let mut r = String::from_str(url);
    proof {
        reveal_strlit("&");
        reveal_strlit("?");
        if url@.contains('?') {
            let k = choose|k: int| 0 <= k < url@.len() && url@[k] == '?';
            assert(at <= k);
        }
    }
    if at < chars.len() {
        r.append("&");
    } else {
        r.append("?");
    }
    r.append(query);
    r
}

/// How a reply with some content type is read: as JSON, as plain text, or not at all.
#[derive(Clone, Copy, Debug, PartialEq, Eq, Structural)]
pub enum ContentKind {
    Json,
    PlainText,
    Other,
}

/// What a content type is.
pub open spec fn content_kind_spec(content_type: Seq<char>) -> ContentKind {
    match mime_parts(content_type) {
        Some((t, s)) => if t == "application"@ && s == "json"@ {
            ContentKind::Json
        } else if t == "text"@ && s == "plain"@ {
            ContentKind::PlainText
        } else {
            ContentKind::Other
        },
        None => ContentKind::Other,
    }
}

/// What a content type is (see `content_kind_spec`).
pub fn content_kind(content_type: &str) -> (r: ContentKind)
    ensures
        r == content_kind_spec(content_type@),
{
    match parse_mime(content_type) {
        Some((t, s)) => if crate::text::str_eq(t.as_str(), "application") && crate::text::str_eq(s.as_str(), "json") {
            ContentKind::Json
        } else if crate::text::str_eq(t.as_str(), "text") && crate::text::str_eq(s.as_str(), "plain") {
            ContentKind::PlainText
        } else {
            ContentKind::Other
        },
        None => ContentKind::Other,
    }
}

/// Whether a character is white space (`char::is_whitespace`: the Unicode `White_Space`
/// characters).
pub open spec fn is_unicode_whitespace(c: char) -> bool {
    ||| ('\u{9}' <= c <= '\u{d}')
    ||| c == ' '
    ||| c == '\u{85}'
    ||| c == '\u{a0}'
    ||| c == '\u{1680}'
    ||| ('\u{2000}' <= c <= '\u{200a}')
    ||| c == '\u{2028}'
    ||| c == '\u{2029}'
    ||| c == '\u{202f}'
    ||| c == '\u{205f}'
    ||| c == '\u{3000}'
}

/// Whether a character is white space.
pub fn is_whitespace_char(c: char) -> (r: bool)
    ensures
        r == is_unicode_whitespace(c),
{
    ('\u{9}' <= c && c <= '\u{d}') || c == ' ' || c == '\u{85}' || c == '\u{a0}' || c == '\u{1680}'
        || ('\u{2000}' <= c && c <= '\u{200a}') || c == '\u{2028}' || c == '\u{2029}' || c == '\u{202f}'
        || c == '\u{205f}' || c == '\u{3000}'
}

/// `s` without the given character at its end.
pub open spec fn trim_end_char(s: Seq<char>, c: char) -> Seq<char>
    decreases s.len(),
{
    if s.len() > 0 && s.last() == c { trim_end_char(s.drop_last(), c) } else { s }
}

/// `s` without white space at its end.
pub open spec fn trim_end_ws(s: Seq<char>) -> Seq<char>
    decreases s.len(),
{
    if s.len() > 0 && is_unicode_whitespace(s.last()) { trim_end_ws(s.drop_last()) } else { s }
}

/// `s` without white space at its start.
pub open spec fn trim_start_ws(s: Seq<char>) -> Seq<char>
    decreases s.len(),
{
    if s.len() > 0 && is_unicode_whitespace(s[0]) { trim_start_ws(s.drop_first()) } else { s }
}

/// The first line of a text (empty if there is none).
pub open spec fn first_line(text: Seq<char>) -> Seq<char> {
    if lines_spec(text).len() > 0 { lines_spec(text)[0] } else { seq![] }
}

/// The error that a plain text reply tells: its first line without final dots and white
/// space around it, if that is not empty and the reply is UTF-8 text; else the status.
pub open spec fn plain_text_error_spec(status: u16, body: Seq<u8>) -> Seq<char> {
    if vstd::utf8::valid_utf8(body) {
        let e = trim_start_ws(trim_end_ws(trim_end_char(first_line(vstd::utf8::decode_utf8(body)), '.')));
        if e.len() > 0 { e } else { status_display(status) }
    } else {
        status_display(status)
    }
}

/// `s[from..to]` without the white space at both ends and the given character at the end
/// (see the spec functions above), as a string.
fn trim_error_line(line: &Vec<char>) -> (r: String)
    ensures
        r@ == trim_start_ws(trim_end_ws(trim_end_char(line@, '.'))),
{
    let mut end = line.len();
    assert(line@.take(end as int) =~= line@);
    while end > 0 && line[end - 1] == '.'
        invariant
            end <= line@.len(),
            trim_end_char(line@.take(end as int), '.') == trim_end_char(line@, '.'),
        decreases end,
    {
        assert(line@.take(end as int).drop_last() =~= line@.take(end - 1));
        end -= 1;
    }
    let ghost t1 = line@.take(end as int);
    assert(trim_end_char(t1, '.') == t1);
    while end > 0 && is_whitespace_char(line[end - 1])
        invariant
            end <= t1.len(),
            t1.len() <= line@.len(),
            trim_end_ws(line@.take(end as int)) == trim_end_ws(t1),
            t1 == trim_end_char(line@, '.'),
            t1 == line@.take(t1.len() as int),
        decreases end,
    {
        assert(line@.take(end as int).drop_last() =~= line@.take(end - 1));
        end -= 1;
    }
    let ghost t2 = line@.take(end as int);
    assert(trim_end_ws(t2) == t2);
    let mut start: usize = 0;
    assert(t2.skip(0) =~= t2);
    while start < end && is_whitespace_char(line[start])
        invariant
            start <= end,
            end <= line@.len(),
            end == t2.len(),
            t2 == line@.take(end as int),
            t2 == trim_end_ws(t1),
            t1 == trim_end_char(line@, '.'),
            trim_start_ws(t2.skip(start as int)) == trim_start_ws(t2),
        decreases end - start,
    {
        assert(t2.skip(start as int).drop_first() =~= t2.skip(start + 1));
        assert(t2.skip(start as int)[0] == line@[start as int]);
        start += 1;
    }
    proof {
        if start < end {
            assert(t2.skip(start as int)[0] == line@[start as int]);
        }
    }
    let part = crate::text::sub_vec(line.as_slice(), start, end);
    assert(part@ =~= t2.skip(start as int));
    crate::text::string_of(part.as_slice())
}

/// How replies are read.
pub trait ResponseReader {
    type Result;

    /// Reads a reply.
    fn read(&self, response: HttpResponse) -> Result<Self::Result, String>;
}

/// Reads replies as JSON of the given type.
pub struct JsonReplyReader<T> {
    phantom: core::marker::PhantomData<T>,
}

/// Reads error replies as JSON of the given type, or as plain text.
pub struct JsonErrorReader<T> {
    phantom: core::marker::PhantomData<T>,
}

/// Takes replies as they are.
pub struct RawResponseReader {}

/// The message of a reply without a content type.
pub open spec fn no_content_type_message(status: u16) -> Seq<char> {
    "Server returned "@ + status_display(status) + " response without Content-Type"@
}

/// The content type of a reply, or the error that its absence or a value that is not text
/// makes.
fn content_type_of(response: &HttpResponse) -> (r: Result<String, String>)
    requires
        100 <= response.status <= 999,
    ensures
        match header_lookup(headers_view(response.headers@), "content-type"@) {
            None => r matches Err(e) && e@ == no_content_type_message(response.status),
            Some(v) => if is_text_value(v) {
                r matches Ok(s) && s@ == value_text(v)
            } else {
                r matches Err(e) && e@ == invalid_header_message("content-type"@, v)
            },
        },
{
    match response.get_header("content-type") {
        Ok(Some(value)) => Ok(value),
        Ok(None) => {
            let mut m = String::from_str("Server returned ");
            m.append(status_text(response.status).as_str());
            m.append(" response without Content-Type");
            Err(m)
        },
        Err(e) => Err(e),
    }
}

impl<T> JsonReplyReader<T> {
    /// A reader of JSON replies.
    pub fn new() -> JsonReplyReader<T> {
        JsonReplyReader { phantom: core::marker::PhantomData }
    }

    /// Checks that a reply is JSON (it is then parsed as such); else the error to return.
    pub fn check(&self, response: &HttpResponse) -> (r: Result<(), String>)
        requires
            100 <= response.status <= 999,
        ensures
            match header_lookup(headers_view(response.headers@), "content-type"@) {
                None => r matches Err(e) && e@ == no_content_type_message(response.status),
                Some(v) => if !is_text_value(v) {
                    r matches Err(e) && e@ == invalid_header_message("content-type"@, v)
                } else if content_kind_spec(value_text(v)) == ContentKind::Json {
                    r is Ok
                } else {
                    r matches Err(e) && e@ == "Server returned "@ + status_display(response.status)
                        + " response with an invalid content type: "@ + value_text(v)
                },
            },
    {
        let content_type = match content_type_of(response) {
            Ok(c) => c,
            Err(e) => return Err(e),
        };
        match content_kind(content_type.as_str()) {
            ContentKind::Json => Ok(()),
            _ => {
                let mut m = String::from_str("Server returned ");
                m.append(status_text(response.status).as_str());
                m.append(" response with an invalid content type: ");
                m.append(content_type.as_str());
                Err(m)
            },
        }
    }
}

impl<T> JsonErrorReader<T> {
    /// A reader of JSON error replies.
    pub fn new() -> JsonErrorReader<T> {
        JsonErrorReader { phantom: core::marker::PhantomData }
    }

    /// The error that a plain text reply tells (see `plain_text_error_spec`).
    pub fn read_plain_text_error(&self, response: HttpResponse) -> (r: String)
        requires
            100 <= response.status <= 999,
        ensures
            r@ == plain_text_error_spec(response.status, response.body@),
    {
        let status = response.status;
        match crate::text::utf8_text(response.body) {
            Some(body) => {
                let chars = crate::text::chars_of(body.as_str());
                let ls = crate::text::lines(chars.as_slice());
                let line: Vec<char> = if ls.len() > 0 {
                    proof {
                        assert(crate::text::views(ls@)[0] == ls@[0]@);
                    }
                    crate::text::sub_vec(ls[0].as_slice(), 0, ls[0].len())
                } else {
                    Vec::new()
                };
                proof {
                    assert(line@ =~= first_line(body@));
                }
                let error = trim_error_line(&line);
                if error.as_str().unicode_len() > 0 {
                    return error;
                }
                status_text(status)
            },
            None => status_text(status),
        }
    }

    /// Checks an error reply: `Ok` if it is JSON (it is then parsed as such); else the error
    /// to return: what a plain text reply tells, or that the content type is wrong.
    pub fn check(&self, response: HttpResponse) -> (r: Result<(), String>)
        requires
            100 <= response.status <= 999,
        ensures
            match header_lookup(headers_view(response.headers@), "content-type"@) {
                None => r matches Err(e) && e@ == no_content_type_message(response.status),
                Some(v) => if !is_text_value(v) {
                    r matches Err(e) && e@ == invalid_header_message("content-type"@, v)
                } else if content_kind_spec(value_text(v)) == ContentKind::Json {
                    r is Ok
                } else if content_kind_spec(value_text(v)) == ContentKind::PlainText {
                    r matches Err(e) && e@ == "Server returned an error: "@ + plain_text_error_spec(response.status, response.body@)
                } else {
                    r matches Err(e) && e@ == "Server returned "@ + status_display(response.status)
                        + " error with an invalid content type: "@ + value_text(v)
                },
            },
    {
        let content_type = match content_type_of(&response) {
            Ok(c) => c,
            Err(e) => return Err(e),
        };
        match content_kind(content_type.as_str()) {
            ContentKind::Json => Ok(()),
            ContentKind::PlainText => {
                let mut m = String::from_str("Server returned an error: ");
                m.append(self.read_plain_text_error(response).as_str());
                Err(m)
            },
            ContentKind::Other => {
                let mut m = String::from_str("Server returned ");
                m.append(status_text(response.status).as_str());
                m.append(" error with an invalid content type: ");
                m.append(content_type.as_str());
                Err(m)
            },
        }
    }
}

impl RawResponseReader {
    /// A reader that takes replies as they are.
    pub fn new() -> RawResponseReader {
        RawResponseReader {}
    }
}

impl ResponseReader for RawResponseReader {
    type Result = HttpResponse;

    fn read(&self, response: HttpResponse) -> (r: Result<HttpResponse, String>)
        ensures
            r == Ok::<HttpResponse, String>(response),
    {
        Ok(response)
    }
}

/// How a reply is taken by its status.
#[derive(Clone, Copy, Debug, PartialEq, Eq, Structural)]
pub enum StatusClass {
    /// A success: the reply is read.
    Success,
    /// A client or server error: the error that the API replied is read.
    Failure,
    /// Anything else: an error.
    Unexpected,
}

/// How a reply with a status is taken.
pub fn status_class(status: u16) -> (r: StatusClass)
    ensures
        r == (if 200 <= status <= 299 {
            StatusClass::Success
        } else if 400 <= status <= 599 {
            StatusClass::Failure
        } else {
            StatusClass::Unexpected
        }),
{
    if 200 <= status && status <= 299 {
        StatusClass::Success
    } else if 400 <= status && status <= 599 {
        StatusClass::Failure
    } else {
        StatusClass::Unexpected
    }
}

/// The error of a reply whose status is neither a success nor an error.
pub fn unexpected_status_error(status: u16) -> (r: String)
    requires
        100 <= status <= 999,
    ensures
        r@ == "Server returned an error: "@ + status_display(status),
{
    let mut r = String::from_str("Server returned an error: ");
    r.append(status_text(status).as_str());
    r
}

} // verus!
