use http_server::encoding::{Encoding, EncodingError, SupportedEncoding};
use http_server::headers::Headers;
use http_server::parser::Parser;
use http_server::router::{Dispatch, Response, Route, Router};
use http_server::server::{connection_persists, is_http_version_supported};
use http_server::text::{
    byte_prefix_len, chars_of, lines_exec, parse_unsigned_exec, push_decimal, split_exec,
    string_of, trim_char_exec, trim_exec, words_exec,
};

fn cs(s: &str) -> Vec<char> {
    s.chars().collect()
}

fn strs(v: Vec<Vec<char>>) -> Vec<String> {
    v.into_iter().map(|w| w.into_iter().collect()).collect()
}

// ---- text -----------------------------------------------------------------

#[test]
fn words_skip_all_whitespace() {
    assert_eq!(strs(words_exec(&cs("  GET \t/a\u{3000}HTTP/1.1  "))), vec!["GET", "/a", "HTTP/1.1"]);
    assert!(words_exec(&cs(" \u{a0} ")).is_empty());
}

#[test]
fn trim_removes_unicode_whitespace() {
    let t: String = trim_exec(&cs("\u{2003} x y \n")).into_iter().collect();
    assert_eq!(t, "x y");
    assert!(trim_exec(&cs("   ")).is_empty());
}

#[test]
fn lines_split_at_crlf_only() {
    assert_eq!(strs(lines_exec(&cs("a\r\nb\nc\r\n\r\n"))), vec!["a", "b\nc", "", ""]);
    assert_eq!(strs(lines_exec(&cs(""))), vec![""]);
}

#[test]
fn split_and_trim_char() {
    assert_eq!(strs(split_exec(&cs("a,,b"), ',')), vec!["a", "", "b"]);
    let t: String = trim_char_exec(&cs("//echo/x//"), '/').into_iter().collect();
    assert_eq!(t, "echo/x");
}

#[test]
fn unsigned_numbers_read_as_std_reads_them() {
    assert_eq!(parse_unsigned_exec(&cs("123"), u32::MAX as u64), Some(123));
    assert_eq!(parse_unsigned_exec(&cs("+7"), u32::MAX as u64), Some(7));
    assert_eq!(parse_unsigned_exec(&cs("4294967295"), u32::MAX as u64), Some(4294967295));
    assert_eq!(parse_unsigned_exec(&cs("4294967296"), u32::MAX as u64), None);
    assert_eq!(parse_unsigned_exec(&cs("-1"), u32::MAX as u64), None);
    assert_eq!(parse_unsigned_exec(&cs("+"), u32::MAX as u64), None);
    assert_eq!(parse_unsigned_exec(&cs(""), u32::MAX as u64), None);
    assert_eq!(parse_unsigned_exec(&cs(" 1"), u32::MAX as u64), None);
    for s in ["0", "9", "10", "65535", "4000000000"] {
        assert_eq!(parse_unsigned_exec(&cs(s), u32::MAX as u64), s.parse::<u32>().ok().map(|v| v as u64));
    }
}

#[test]
fn decimal_reads_back() {
    for n in [0u64, 5, 10, 12, 23, 1000, u64::MAX] {
        let mut s = String::new();
        push_decimal(&mut s, n);
        assert_eq!(s, n.to_string());
        assert_eq!(parse_unsigned_exec(&cs(&s), u64::MAX), Some(n));
    }
}

#[test]
fn byte_prefixes_end_on_characters() {
    let line = cs("aé€x");
    assert_eq!(byte_prefix_len(&line, 0), Some(0));
    assert_eq!(byte_prefix_len(&line, 1), Some(1));
    assert_eq!(byte_prefix_len(&line, 2), None);
    assert_eq!(byte_prefix_len(&line, 3), Some(2));
    assert_eq!(byte_prefix_len(&line, 6), Some(3));
    assert_eq!(byte_prefix_len(&line, 7), Some(4));
    assert_eq!(byte_prefix_len(&line, 8), None);
}

#[test]
fn strings_from_characters() {
    assert_eq!(string_of(&cs("héllo")), "héllo");
    assert_eq!(chars_of("é€"), vec!['é', '€']);
}

// ---- encoding -------------------------------------------------------------

#[test]
fn only_gzip_is_supported() {
    assert_eq!(SupportedEncoding::from_str("gzip"), Ok(SupportedEncoding::Gzip));
    assert_eq!(SupportedEncoding::from_str("GZIP"), Err(()));
    assert_eq!(SupportedEncoding::from_str("gzip "), Err(()));
    assert!(matches!(Encoding::encode("br", b"abc".to_vec()), Err(EncodingError::UnsupportedEncoding)));
    assert!(matches!(Encoding::decode("deflate", b"abc".to_vec()), Err(EncodingError::UnsupportedEncoding)));
}

#[test]
fn gzip_round_trip() {
    let (encoded, name) = Encoding::encode("gzip", b"abc".to_vec()).unwrap();
    assert_eq!(name, "gzip");
    assert_ne!(encoded, b"abc".to_vec());
    assert_eq!(encoded.len(), 23);
    assert_eq!(&encoded[..2], &[0x1f, 0x8b]);
    assert_eq!(Encoding::decode("gzip", encoded).unwrap(), b"abc".to_vec());
    let (empty, _) = Encoding::encode("gzip", Vec::new()).unwrap();
    assert_eq!(Encoding::decode("gzip", empty).unwrap(), Vec::<u8>::new());
}

#[test]
fn gzip_decoding_rejects_garbage() {
    assert!(matches!(Encoding::decode("gzip", b"not gzip at all".to_vec()), Err(EncodingError::Io(_))));
}

#[test]
fn encoding_selection() {
    assert_eq!(Encoding::select_encoding("gzip"), Some("gzip"));
    assert_eq!(Encoding::select_encoding("invalid-encoding-1, gzip, invalid-encoding-2"), Some("gzip"));
    assert_eq!(Encoding::select_encoding(" deflate ,\tgzip "), Some("gzip"));
    assert_eq!(Encoding::select_encoding("deflate, br"), None);
    assert_eq!(Encoding::select_encoding("gzip;q=1.0"), None);
    assert_eq!(Encoding::select_encoding(""), None);
}

// ---- headers --------------------------------------------------------------

#[test]
fn headers_read_back_what_was_set() {
    let mut h = Headers::new();
    h.insert("A".to_string(), "1".to_string());
    h.insert("B".to_string(), "2".to_string());
    h.insert("A".to_string(), "3".to_string());
    assert_eq!(h.len(), 2);
    assert_eq!(h.get(&"A".to_string()), Some(&"3".to_string()));
    assert_eq!(h.get(&"B".to_string()), Some(&"2".to_string()));
    assert_eq!(h.get(&"a".to_string()), None);
    assert_eq!(h.entry(0), (&"A".to_string(), &"3".to_string()));
    let c = h.clone();
    assert_eq!(c.entry(1), (&"B".to_string(), &"2".to_string()));
}

// ---- parser ---------------------------------------------------------------

#[test]
fn request_line_and_headers() {
    let r = Parser::parse(b"GET /echo/abc HTTP/1.1\r\nHost: localhost:4221\r\nX-Pad:  v a  \r\nHost: other\r\n\r\n");
    assert_eq!(r.method, "GET");
    assert_eq!(r.path, "/echo/abc");
    assert_eq!(r.version, "HTTP/1.1");
    assert_eq!(r.headers.get(&"Host".to_string()), Some(&"other".to_string()));
    assert_eq!(r.headers.get(&"X-Pad".to_string()), Some(&"v a".to_string()));
    assert_eq!(r.headers.len(), 2);
    assert_eq!(r.path_params.len(), 0);
    assert_eq!(r.body, "");
}

#[test]
fn header_value_stops_at_second_colon() {
    let r = Parser::parse(b"GET / HTTP/1.1\r\nHost: localhost:4221\r\n\r\n");
    assert_eq!(r.headers.get(&"Host".to_string()), Some(&"localhost".to_string()));
}

#[test]
fn body_is_cut_to_content_length() {
    let r = Parser::parse(b"POST /f HTTP/1.1\r\nContent-Length: 3\r\n\r\n12345\r\nrest");
    assert_eq!(r.body, "123");
    let r = Parser::parse(b"POST /f HTTP/1.1\r\n\r\n12345");
    assert_eq!(r.body, "");
    let r = Parser::parse(b"POST /f HTTP/1.1\r\nContent-Length: x\r\n\r\n12345");
    assert_eq!(r.body, "");
    let r = Parser::parse("POST /f HTTP/1.1\r\nContent-Length: 2\r\n\r\né€".as_bytes());
    assert_eq!(r.body, "é");
    let r = Parser::parse("POST /f HTTP/1.1\r\nContent-Length: 5\r\n\r\né€".as_bytes());
    assert_eq!(r.body, "é€");
}

#[test]
fn request_without_empty_line_has_no_body() {
    let r = Parser::parse(b"GET /echo/abc HTTP/1.1\r\nHost: localhost\r\nConnection: close\r\n");
    assert_eq!(r.body, "");
    assert_eq!(r.headers.get(&"Connection".to_string()), Some(&"close".to_string()));
    let r = Parser::parse(b"GET / HTTP/1.0");
    assert_eq!(r.version, "HTTP/1.0");
    assert_eq!(r.headers.len(), 0);
}

#[test]
fn malformed_requests_are_refused() {
    assert!(Parser::try_parse(&[0xff, 0xfe]).is_none());
    assert!(Parser::try_parse(b"GET /\r\n\r\n").is_none());
    assert!(Parser::try_parse(b"").is_none());
    assert!(Parser::try_parse(b"GET / HTTP/1.1\r\nNoColonHere\r\n\r\n").is_none());
    assert!(Parser::try_parse(b"POST / HTTP/1.1\r\nContent-Length: 9\r\n\r\nabc").is_none());
    assert!(Parser::try_parse("POST / HTTP/1.1\r\nContent-Length: 2\r\n\r\n€".as_bytes()).is_none());
    assert!(Parser::try_parse(b"GET / HTTP/1.1\r\n\r\n").is_some());
}

// ---- router and responses -------------------------------------------------

fn route(m: &str, p: &str) -> Route {
    Route { method: m.to_string(), path: p.to_string() }
}

#[test]
fn path_parameters() {
    let p = Router::extract_path_params("/echo/{str}".to_string(), "/echo/abc".to_string()).unwrap();
    assert_eq!(p.get(&"str".to_string()), Some(&"abc".to_string()));
    let p = Router::extract_path_params("/a/{x}/{y}".to_string(), "a/1/2/".to_string()).unwrap();
    assert_eq!(p.get(&"x".to_string()), Some(&"1".to_string()));
    assert_eq!(p.get(&"y".to_string()), Some(&"2".to_string()));
    assert!(Router::extract_path_params("/echo/{str}".to_string(), "/echo".to_string()).is_none());
    assert!(Router::extract_path_params("/echo/{str}".to_string(), "/ech/abc".to_string()).is_none());
    let p = Router::extract_path_params("/user-agent".to_string(), "/user-agent".to_string()).unwrap();
    assert_eq!(p.len(), 0);
    let p = Router::extract_path_params("/".to_string(), "/".to_string()).unwrap();
    assert_eq!(p.len(), 0);
    let p = Router::extract_path_params("/{}".to_string(), "/v".to_string()).unwrap();
    assert_eq!(p.get(&"".to_string()), Some(&"v".to_string()));
}

#[test]
fn first_fitting_route_wins() {
    let router = Router::new(
        vec![route("POST", "/x/{a}"), route("GET", "/x/{a}"), route("GET", "/x/{b}")],
        "/d/".to_string(),
    );
    assert_eq!(router.context().directory_path, "/d/");
    let mut req = Parser::parse(b"GET /x/7 HTTP/1.1\r\n\r\n");
    match router.execute(&mut req) {
        Dispatch::Route(i, _) => assert_eq!(i, 1),
        Dispatch::NotFound(_) => panic!("a route fits"),
    }
    assert_eq!(req.path_params.get(&"a".to_string()), Some(&"7".to_string()));
    assert_eq!(req.path_params.get(&"b".to_string()), None);
}

#[test]
fn unknown_method_is_not_found() {
    let router = Router::new(vec![route("GET", "/")], "/".to_string());
    let mut req = Parser::parse(b"PUT / HTTP/1.0\r\n\r\n");
    match router.execute(&mut req) {
        Dispatch::NotFound(bytes) => assert_eq!(bytes, b"HTTP/1.0 404 Not Found\r\n\r\n".to_vec()),
        Dispatch::Route(..) => panic!("no route takes PUT"),
    }
}

#[test]
fn response_bytes() {
    let mut resp = Response::new("HTTP/1.1".to_string(), Headers::new());
    resp.status(201).text("hi".to_string()).set_header("X".to_string(), "y".to_string());
    let bytes = resp.send();
    assert_eq!(
        String::from_utf8(bytes).unwrap(),
        "HTTP/1.1 201 Created\r\nX: y\r\nContent-Type: text/plain\r\nContent-Length: 2\r\n\r\nhi"
    );
    let mut resp = Response::new("HTTP/1.1".to_string(), Headers::new());
    resp.text("é".to_string()).set_header("Content-Type".to_string(), "a/b".to_string());
    let bytes = resp.send();
    assert_eq!(
        String::from_utf8(bytes).unwrap(),
        "HTTP/1.1 200 OK\r\nContent-Type: a/b\r\nContent-Length: 2\r\n\r\né"
    );
}

#[test]
fn gzip_response_when_asked() {
    let mut req_headers = Headers::new();
    req_headers.insert("Accept-Encoding".to_string(), "gzip".to_string());
    let mut resp = Response::new("HTTP/1.1".to_string(), req_headers);
    resp.text("abc".to_string());
    let bytes = resp.send();
    let head = "HTTP/1.1 200 OK\r\nContent-Encoding: gzip\r\nContent-Type: text/plain\r\nContent-Length: 23\r\n\r\n";
    assert_eq!(&bytes[..head.len()], head.as_bytes());
    let body = bytes[head.len()..].to_vec();
    assert_eq!(Encoding::decode("gzip", body).unwrap(), b"abc".to_vec());
}

#[test]
fn send_with_a_given_encoding() {
    let mut resp = Response::new("HTTP/1.1".to_string(), Headers::new());
    let bytes = resp.send_encoded(Some((vec![1, 2, 3], "x")));
    let head = "HTTP/1.1 200 OK\r\nContent-Encoding: x\r\nContent-Type: text/plain\r\nContent-Length: 3\r\n\r\n";
    let mut expected = head.as_bytes().to_vec();
    expected.extend_from_slice(&[1, 2, 3]);
    assert_eq!(bytes, expected);
}

// ---- connections ----------------------------------------------------------

#[test]
fn http_versions() {
    assert!(is_http_version_supported("HTTP/1.1", 1, 1));
    assert!(is_http_version_supported("HTTP/2.0", 1, 1));
    assert!(is_http_version_supported("HTTP/1.1.9", 1, 1));
    assert!(is_http_version_supported("HTTP/+1.+1", 1, 1));
    assert!(!is_http_version_supported("HTTP/1.0", 1, 1));
    assert!(!is_http_version_supported("HTTP/2", 1, 1));
    assert!(!is_http_version_supported("http/1.1", 1, 1));
    assert!(!is_http_version_supported("HTTP/1.x", 1, 1));
    assert!(!is_http_version_supported("HTTP/4294967296.0", 1, 1));
    assert!(is_http_version_supported("HTTP/1.0", 1, 0));
}

#[test]
fn connections_stay_open_for_http_1_1() {
    let r = Parser::parse(b"GET / HTTP/1.1\r\n\r\n");
    assert!(connection_persists(&r));
    let r = Parser::parse(b"GET / HTTP/1.1\r\nConnection: close\r\n\r\n");
    assert!(!connection_persists(&r));
    let r = Parser::parse(b"GET / HTTP/1.1\r\nConnection: keep-alive\r\n\r\n");
    assert!(connection_persists(&r));
    let r = Parser::parse(b"GET / HTTP/1.0\r\n\r\n");
    assert!(!connection_persists(&r));
}

#[test]
fn encodings_parse_through_from_str() {
    assert_eq!("gzip".parse::<SupportedEncoding>(), Ok(SupportedEncoding::Gzip));
    assert_eq!("identity".parse::<SupportedEncoding>(), Err(()));
}

#[test]
fn request_text_reads_back() {
    let text = "POST /files/x HTTP/1.1\r\nA: one\r\nContent-Length: 5\r\nA: two\r\n\r\nhé!!";
    let r = Parser::parse(text.as_bytes());
    assert_eq!((r.method.as_str(), r.path.as_str(), r.version.as_str()), ("POST", "/files/x", "HTTP/1.1"));
    assert_eq!(r.headers.len(), 2);
    assert_eq!(r.headers.get(&"A".to_string()), Some(&"two".to_string()));
    assert_eq!(r.headers.get(&"Content-Length".to_string()), Some(&"5".to_string()));
    assert_eq!(r.body, "hé!!");
}

#[test]
fn close_is_echoed_in_the_answer() {
    let mut req_headers = Headers::new();
    req_headers.insert("Host".to_string(), "localhost".to_string());
    req_headers.insert("Connection".to_string(), "close".to_string());
    let mut resp = Response::new("HTTP/1.1".to_string(), req_headers);
    resp.status(200).text("abc".to_string());
    let bytes = resp.send();
    assert_eq!(
        String::from_utf8(bytes).unwrap(),
        "HTTP/1.1 200 OK\r\nConnection: close\r\nContent-Type: text/plain\r\nContent-Length: 3\r\n\r\nabc"
    );
    let mut req_headers = Headers::new();
    req_headers.insert("Connection".to_string(), "keep-alive".to_string());
    let mut resp = Response::new("HTTP/1.1".to_string(), req_headers);
    let bytes = resp.send();
    assert_eq!(String::from_utf8(bytes).unwrap(), "HTTP/1.1 200 OK\r\n\r\n");
}

#[test]
fn setting_a_header_twice_keeps_one_field() {
    let mut resp = Response::new("HTTP/1.1".to_string(), Headers::new());
    resp.set_header("X".to_string(), "1".to_string())
        .set_header("Y".to_string(), "2".to_string())
        .set_header("X".to_string(), "3".to_string());
    let bytes = resp.send();
    assert_eq!(bytes, b"HTTP/1.1 200 OK\r\nX: 3\r\nY: 2\r\n\r\n".to_vec());
}
