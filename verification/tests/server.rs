use http_server::encoding::Encoding;
use http_server::handlers::{
    echo, file_created, file_path, root, serve_file, server_routes, user_agent, FileRead,
};
use http_server::router::{Dispatch, Router};
use http_server::server::{handle_read, ConnectionStep, ReadOutcome};

/// Serves one request the way the server's routes do; a file that is asked
/// for has the contents `file` (or is missing). Gives the head and the
/// (decoded) body of the answer, and whether the connection stays open.
fn serve(request: &str, file: Option<&str>) -> (String, String, bool) {
    let router = Router::new(server_routes(), "/tmp/".to_string());
    let (req, dispatch, keep) = match handle_read(&router, ReadOutcome::Bytes(request.as_bytes().to_vec())) {
        ConnectionStep::Serve { request, dispatch, keep_open } => (request, dispatch, keep_open),
        _ => panic!("not served"),
    };
    let bytes = match dispatch {
        Dispatch::NotFound(bytes) => bytes,
        Dispatch::Route(i, mut response) => match i {
            0 => root(&mut response),
            1 => echo(&req, &mut response).unwrap(),
            2 => user_agent(&req, &mut response).unwrap(),
            3 => {
                assert!(file_path(&req, router.context()).is_some());
                let read = match file {
                    Some(s) => FileRead::Contents(s.to_string()),
                    None => FileRead::NotFound,
                };
                serve_file(&mut response, read)
            }
            _ => file_created(&mut response),
        },
    };
    let pos = bytes.windows(4).position(|w| w == b"\r\n\r\n").unwrap() + 4;
    let head = String::from_utf8(bytes[..pos].to_vec()).unwrap();
    let mut body = bytes[pos..].to_vec();
    if head.contains("Content-Encoding: gzip") {
        body = Encoding::decode("gzip", body).unwrap();
    }
    (head, String::from_utf8(body).unwrap(), keep)
}

#[test]
fn test_echo_str() {
    let (headers, body, _) = serve("GET /echo/test123 HTTP/1.1\r\nHost: localhost\r\n\r\n", None);
    assert!(headers.contains("HTTP/1.1 200 OK"));
    assert!(headers.contains("Content-Type: text/plain"));
    assert!(body.contains("test123"));
}

#[test]
fn test_not_found() {
    let (headers, _, _) = serve("GET /not/found HTTP/1.1\r\nHost: localhost\r\n\r\n", None);
    assert!(headers.contains("HTTP/1.1 404 Not Found"));
}

#[test]
fn test_ok_on_main_page() {
    let (headers, _, _) = serve("GET / HTTP/1.1\r\nHost: localhost\r\n\r\n", None);
    assert!(headers.contains("HTTP/1.1 200 OK"));
}

#[test]
fn test_user_agent() {
    let (headers, body, _) = serve(
        "GET /user-agent HTTP/1.1\r\nHost: localhost\r\nUser-Agent: foobar/1.2.3\r\n\r\n",
        None,
    );
    assert!(headers.contains("HTTP/1.1 200 OK"));
    assert!(headers.contains("Content-Type: text/plain"));
    assert!(headers.contains("Content-Length: 12"));
    assert!(body.contains("foobar/1.2.3"));
}

#[test]
fn sequential_echo_requests() {
    for i in 0..10 {
        let request = format!("GET /echo/thread-{} HTTP/1.1\r\nHost: localhost\r\n\r\n", i);
        let (headers, body, _) = serve(&request, None);
        assert!(headers.contains("HTTP/1.1 200 OK"));
        assert!(body.contains(&format!("thread-{}", i)));
    }
}

#[test]
fn test_file_handler() {
    let (headers, body, _) = serve(
        "GET /files/output HTTP/1.1\r\nHost: localhost\r\n\r\n",
        Some("Hello, world!"),
    );
    assert!(headers.contains("HTTP/1.1 200 OK"));
    assert!(headers.contains("Content-Type: application/octet-stream"));
    assert!(body.contains("Hello, world!"));
}

#[test]
fn test_file_adding_handler() {
    let request = "POST /files/newfile HTTP/1.1\r\n\
        Host: localhost:4221\r\n\
        Content-Type: application/octet-stream\r\n\
        Content-Length: 5\r\n\
        \r\n\
        12345";
    let router = Router::new(server_routes(), "/tmp/".to_string());
    let req = match handle_read(&router, ReadOutcome::Bytes(request.as_bytes().to_vec())) {
        ConnectionStep::Serve { request, dispatch: Dispatch::Route(4, _), .. } => request,
        _ => panic!("the POST route should take the request"),
    };
    assert_eq!(req.body, "12345");
    assert_eq!(file_path(&req, router.context()).unwrap(), "/tmp/newfile");
    let (headers, _, _) = serve(request, None);
    assert!(headers.contains("HTTP/1.1 201 Created"));
}

#[test]
fn test_be_gzip_encoded() {
    let (headers, body, _) = serve(
        "GET /echo/abc HTTP/1.1\r\nHost: localhost\r\nAccept-Encoding: gzip\r\n\r\n",
        None,
    );
    assert!(headers.contains("HTTP/1.1 200 OK"));
    assert!(headers.contains("Content-Encoding: gzip"));
    assert!(headers.contains("Content-Length: 23"));
    assert!(body.contains("abc"));
}

#[test]
fn test_multiple_compress_scheme() {
    let (headers, body, _) = serve(
        "GET /echo/abc HTTP/1.1\r\nHost: localhost\r\nAccept-Encoding: invalid-encoding-1, gzip, invalid-encoding-2\r\n\r\n",
        None,
    );
    assert!(headers.contains("HTTP/1.1 200 OK"));
    assert!(headers.contains("Content-Encoding: gzip"));
    assert!(headers.contains("Content-Length: 23"));
    assert!(body.contains("abc"));
}

#[test]
fn test_persistatn_connection() {
    let (headers, body, keep) = serve(
        "GET /echo/abc HTTP/1.1\r\nHost: localhost\r\nAccept-Encoding: invalid-encoding-1, gzip, invalid-encoding-2\r\n\r\n",
        None,
    );
    assert!(headers.contains("HTTP/1.1 200 OK"));
    assert!(headers.contains("Content-Encoding: gzip"));
    assert!(headers.contains("Content-Length: 23"));
    assert!(body.contains("abc"));
    assert!(keep);
    let (headers, body, keep) = serve("GET /echo/xyz HTTP/1.1\r\nHost: localhost\r\n\r\n", None);
    assert!(headers.contains("HTTP/1.1 200 OK"));
    assert!(body.contains("xyz"));
    assert!(keep);
}

#[test]
fn test_close_connection() {
    let (headers, body, keep) = serve(
        "GET /echo/abc HTTP/1.1\r\nHost: localhost\r\nConnection: close\r\n",
        None,
    );
    assert!(headers.contains("HTTP/1.1 200 OK"));
    assert!(headers.contains("Connection: close"));
    assert!(body.contains("abc"));
    assert!(!keep);
}

#[test]
fn server_routes_in_order() {
    let routes: Vec<(String, String)> =
        server_routes().into_iter().map(|r| (r.method, r.path)).collect();
    let expected = [
        ("GET", "/"),
        ("GET", "/echo/{str}"),
        ("GET", "/user-agent"),
        ("GET", "/files/{filename}"),
        ("POST", "/files/{filename}"),
    ];
    assert_eq!(routes.len(), expected.len());
    for (got, want) in routes.iter().zip(expected.iter()) {
        assert_eq!((got.0.as_str(), got.1.as_str()), *want);
    }
}

#[test]
fn closed_or_failed_reads_stop_the_connection() {
    let router = Router::new(server_routes(), "/tmp/".to_string());
    assert!(matches!(handle_read(&router, ReadOutcome::Closed), ConnectionStep::Stop));
    assert!(matches!(handle_read(&router, ReadOutcome::Failed), ConnectionStep::Stop));
}

#[test]
fn malformed_bytes_are_reported() {
    let router = Router::new(server_routes(), "/tmp/".to_string());
    let step = handle_read(&router, ReadOutcome::Bytes(b"GET /\r\n\r\n".to_vec()));
    assert!(matches!(step, ConnectionStep::Malformed));
    let step = handle_read(&router, ReadOutcome::Bytes(vec![0xff, 0xfe]));
    assert!(matches!(step, ConnectionStep::Malformed));
}

#[test]
fn old_versions_close_after_the_answer() {
    let (headers, body, keep) = serve("GET /echo/v HTTP/1.0\r\nHost: localhost\r\n\r\n", None);
    assert!(headers.contains("HTTP/1.0 200 OK"));
    assert_eq!(body, "v");
    assert!(!keep);
    let (_, _, keep) = serve("GET /echo/v HTTP/2.0\r\n\r\n", None);
    assert!(keep);
}

#[test]
fn unknown_path_is_dispatched_as_not_found() {
    let router = Router::new(server_routes(), "/tmp/".to_string());
    match handle_read(&router, ReadOutcome::Bytes(b"GET /nowhere HTTP/1.1\r\n\r\n".to_vec())) {
        ConnectionStep::Serve { request, dispatch: Dispatch::NotFound(bytes), keep_open } => {
            assert!(keep_open);
            assert!(request.path_params.len() == 0);
            assert_eq!(bytes, b"HTTP/1.1 404 Not Found\r\n\r\n".to_vec());
        }
        _ => panic!("expected a 404 answer"),
    }
}
