use torrent::error::ErrorKind;
use torrent::net::http::{parse_http_response, HttpClient, HttpRequest};
use torrent::net::into_url::{check_redirect, resolve_redirect_url, IntoUrl, Url};
use torrent::text::{decimal_text, hex_encode};

fn request() -> HttpRequest {
    HttpRequest {
        method: "GET".to_string(),
        scheme: Some("http".to_string()),
        host: Some("example.com".to_string()),
        port: None,
        path_and_query: Some("/announce?x=1".to_string()),
        headers: Vec::new(),
    }
}

fn url(text: &str) -> Url {
    Url::parse(text).ok().unwrap()
}

#[test]
fn response_is_parsed() {
    let raw = b"HTTP/1.1 206 Partial Content\r\nContent-Length: 3\r\nX-A: one\r\nx-a: two\r\njunk\r\n\r\nabc\r\n\r\n";
    let resp = parse_http_response(raw).ok().unwrap();
    assert_eq!(resp.status, 206);
    assert_eq!(resp.header("content-length"), Some(b"3".to_vec()));
    assert_eq!(resp.header("X-A"), Some(b"one".to_vec()));
    assert_eq!(resp.headers.get_all("x-a").iter().count(), 2);
    assert_eq!(resp.header("junk"), None);
    assert_eq!(resp.body, b"abc\r\n\r\n".to_vec());
}

#[test]
fn odd_status_lines() {
    assert_eq!(parse_http_response(b"garbage\r\n\r\n").ok().unwrap().status, 500);
    assert_eq!(parse_http_response(b"\r\n\r\n").ok().unwrap().status, 500);
    assert_eq!(parse_http_response(b"HTTP/1.1   +200  OK\r\n\r\n").ok().unwrap().status, 200);
    assert_eq!(parse_http_response(b"HTTP/1.1 99999\r\n\r\n").ok().unwrap().status, 500);
}

#[test]
fn bad_responses_are_protocol_errors() {
    let bad: Vec<&[u8]> = vec![
        b"HTTP/1.1 200 OK\r\n",
        b"",
        b"HTTP/1.1 20 OK\r\n\r\n",
        b"HTTP/1.1 200 OK\r\nbad name: x\r\n\r\n",
        b"HTTP/1.1 200 OK\r\n: x\r\n\r\n",
        b"HTTP/1.1 200 OK\r\na: x\x01y\r\n\r\n",
        b"HTTP/1.1 200 \xff\xfe\r\n\r\n",
    ];
    for raw in bad {
        assert_eq!(
            parse_http_response(raw).err().map(|e| e.kind()),
            Some(ErrorKind::Protocol)
        );
    }
}

#[test]
fn request_head_has_defaults() {
    let client = HttpClient::new();
    let mut req = request();
    assert_eq!(
        client.request_head(&req, "example.com"),
        "GET /announce?x=1 HTTP/1.1\r\nHost: example.com\r\nUser-Agent: torrent-rs/0.1.0\r\nAccept-Encoding: identity\r\nConnection: close\r\n\r\n"
    );
    req.path_and_query = None;
    req.headers.push(("user-agent".to_string(), b"me".to_vec()));
    req.headers.push(("x-raw".to_string(), vec![0xff]));
    req.headers.push(("x-max-response".to_string(), b"1024".to_vec()));
    assert_eq!(
        client.request_head(&req, "h"),
        "GET / HTTP/1.1\r\nHost: h\r\nuser-agent: me\r\nx-max-response: 1024\r\nAccept-Encoding: identity\r\nConnection: close\r\n\r\n"
    );
    assert_eq!(client.max_response(&req), Some(1024));
    assert_eq!(client.max_response(&request()), None);
}

#[test]
fn request_target() {
    let client = HttpClient::new();
    let t = client.target(&request()).ok().unwrap();
    assert_eq!((t.host.as_str(), t.port, t.tls), ("example.com", 80, false));
    let mut req = request();
    req.scheme = Some("https".to_string());
    let t = client.target(&req).ok().unwrap();
    assert_eq!((t.port, t.tls), (443, true));
    req.port = Some(8443);
    assert_eq!(client.target(&req).ok().unwrap().port, 8443);
    req.host = None;
    assert_eq!(
        client.target(&req).err().map(|e| e.kind()),
        Some(ErrorKind::InvalidInput)
    );
}

#[test]
fn redirects_are_resolved() {
    let base = url("http://example.com/a/b");
    let to = |location: &str| {
        resolve_redirect_url(&base, location)
            .map(|u| u.as_str().to_string())
            .map_err(|e| e.kind())
    };
    assert_eq!(to("http://new.example.com/x"), Ok("http://new.example.com/x".to_string()));
    assert_eq!(to("/announce"), Ok("http://example.com/announce".to_string()));
    assert_eq!(to("announce"), Ok("http://example.com/a/announce".to_string()));
    assert_eq!(to("//new.example.com/x"), Ok("http://new.example.com/x".to_string()));
    assert_eq!(to("https://example.com/"), Ok("https://example.com/".to_string()));
    assert_eq!(to("ftp://example.com/"), Err(ErrorKind::TrackerProtocolError));
    assert_eq!(to("http://["), Err(ErrorKind::TrackerProtocolError));
    assert!(check_redirect(None).is_err());
}

#[test]
fn texts_become_urls() {
    assert_eq!("http://Example.com".into_url().ok().unwrap().as_str(), "http://example.com/");
    assert_eq!(
        "http://example.com/x".to_string().into_url().ok().unwrap().as_str(),
        "http://example.com/x"
    );
    assert_eq!(url("http://example.com/x").into_url().ok().unwrap().as_str(), "http://example.com/x");
    assert_eq!(
        "not a url".into_url().err().map(|e| e.kind()),
        Some(ErrorKind::InvalidInput)
    );
    assert_eq!(url("http://example.com/p/q?x").path(), Some("/p/q".to_string()));
}

#[test]
fn numbers_and_bytes_as_text() {
    assert_eq!(decimal_text(0), "0");
    assert_eq!(decimal_text(u64::MAX), "18446744073709551615");
    assert_eq!(hex_encode(&[0x00, 0x1f, 0xff]), "001fff");
}
