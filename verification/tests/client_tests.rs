use lib::{HttpResponse, HttpTransport, SyncClient, SyncError, SyncRequest};

const HEALTHY: &str = "HTTP/1.1 200 OK\r\nContent-Length: 2\r\n\r\nok";
const ACCEPTED: &str = "HTTP/1.1 202 Accepted\r\nContent-Length: 8\r\n\r\naccepted";
const REJECTED: &str = "HTTP/1.1 500 Internal Server Error\r\nContent-Length: 4\r\n\r\noops";

fn mock_base_url() -> String {
    "http://127.0.0.1:38017".to_string()
}

fn todo_request() -> SyncRequest {
    SyncRequest {
        path: "notes/todo.txt".to_string(),
        hash: "abc123".to_string(),
    }
}

#[test]
fn health_check_returns_true_when_server_is_healthy() {
    let client = SyncClient::new(&mock_base_url()).expect("client should parse mock URL");
    let request = client.health_check_request();
    let is_healthy = client
        .health_check(HEALTHY)
        .expect("health check should succeed against mock server");

    assert!(is_healthy);
    assert!(request.starts_with("GET /v1/health HTTP/1.1\r\n"));
}

#[test]
fn sync_file_sends_expected_payload_to_server() {
    let client = SyncClient::new(&mock_base_url()).expect("client should parse mock URL");
    let request = client.sync_file_request(&todo_request());
    client
        .sync_file(ACCEPTED)
        .expect("202 response should be treated as successful enqueue");

    assert!(request.starts_with("POST /v1/sync HTTP/1.1\r\n"));
    assert!(request.contains("path=notes/todo.txt\nhash=abc123\n"));
}

#[test]
fn sync_file_returns_error_when_server_rejects_payload() {
    let client = SyncClient::new(&mock_base_url()).expect("client should parse mock URL");
    let _request = client.sync_file_request(&todo_request());
    let error = client
        .sync_file(REJECTED)
        .expect_err("500 response should be surfaced as a server error");

    match error {
        SyncError::Server(status, body) => {
            assert_eq!(status, 500);
            assert_eq!(body, "oops");
        }
        other => panic!("expected SyncError::Server, got {other:?}"),
    }
}

#[test]
fn health_request_is_complete_http_message() {
    let client = SyncClient::new("http://example.org:8080").unwrap();
    assert_eq!(
        client.health_check_request(),
        "GET /v1/health HTTP/1.1\r\nHost: example.org\r\nContent-Type: text/plain\r\nContent-Length: 0\r\nConnection: close\r\n\r\n"
    );
}

#[test]
fn sync_request_counts_body_bytes() {
    let client = SyncClient::new("http://example.org").unwrap();
    let text = client.sync_file_request(&todo_request());
    let body = "path=notes/todo.txt\nhash=abc123\n";
    assert_eq!(
        text,
        format!(
            "POST /v1/sync HTTP/1.1\r\nHost: example.org\r\nContent-Type: text/plain\r\nContent-Length: {}\r\nConnection: close\r\n\r\n{}",
            body.len(),
            body
        )
    );
    assert!(text.contains("Content-Length: 32\r\n"));
}

#[test]
fn content_length_counts_utf8_bytes_not_characters() {
    let client = SyncClient::new("http://h").unwrap();
    let req = SyncRequest {
        path: "é".to_string(),
        hash: "€".to_string(),
    };
    let text = client.sync_file_request(&req);
    // "path=" 5 + é 2 + "\nhash=" 6 + € 3 + "\n" 1
    assert!(text.contains("Content-Length: 17\r\n"));
}

#[test]
fn base_url_with_port() {
    let client = SyncClient::new("http://127.0.0.1:8080").unwrap();
    assert_eq!(client.host(), "127.0.0.1");
    assert_eq!(client.port(), 8080);
    assert_eq!(client.address(), "127.0.0.1:8080");
}

#[test]
fn base_url_without_port_uses_80() {
    let client = SyncClient::new("http://sync.local").unwrap();
    assert_eq!(client.host(), "sync.local");
    assert_eq!(client.port(), 80);
    assert_eq!(client.address(), "sync.local:80");
}

#[test]
fn base_url_port_accepts_plus_sign_and_leading_zeros() {
    assert_eq!(SyncClient::new("http://h:+81").unwrap().port(), 81);
    assert_eq!(SyncClient::new("http://h:0008").unwrap().port(), 8);
    assert_eq!(SyncClient::new("http://h:65535").unwrap().port(), 65535);
}

fn assert_invalid(url: &str) {
    match SyncClient::new(url) {
        Err(SyncError::InvalidBaseUrl(u)) => assert_eq!(u, url),
        other => panic!("expected InvalidBaseUrl for {url:?}, got {other:?}"),
    }
}

#[test]
fn base_url_refusals() {
    assert_invalid("https://h:80");
    assert_invalid("h:80");
    assert_invalid("http://");
    assert_invalid("http://:80");
    assert_invalid("http://h/");
    assert_invalid("http://h:80/v1");
    assert_invalid("http://h:");
    assert_invalid("http://h:+");
    assert_invalid("http://h:-1");
    assert_invalid("http://h:65536");
    assert_invalid("http://h:8a");
    assert_invalid("http://h:80:90");
    assert_invalid("HTTP://h");
}

#[test]
fn http_transport_reads_base_url() {
    let transport = HttpTransport::new("http://10.0.0.2:9000").unwrap();
    assert_eq!(transport.client().host(), "10.0.0.2");
    assert_eq!(transport.client().port(), 9000);
    assert!(matches!(
        HttpTransport::new("10.0.0.2"),
        Err(SyncError::InvalidBaseUrl(_))
    ));
}

fn protocol_error(raw: &str) -> String {
    match HttpResponse::parse(raw) {
        Err(SyncError::Protocol(m)) => m,
        other => panic!("expected a protocol error for {raw:?}, got {other:?}"),
    }
}

#[test]
fn reply_parsing_gives_status_and_body() {
    let r = HttpResponse::parse("HTTP/1.1 404 Not Found\r\nX: y\r\n\r\nmissing\r\n\r\nmore").unwrap();
    assert_eq!(r.status, 404);
    assert_eq!(r.body, "missing\r\n\r\nmore");
    let r = HttpResponse::parse("HTTP/1.1\t 204\r\n\r\n").unwrap();
    assert_eq!(r.status, 204);
    assert_eq!(r.body, "");
}

#[test]
fn reply_parsing_errors() {
    assert_eq!(protocol_error("HTTP/1.1 200 OK\r\n"), "missing response separator");
    assert_eq!(protocol_error("\r\n\r\nbody"), "missing response status line");
    assert_eq!(protocol_error("HTTP/1.1\r\n\r\n"), "missing response status code");
    assert_eq!(protocol_error("\nHTTP/1.1 200\r\n\r\n"), "missing response status code");
    assert_eq!(protocol_error("HTTP/1.1 OK\r\n\r\n"), "invalid response status code");
    assert_eq!(protocol_error("HTTP/1.1 70000 Big\r\n\r\n"), "invalid response status code");
}

#[test]
fn health_check_is_false_for_other_status() {
    let client = SyncClient::new("http://h").unwrap();
    assert_eq!(client.health_check("HTTP/1.1 503 Busy\r\n\r\n").unwrap(), false);
    assert_eq!(client.health_check("HTTP/1.1 202 Accepted\r\n\r\n").unwrap(), false);
    assert!(matches!(client.health_check("garbage"), Err(SyncError::Protocol(_))));
}

#[test]
fn sync_accepts_200_and_202_only() {
    let client = SyncClient::new("http://h").unwrap();
    assert!(client.sync_file("HTTP/1.1 200 OK\r\n\r\n").is_ok());
    assert!(client.sync_file("HTTP/1.1 202 Accepted\r\n\r\n").is_ok());
    match client.sync_file("HTTP/1.1 201 Created\r\n\r\nnew") {
        Err(SyncError::Server(201, body)) => assert_eq!(body, "new"),
        other => panic!("expected a server error, got {other:?}"),
    }
    assert!(matches!(client.sync_file("HTTP/1.1 x\r\n\r\n"), Err(SyncError::Protocol(_))));
}

#[test]
fn error_messages() {
    assert_eq!(
        SyncError::InvalidBaseUrl("ftp://x".to_string()).message(),
        "invalid base url: ftp://x"
    );
    assert_eq!(
        SyncError::Connection("refused".to_string()).message(),
        "network error: refused"
    );
    assert_eq!(SyncError::Io("denied".to_string()).message(), "file system error: denied");
    assert_eq!(SyncError::Protocol("bad".to_string()).message(), "protocol error: bad");
    assert_eq!(
        SyncError::Server(503, "busy".to_string()).message(),
        "server returned 503: busy"
    );
    assert_eq!(SyncError::Server(0, String::new()).message(), "server returned 0: ");
    assert_eq!(SyncError::InvalidPath("/x".to_string()).message(), "invalid path: /x");
}
