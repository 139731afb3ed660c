use kagikachi::errors::SocketError;
use kagikachi::handshake::handle_handshake;

fn lines(v: &[&str]) -> Vec<String> {
    v.iter().map(|s| s.to_string()).collect()
}

#[test]
fn accepts_upgrade_with_rfc_token() {
    let req = lines(&[
        "GET /chat HTTP/1.1",
        "Host: server.example.com",
        "Upgrade: WebSocket",
        "Connection: keep-alive, Upgrade",
        "Sec-WebSocket-Key: dGhlIHNhbXBsZSBub25jZQ==",
    ]);
    let (text, outcome) = handle_handshake(&req);
    assert!(outcome.is_ok());
    assert_eq!(
        text,
        "HTTP/1.1 101 Switching Protocols\r\nUpgrade: websocket\r\nConnection: Upgrade\r\nSec-WebSocket-Accept: s3pPLMBiTxaQ9kYGzzhZRbK+xOo=\r\n\r\n"
    );
}

#[test]
fn missing_upgrade_header_is_refused() {
    let req = lines(&["GET / HTTP/1.1", "Connection: Upgrade", "Sec-WebSocket-Key: abc"]);
    let (text, outcome) = handle_handshake(&req);
    assert_eq!(text, "HTTP/1.1 400 Bad Request\r\n\r\n");
    assert!(matches!(outcome, Err(SocketError::InvalidHandshake)));
}

#[test]
fn connection_without_upgrade_is_refused() {
    let req = lines(&["GET / HTTP/1.1", "Connection: keep-alive", "Upgrade: websocket", "Sec-WebSocket-Key: abc"]);
    let (text, outcome) = handle_handshake(&req);
    assert_eq!(text, "HTTP/1.1 400 Bad Request\r\n\r\n");
    assert!(matches!(outcome, Err(SocketError::InvalidHandshake)));
    let req = lines(&["GET / HTTP/1.1", "Connection: upgrade", "Upgrade: websocket", "Sec-WebSocket-Key: abc"]);
    assert!(handle_handshake(&req).1.is_err());
}
