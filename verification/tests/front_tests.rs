use linastore::auth::{verify_password, Session};
use linastore::dtos::{LiNaProtocol, ProtocolError, Status};
use linastore::front::{get_mime_type, single_path_segment};
use linastore::ordque::{Component, Order, OrderQueue};
use linastore::tidy::TidyManager;
use linastore::vars::EnvVar;

#[test]
fn test_string_to_static_bytes_array() {
    let mut buf = [0u8; 256];
    let s = "Hello, world!";
    buf[..s.len()].copy_from_slice(s.as_bytes());
    let valid_data_end = buf.iter().position(|&b| b == 0).unwrap_or(buf.len());
    assert_eq!(String::from_utf8_lossy(&buf[..valid_data_end]), "Hello, world!".to_string());
}

#[test]
fn test_url_slice() {
    let url_raw = "/path";
    let path: Vec<&str> = url_raw.strip_prefix("/").unwrap_or(url_raw).split('/').collect();
    println!("path_slice{:?}", path);
}

#[test]
fn single_segment_urls() {
    assert_eq!(single_path_segment("/photo.jpg").unwrap(), "photo.jpg");
    assert_eq!(single_path_segment("plain").unwrap(), "plain");
    assert!(single_path_segment("/a/b").is_none());
}

#[test]
fn mime_table() {
    assert_eq!(get_mime_type("x.jpg"), "image/jpeg");
    assert_eq!(get_mime_type("x.jpeg"), "image/jpeg");
    assert_eq!(get_mime_type("x.png"), "image/png");
    assert_eq!(get_mime_type("x.mp4"), "video/mp4");
    assert_eq!(get_mime_type("x.pdf"), "application/pdf");
    assert_eq!(get_mime_type("x.txt"), "text/plain");
    assert_eq!(get_mime_type("x.json"), "application/json");
    assert_eq!(get_mime_type("x.html"), "text/html");
    assert_eq!(get_mime_type("x.css"), "text/css");
    assert_eq!(get_mime_type("x.js"), "application/javascript");
    assert_eq!(get_mime_type("x.svg"), "image/svg+xml");
    assert_eq!(get_mime_type("x.webp"), "image/webp");
    assert_eq!(get_mime_type("x.gif"), "image/gif");
    assert_eq!(get_mime_type("x.ico"), "image/x-icon");
    assert_eq!(get_mime_type("x.xml"), "application/xml");
    assert_eq!(get_mime_type("x.bin"), "application/octet-stream");
    assert_eq!(get_mime_type("noext"), "application/octet-stream");
    assert_eq!(get_mime_type("archive.tar.gz"), "application/octet-stream");
}

#[test]
fn protocol_serialize_and_parse_round_trip() {
    let mut msg = LiNaProtocol::new();
    msg.flags = 0x80;
    msg.payload.identifier[..5].copy_from_slice(b"a.bin");
    msg.payload.data = vec![9u8, 8, 7];
    msg.payload.length = 3;
    msg.payload.checksum = msg.calculate_checksum();
    assert!(msg.verify());

    // Rebuild the request wire form: flags, identifier, length,
    // checksum, then the data.
    let mut wire = Vec::new();
    wire.push(msg.flags);
    wire.extend_from_slice(&msg.payload.identifier);
    wire.extend_from_slice(&msg.payload.length.to_le_bytes());
    wire.extend_from_slice(&msg.payload.checksum.to_le_bytes());
    wire.extend_from_slice(&msg.payload.data);

    let parsed = LiNaProtocol::parse_protocol_message(&wire, 1 << 20).expect("parse");
    assert_eq!(parsed.flags, 0x80);
    assert_eq!(parsed.payload.identifier, msg.payload.identifier);
    assert_eq!(parsed.payload.length, 3);
    assert_eq!(parsed.payload.data, vec![9u8, 8, 7]);

    // The response serialization leads with the status byte.
    let out = msg.serialize_protocol_message();
    assert_eq!(out[0], 255, "unset status serializes as 255");
    assert_eq!(out.len(), 1 + 255 + 4 + 4 + 3);
    assert_eq!(&out[264..], &[9u8, 8, 7]);
}

#[test]
fn protocol_rejects_bad_input() {
    assert_eq!(
        LiNaProtocol::parse_protocol_message(&vec![1u8, 2, 3], 100).unwrap_err(),
        ProtocolError::Truncated
    );

    let mut msg = LiNaProtocol::new();
    msg.flags = 0x80;
    msg.payload.data = vec![1u8; 10];
    msg.payload.length = 10;
    msg.payload.checksum = msg.calculate_checksum();
    let mut wire = Vec::new();
    wire.push(msg.flags);
    wire.extend_from_slice(&msg.payload.identifier);
    wire.extend_from_slice(&msg.payload.length.to_le_bytes());
    wire.extend_from_slice(&msg.payload.checksum.to_le_bytes());
    wire.extend_from_slice(&msg.payload.data);

    assert_eq!(
        LiNaProtocol::parse_protocol_message(&wire, 5).unwrap_err(),
        ProtocolError::PayloadTooLarge
    );
    let mut flipped = wire.clone();
    flipped[260] = flipped[260].wrapping_add(1);
    assert_eq!(
        LiNaProtocol::parse_protocol_message(&flipped, 100).unwrap_err(),
        ProtocolError::ChecksumMismatch
    );
    let mut short = wire.clone();
    short.pop();
    assert_eq!(
        LiNaProtocol::parse_protocol_message(&short, 100).unwrap_err(),
        ProtocolError::Truncated
    );
}

#[test]
fn status_codes_match_the_wire() {
    assert_eq!(Status::Success.code(), 0);
    assert_eq!(Status::FileNotFound.code(), 1);
    assert_eq!(Status::StoreFailed.code(), 2);
    assert_eq!(Status::FileNameInvalid.code(), 3);
    assert_eq!(Status::InternalError.code(), 127);
    assert_eq!(Status::Unspecified.code(), 255);
}

#[test]
fn password_verification() {
    // SHA-256("secret"), hex-encoded.
    let stored =
        Some("2bb80d537b1da3e38bd30361aa855686bde0eacd7162fef6a25fe97bf527a25b".to_string());
    assert!(verify_password(&stored, "secret"));
    assert!(!verify_password(&stored, "wrong"));
    assert!(verify_password(&None, "anything"));
}

#[test]
fn session_expiry() {
    let s = Session::new("tok".to_string(), "user".to_string());
    assert!(!s.is_expired_at(0));
    assert!(!s.is_expired_at(s.expires_at_timestamp));
    assert!(s.is_expired_at(s.expires_at_timestamp + 1));
    assert!(!s.is_expired());
}

#[test]
fn env_defaults() {
    let env = EnvVar::from_values(None, None, None, None, false);
    assert_eq!(env.ip_address, "127.0.0.1");
    assert_eq!(env.http_port, "8086");
    assert_eq!(env.advanced_port, "8096");
    assert_eq!(env.max_payload_size, 67108864);
    assert!(!env.password_enabled);
    let env = EnvVar::from_values(
        Some("0.0.0.0".to_string()),
        Some("81".to_string()),
        Some("82".to_string()),
        Some(1024),
        true,
    );
    assert_eq!(env.ip_address, "0.0.0.0");
    assert_eq!(env.http_port, "81");
    assert_eq!(env.advanced_port, "82");
    assert_eq!(env.max_payload_size, 1024);
    assert!(env.password_enabled);
}

#[test]
fn order_queue_fifo() {
    let mut q = OrderQueue::new();
    q.push(Order::Require { target: Component::Storage, uni_id: [1; 8], data: "a".to_string() });
    q.push(Order::Send { target: Component::Waitress, uni_id: [2; 8], data: "b".to_string() });
    match q.pop().unwrap() {
        Order::Require { uni_id, data, .. } => {
            assert_eq!(uni_id, [1; 8]);
            assert_eq!(data, "a");
        },
        _ => panic!("wrong order kind"),
    }
    match q.pop().unwrap() {
        Order::Send { uni_id, data, .. } => {
            assert_eq!(uni_id, [2; 8]);
            assert_eq!(data, "b");
        },
        _ => panic!("wrong order kind"),
    }
    assert!(q.pop().is_none());
}

#[test]
fn tidy_extreme_and_relative_paths() {
    let tm = TidyManager::new();
    let infos = vec![
        ("a".to_string(), "20240101000000".to_string()),
        ("b".to_string(), "20250101000000".to_string()),
        ("c".to_string(), "20230101000000".to_string()),
    ];
    assert_eq!(tm.find_extreme_file(&infos, true), 1);
    assert_eq!(tm.find_extreme_file(&infos, false), 2);

    let from = vec!["root".to_string(), "x".to_string(), "y".to_string(), "f".to_string()];
    let to = vec!["root".to_string(), "z".to_string(), "g".to_string()];
    let rel = tm.relative_path_with_same_root(&from, &to);
    assert_eq!(rel, vec!["..".to_string(), "..".to_string(), "z".to_string(), "g".to_string()]);

    let from = vec!["root".to_string(), "f".to_string()];
    let to = vec!["root".to_string(), "g".to_string()];
    let rel = tm.relative_path_with_same_root(&from, &to);
    assert_eq!(rel, vec![".".to_string(), "g".to_string()]);
}
