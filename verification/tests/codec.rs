use pty_sidecar::codec::{decode_control, encode_control, encode_metrics, ControlMessage};

fn decode(s: &[u8]) -> Option<ControlMessage> {
    decode_control(s)
}

#[test]
fn encode_ping_is_canonical() {
    assert_eq!(encode_control(&ControlMessage::Ping), b"{\"cmd\":\"ping\"}".to_vec());
    assert_eq!(encode_control(&ControlMessage::Pong), b"{\"cmd\":\"pong\"}".to_vec());
    assert_eq!(encode_control(&ControlMessage::Metrics), b"{\"cmd\":\"metrics\"}".to_vec());
}

#[test]
fn encode_resize_is_canonical() {
    let enc = encode_control(&ControlMessage::Resize { rows: 40, cols: 120 });
    assert_eq!(enc, b"{\"cmd\":\"resize\",\"rows\":40,\"cols\":120}".to_vec());
}

#[test]
fn encode_session_is_canonical() {
    let enc = encode_control(&ControlMessage::Session { id: b"abc-123".to_vec() });
    assert_eq!(enc, b"{\"cmd\":\"session\",\"id\":\"abc-123\"}".to_vec());
}

#[test]
fn encode_escapes_quotes_backslashes_and_controls() {
    let enc = encode_control(&ControlMessage::Error {
        message: b"a\"b\\c\nd".to_vec(),
    });
    assert_eq!(
        enc,
        b"{\"cmd\":\"error\",\"message\":\"a\\\"b\\\\c\\u000ad\"}".to_vec()
    );
}

#[test]
fn decode_inverts_encode() {
    let cases = vec![
        ControlMessage::Ping,
        ControlMessage::Pong,
        ControlMessage::Metrics,
        ControlMessage::Resize { rows: 0, cols: 65535 },
        ControlMessage::Resize { rows: 24, cols: 80 },
        ControlMessage::Session { id: b"de0db33f-0000-4321-8888-1234567890ab".to_vec() },
        ControlMessage::Error { message: b"spawn failed: \"zellij\"\\\x01\x1f".to_vec() },
    ];
    for m in cases {
        let enc = encode_control(&m);
        let back = decode(&enc).expect("canonical frame must decode");
        match (&m, &back) {
            (ControlMessage::Ping, ControlMessage::Ping) => (),
            (ControlMessage::Pong, ControlMessage::Pong) => (),
            (ControlMessage::Metrics, ControlMessage::Metrics) => (),
            (
                ControlMessage::Resize { rows: a, cols: b },
                ControlMessage::Resize { rows: c, cols: d },
            ) => {
                assert_eq!(a, c);
                assert_eq!(b, d);
            }
            (ControlMessage::Session { id: a }, ControlMessage::Session { id: b }) => {
                assert_eq!(a, b)
            }
            (ControlMessage::Error { message: a }, ControlMessage::Error { message: b }) => {
                assert_eq!(a, b)
            }
            _ => panic!("variant changed across the round trip"),
        }
    }
}

#[test]
fn decode_accepts_any_field_order_and_whitespace() {
    let m = decode(b" { \"rows\" : 40 , \"cols\" : 120 , \"cmd\" : \"resize\" } ")
        .expect("reordered resize must decode");
    assert!(matches!(m, ControlMessage::Resize { rows: 40, cols: 120 }));
}

#[test]
fn decode_ignores_unknown_members() {
    let m = decode(b"{\"cmd\":\"ping\",\"extra\":\"x\"}").expect("unknown member is ignored");
    assert!(matches!(m, ControlMessage::Ping));
}

#[test]
fn decode_handles_standard_escapes() {
    let m = decode(b"{\"cmd\":\"error\",\"message\":\"\\u0041\\t\\\\\\\"\\/\"}")
        .expect("escapes must decode");
    match m {
        ControlMessage::Error { message } => assert_eq!(message, b"A\t\\\"/".to_vec()),
        _ => panic!("wrong variant"),
    }
}

#[test]
fn decode_rejects_malformed_frames() {
    let bad: Vec<&[u8]> = vec![
        b"",
        b"{",
        b"{oops",
        b"not json at all",
        b"{\"cmd\":\"resize\",\"rows\":40}",
        b"{\"cmd\":\"resize\",\"rows\":40,\"cols\":70000}",
        b"{\"cmd\":\"resize\",\"rows\":040,\"cols\":120}",
        b"{\"cmd\":\"resize\",\"rows\":123456,\"cols\":120}",
        b"{\"cmd\":\"resize\",\"rows\":-1,\"cols\":120}",
        b"{\"cmd\":\"resize\",\"rows\":\"40\",\"cols\":120}",
        b"{\"cmd\":\"launch-missiles\"}",
        b"{\"cmd\":\"ping\"} trailing",
        b"{\"cmd\":\"ping\",\"cmd\":\"pong\"}",
        b"{\"cmd\":42}",
        b"{\"cmd\":\"session\"}",
        b"{\"cmd\":\"error\"}",
        b"[\"cmd\",\"ping\"]",
        b"{\"cmd\":\"ping\"",
        b"{\"cmd\":\"pi\x01ng\"}",
        b"{\"cmd\":\"resize\",\"rows\":4.5,\"cols\":120}",
        b"{\"cmd\":\"error\",\"message\":\"\\ud83d\\ude00\"}",
        b"{\"cmd\":\"error\",\"message\":\"\\q\"}",
        b"{\"cmd\":\"error\",\"message\":\"\\u00zz\"}",
    ];
    for frame in bad {
        assert!(
            decode(frame).is_none(),
            "frame {:?} should be rejected",
            String::from_utf8_lossy(frame)
        );
    }
}

#[test]
fn encoded_frames_parse_as_json_elsewhere() {
    let enc = encode_control(&ControlMessage::Session { id: b"s-1 \"q\"".to_vec() });
    let v: serde_json::Value = serde_json::from_slice(&enc).expect("must be valid JSON");
    assert_eq!(v["cmd"], "session");
    assert_eq!(v["id"], "s-1 \"q\"");

    let enc = encode_control(&ControlMessage::Resize { rows: 40, cols: 120 });
    let v: serde_json::Value = serde_json::from_slice(&enc).expect("must be valid JSON");
    assert_eq!(v["cmd"], "resize");
    assert_eq!(v["rows"], 40);
    assert_eq!(v["cols"], 120);

    let enc = encode_control(&ControlMessage::Error { message: "tab\there\n".into() });
    let v: serde_json::Value = serde_json::from_slice(&enc).expect("must be valid JSON");
    assert_eq!(v["message"], "tab\there\n");
}

#[test]
fn metrics_frame_is_canonical_and_valid_json() {
    let enc = encode_metrics(5, 3, 17);
    assert_eq!(
        enc,
        b"{\"status\":\"healthy\",\"uptime_secs\":5,\"sessions_active\":3,\"connections_total\":17}"
            .to_vec()
    );
    let v: serde_json::Value = serde_json::from_slice(&enc).expect("must be valid JSON");
    assert_eq!(v["status"], "healthy");
    assert_eq!(v["uptime_secs"], 5);
}
