use pty_sidecar::bridge::{RelayAction, RelayEvent, SessionBridge, DEFAULT_COLS, DEFAULT_ROWS};
use pty_sidecar::registry::SessionPhase;
use pty_sidecar::session::{new_session_request, session_id_text, short_session_name, spawn_plan};

fn text(frame: &[u8]) -> RelayEvent {
    RelayEvent::TextFromClient(frame.to_vec())
}

#[test]
fn admit_returns_hello_frame_before_any_data() {
    let mut b = SessionBridge::new(0);
    let id: u128 = 0x00112233445566778899aabbccddeeff;
    let hello = b.admit_session(id, 10).expect("fresh id must be admitted");
    assert_eq!(
        hello,
        b"{\"cmd\":\"session\",\"id\":\"00112233-4455-6677-8899-aabbccddeeff\"}".to_vec()
    );
    let meta = b.session_meta(id).expect("admitted session must be live");
    assert_eq!((meta.rows, meta.cols), (DEFAULT_ROWS, DEFAULT_COLS));
    assert_eq!(meta.created_at_ms, 10);
    assert_eq!(meta.last_activity_ms, 10);
    assert_eq!(meta.phase, SessionPhase::Created);
}

#[test]
fn relay_start_activates_the_session() {
    let mut b = SessionBridge::new(0);
    b.admit_session(1, 0).unwrap();
    assert_eq!(b.session_meta(1).unwrap().phase, SessionPhase::Created);
    b.relay_started(1);
    let meta = b.session_meta(1).unwrap();
    assert_eq!(meta.phase, SessionPhase::Active);
    assert_eq!(meta.last_activity_ms, 0, "activation is not client activity");
    b.relay_started(9); // no such session: nothing happens
    assert_eq!(b.active_sessions(), 1);
}

#[test]
fn session_requests_draw_distinct_ids_with_fitting_plans() {
    let (id1, plan1) = new_session_request();
    let (id2, plan2) = new_session_request();
    assert_ne!(id1, id2, "two draws must not collide");
    assert_eq!(plan1.args[1], short_session_name(id1));
    assert_eq!(plan2.args[1], short_session_name(id2));
    assert_eq!(plan1.program, b"zellij".to_vec());
}

#[test]
fn admit_refuses_duplicate_ids() {
    let mut b = SessionBridge::new(0);
    assert!(b.admit_session(1, 0).is_some());
    assert!(b.admit_session(1, 5).is_none());
    assert_eq!(b.active_sessions(), 1);
}

#[test]
fn binary_input_passes_through_unchanged() {
    let mut b = SessionBridge::new(0);
    b.admit_session(1, 0).unwrap();
    let data: Vec<u8> = (0..=255u8).chain(0..=255u8).collect();
    let acts = b.handle_event(1, RelayEvent::BinaryFromClient(data.clone()), 1);
    assert_eq!(acts.len(), 1);
    match &acts[0] {
        RelayAction::WritePty(d) => assert_eq!(d, &data, "every byte, in order"),
        _ => panic!("binary input must become exactly one PTY write"),
    }
    assert_eq!(b.session_meta(1).unwrap().last_activity_ms, 1);
}

#[test]
fn pty_output_is_forwarded_as_binary() {
    let mut b = SessionBridge::new(0);
    b.admit_session(1, 0).unwrap();
    let chunk = b"\x1b[2J$ ".to_vec();
    let acts = b.handle_event(1, RelayEvent::PtyOutput(chunk.clone()), 2);
    assert_eq!(acts.len(), 1);
    assert!(matches!(&acts[0], RelayAction::SendBinary(d) if d == &chunk));
}

#[test]
fn resize_applies_exactly_the_requested_geometry() {
    let mut b = SessionBridge::new(0);
    b.admit_session(1, 0).unwrap();
    let acts = b.handle_event(1, text(b"{\"cmd\":\"resize\",\"rows\":40,\"cols\":120}"), 3);
    assert_eq!(acts.len(), 1);
    assert!(matches!(acts[0], RelayAction::ResizePty { rows: 40, cols: 120 }));
    let meta = b.session_meta(1).unwrap();
    assert_eq!((meta.rows, meta.cols), (40, 120));
    assert_eq!(meta.last_activity_ms, 3);
}

#[test]
fn ping_is_answered_with_pong() {
    let mut b = SessionBridge::new(0);
    b.admit_session(1, 0).unwrap();
    let acts = b.handle_event(1, text(b"{\"cmd\":\"ping\"}"), 4);
    assert_eq!(acts.len(), 1);
    assert!(matches!(&acts[0], RelayAction::SendText(f) if f == &b"{\"cmd\":\"pong\"}".to_vec()));
}

#[test]
fn malformed_control_text_is_ignored() {
    let mut b = SessionBridge::new(0);
    b.admit_session(1, 0).unwrap();
    for frame in [&b"{oops"[..], b"", b"{\"cmd\":\"resize\",\"rows\":40}", b"hello"] {
        let acts = b.handle_event(1, text(frame), 9);
        assert!(acts.is_empty(), "malformed text must do nothing");
    }
    let meta = b.session_meta(1).unwrap();
    assert_eq!(meta.last_activity_ms, 0, "ignored frames are not activity");
    assert_eq!((meta.rows, meta.cols), (DEFAULT_ROWS, DEFAULT_COLS));
    // the binary flow is unaffected
    let acts = b.handle_event(1, RelayEvent::BinaryFromClient(b"ls\n".to_vec()), 10);
    assert!(matches!(&acts[0], RelayAction::WritePty(d) if d == &b"ls\n".to_vec()));
}

#[test]
fn every_terminating_event_tears_down_once() {
    let triggers: Vec<fn() -> RelayEvent> = vec![
        || RelayEvent::PtyEof,
        || RelayEvent::PtyReadFailed,
        || RelayEvent::PtyWriteFailed,
        || RelayEvent::ConnectionClosed,
        || RelayEvent::ConnectionFailed,
    ];
    for (i, trigger) in triggers.iter().enumerate() {
        let mut b = SessionBridge::new(0);
        let id = i as u128 + 1;
        b.admit_session(id, 0).unwrap();
        let acts = b.handle_event(id, trigger(), 5);
        assert_eq!(acts.len(), 1);
        assert!(matches!(acts[0], RelayAction::Teardown));
        assert!(b.session_meta(id).is_none(), "the registry entry must be gone");
        // a second trigger finds no session: no duplicate teardown
        let acts = b.handle_event(id, trigger(), 6);
        assert!(acts.is_empty());
    }
}

#[test]
fn concurrent_style_double_teardown_kills_once() {
    let mut b = SessionBridge::new(0);
    b.admit_session(1, 0).unwrap();
    let first = b.teardown(1);
    let second = b.teardown(1);
    assert!(first, "the first teardown owes the one kill");
    assert!(!second, "the second teardown owes nothing");
    assert!(b.session_meta(1).is_none());
}

#[test]
fn five_sessions_are_isolated() {
    let mut b = SessionBridge::new(0);
    let ids: Vec<u128> = vec![11, 22, 33, 44, 55];
    let mut hellos = Vec::new();
    for &id in &ids {
        hellos.push(b.admit_session(id, 0).expect("distinct ids must all be admitted"));
    }
    for i in 0..hellos.len() {
        for j in i + 1..hellos.len() {
            assert_ne!(hellos[i], hellos[j], "session frames carry distinct ids");
        }
    }
    assert_eq!(b.active_sessions(), 5);
    // bytes flow independently per session
    let acts = b.handle_event(33, RelayEvent::BinaryFromClient(b"x".to_vec()), 1);
    assert_eq!(acts.len(), 1);
    // terminating one leaves the other four untouched
    b.handle_event(22, RelayEvent::ConnectionClosed, 2);
    assert_eq!(b.active_sessions(), 4);
    for &id in &[11, 33, 44, 55] {
        let meta = b.session_meta(id).expect("unrelated session must survive");
        assert_eq!((meta.rows, meta.cols), (DEFAULT_ROWS, DEFAULT_COLS));
    }
    let acts = b.handle_event(44, RelayEvent::PtyOutput(b"y".to_vec()), 3);
    assert_eq!(acts.len(), 1);
}

#[test]
fn reaper_evicts_exactly_the_stale_sessions() {
    let mut b = SessionBridge::new(0);
    b.admit_session(1, 0).unwrap();
    b.admit_session(2, 100_000).unwrap();
    let reaped = b.reap(70_000, 60_000);
    assert_eq!(reaped, vec![1], "only the silent session is evicted");
    assert!(b.session_meta(1).is_none(), "the reaped session is gone");
    assert!(b.session_meta(2).is_some(), "the active session is untouched");
    // the sweep is idempotent
    let reaped = b.reap(70_000, 60_000);
    assert!(reaped.is_empty());
}

#[test]
fn activity_protects_a_session_from_the_reaper() {
    let mut b = SessionBridge::new(0);
    b.admit_session(1, 0).unwrap();
    b.handle_event(1, RelayEvent::BinaryFromClient(b"k".to_vec()), 65_000);
    let reaped = b.reap(70_000, 60_000);
    assert!(reaped.is_empty(), "recent activity must reset staleness");
}

#[test]
fn round_trip_samples_come_from_ping_pong_pairing() {
    let mut b = SessionBridge::new(0);
    b.admit_session(1, 0).unwrap();
    let acts = b.start_ping(1, 1000);
    assert_eq!(acts.len(), 1);
    assert!(matches!(&acts[0], RelayAction::SendText(f) if f == &b"{\"cmd\":\"ping\"}".to_vec()));
    assert!(b.latency_report().is_none(), "no sample before the pong arrives");
    let acts = b.handle_event(1, text(b"{\"cmd\":\"pong\"}"), 1030);
    assert!(acts.is_empty());
    let rep = b.latency_report().expect("the pong closes the sample");
    assert_eq!(rep.sample_count, 1);
    assert_eq!(rep.min_ms, 30);
    assert_eq!(rep.max_ms, 30);
    assert_eq!(rep.high_latency_count, 0);
}

#[test]
fn unmatched_pong_records_nothing() {
    let mut b = SessionBridge::new(0);
    b.admit_session(1, 0).unwrap();
    b.handle_event(1, text(b"{\"cmd\":\"pong\"}"), 50);
    assert!(b.latency_report().is_none());
}

#[test]
fn metrics_request_is_answered_from_registry_state() {
    let mut b = SessionBridge::new(1_000);
    b.connection_arrived();
    b.connection_arrived();
    b.admit_session(1, 2_000).unwrap();
    let acts = b.handle_event(1, text(b"{\"cmd\":\"metrics\"}"), 6_000);
    assert_eq!(acts.len(), 1);
    match &acts[0] {
        RelayAction::SendText(f) => assert_eq!(
            f,
            &b"{\"status\":\"healthy\",\"uptime_secs\":5,\"sessions_active\":1,\"connections_total\":2}"
                .to_vec()
        ),
        _ => panic!("metrics must be answered with a text frame"),
    }
}

#[test]
fn events_on_unknown_sessions_do_nothing() {
    let mut b = SessionBridge::new(0);
    let acts = b.handle_event(9, RelayEvent::BinaryFromClient(b"x".to_vec()), 1);
    assert!(acts.is_empty());
    let acts = b.handle_event(9, RelayEvent::ConnectionClosed, 2);
    assert!(acts.is_empty());
    let acts = b.start_ping(9, 3);
    assert!(acts.is_empty());
}

#[test]
fn session_id_text_is_hyphenated_lowercase_hex() {
    let id: u128 = 0x00112233445566778899aabbccddeeff;
    assert_eq!(session_id_text(id), b"00112233-4455-6677-8899-aabbccddeeff".to_vec());
    assert_eq!(session_id_text(0), b"00000000-0000-0000-0000-000000000000".to_vec());
    assert_eq!(short_session_name(id), b"d00112233".to_vec());
}

#[test]
fn spawn_plan_names_the_multiplexer_and_environment() {
    let id: u128 = 0x00112233445566778899aabbccddeeff;
    let plan = spawn_plan(id);
    assert_eq!(plan.program, b"zellij".to_vec());
    assert_eq!(plan.args, vec![b"-s".to_vec(), b"d00112233".to_vec()]);
    assert_eq!(
        plan.env,
        vec![
            (b"TERM".to_vec(), b"xterm-256color".to_vec()),
            (b"COLORTERM".to_vec(), b"truecolor".to_vec()),
            (b"EDITOR".to_vec(), b"hx".to_vec()),
        ]
    );
}

#[test]
fn counters_track_connections_and_failures() {
    let mut b = SessionBridge::new(0);
    assert_eq!(b.connection_arrived(), 1);
    assert_eq!(b.connection_arrived(), 2);
    assert_eq!(b.handshake_failed(), 1);
    assert_eq!(b.connection_arrived(), 3);
}
