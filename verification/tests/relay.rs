use openchamber::frame::FrameParser;
use openchamber::json::JsonValue;
use openchamber::relay::{ConnectorPhase, RelayOutput, SseManager, StatusEvent};

fn frame_bytes(json: &str) -> Vec<u8> {
    let mut out = Vec::new();
    out.extend_from_slice(b"data: ");
    out.extend_from_slice(json.as_bytes());
    out.extend_from_slice(b"\n\n");
    out
}

fn deliveries(outs: &[RelayOutput]) -> usize {
    outs.iter()
        .filter(|o| matches!(o, RelayOutput::Deliver(_)))
        .count()
}

fn notifications(outs: &[RelayOutput]) -> usize {
    outs.iter()
        .filter(|o| matches!(o, RelayOutput::Notify(_)))
        .count()
}

fn fresh_manager() -> SseManager {
    let mut m = SseManager::new(String::from("http://127.0.0.1:1/api"), None, 8, 0);
    let _ = m.on_connect_success();
    m
}

#[test]
fn parser_split_points_agree() {
    let stream = b"id: 7\r\ndata: {\"type\":\"a\"}\n\n: keep-alive\ndata: {\"x\":\ndata: 1}\n\nid: 8\n";
    let mut whole = FrameParser::new();
    let all = whole.push_chunk(stream);
    for split in 0..stream.len() {
        let mut p = FrameParser::new();
        let mut got = p.push_chunk(&stream[..split]);
        got.extend(p.push_chunk(&stream[split..]));
        assert_eq!(got.len(), all.len());
        for (a, b) in got.iter().zip(all.iter()) {
            assert_eq!(a.data, b.data);
            assert_eq!(a.id, b.id);
        }
    }
    assert_eq!(all.len(), 2);
    assert_eq!(all[0].data, b"{\"type\":\"a\"}".to_vec());
    assert_eq!(all[0].id, Some(b"7".to_vec()));
    assert_eq!(all[1].data, b"{\"x\":\n1}".to_vec());
    assert_eq!(all[1].id, None);
}

#[test]
fn parser_drops_comments_and_blank_frames() {
    let mut p = FrameParser::new();
    let frames = p.push_chunk(b": hello\n\n: again\ndata:\n\n");
    assert_eq!(frames.len(), 0);
}

#[test]
fn replay_buffer_keeps_newest() {
    let mut buf = openchamber::buffer::ReplayBuffer::new(3);
    for i in 0..5 {
        buf.push(JsonValue::Str(format!("e{}", i)));
    }
    let snap = buf.snapshot();
    assert_eq!(snap.len(), 3);
    let texts: Vec<&str> = snap
        .iter()
        .map(|v| match v {
            JsonValue::Str(s) => s.as_str(),
            _ => panic!("expected a string event"),
        })
        .collect();
    assert_eq!(texts, vec!["e2", "e3", "e4"]);
}

#[test]
fn snapshot_is_independent_of_later_pushes() {
    let mut buf = openchamber::buffer::ReplayBuffer::new(2);
    buf.push(JsonValue::Str(String::from("first")));
    let snap = buf.snapshot();
    buf.push(JsonValue::Str(String::from("second")));
    buf.push(JsonValue::Str(String::from("third")));
    assert_eq!(snap.len(), 1);
    assert!(matches!(&snap[0], JsonValue::Str(s) if s == "first"));
}

#[test]
fn empty_assistant_update_is_dropped() {
    let mut m = fresh_manager();
    let outs = m.on_chunk(
        &frame_bytes(
            "{\"type\":\"message.updated\",\"properties\":{\"id\":\"m1\",\"role\":\"assistant\",\"parts\":[]}}",
        ),
        1,
    );
    assert_eq!(deliveries(&outs), 0);
    assert_eq!(notifications(&outs), 0);
    assert_eq!(m.replay_buffer().len(), 0);
}

#[test]
fn duplicate_completions_notify_once() {
    let mut m = fresh_manager();
    let frame =
        "{\"type\":\"message.updated\",\"properties\":{\"id\":\"m2\",\"status\":\"completed\"}}";
    let first = m.on_chunk(&frame_bytes(frame), 1);
    let second = m.on_chunk(&frame_bytes(frame), 2);
    assert_eq!(notifications(&first) + notifications(&second), 1);
    assert_eq!(deliveries(&first), 1);
    assert_eq!(deliveries(&second), 1);
}

#[test]
fn completion_via_step_finish_part_event() {
    let mut m = fresh_manager();
    let frame = "{\"type\":\"message.part.updated\",\"properties\":{\"part\":{\"type\":\"step-finish\",\"reason\":\"stop\",\"messageID\":\"m3\"}}}";
    let outs = m.on_chunk(&frame_bytes(frame), 1);
    assert_eq!(notifications(&outs), 1);
    let repeat = m.on_chunk(&frame_bytes(frame), 2);
    assert_eq!(notifications(&repeat), 0);
}

#[test]
fn notification_text_uses_merged_metadata() {
    let mut m = fresh_manager();
    let meta1 = "{\"type\":\"message.updated\",\"properties\":{\"id\":\"m4\",\"info\":{\"modelID\":\"sonnet-3-5-plus\"}}}";
    let meta2 = "{\"type\":\"message.updated\",\"properties\":{\"id\":\"m4\",\"info\":{\"mode\":\"BUILD\"}}}";
    let done =
        "{\"type\":\"message.updated\",\"properties\":{\"id\":\"m4\",\"status\":\"completed\"}}";
    m.on_chunk(&frame_bytes(meta1), 1);
    m.on_chunk(&frame_bytes(meta2), 2);
    let outs = m.on_chunk(&frame_bytes(done), 3);
    let notice = outs
        .iter()
        .find_map(|o| match o {
            RelayOutput::Notify(n) => Some(n),
            _ => None,
        })
        .expect("one notification");
    assert_eq!(notice.message_id, "m4");
    assert_eq!(notice.title, "Build agent is ready");
    assert_eq!(notice.body, "Sonnet 3.5 Plus completed the task");
}

#[test]
fn envelope_payload_is_unwrapped() {
    let mut m = fresh_manager();
    let outs = m.on_chunk(
        &frame_bytes("{\"directory\":\"/tmp/w\",\"payload\":{\"type\":\"session.updated\"}}"),
        1,
    );
    let delivered = outs
        .iter()
        .find_map(|o| match o {
            RelayOutput::Deliver(v) => Some(v),
            _ => None,
        })
        .expect("one delivery");
    let ty = delivered.get_str("type").expect("a type");
    assert_eq!(ty, "session.updated");
    assert!(delivered.get("payload").is_none());
}

#[test]
fn malformed_frame_is_dropped_with_diagnostic() {
    let mut m = fresh_manager();
    let mut bytes = Vec::new();
    bytes.extend_from_slice(b"data: not json\n\n");
    bytes.extend_from_slice(&frame_bytes("{\"type\":\"ok\"}"));
    let outs = m.on_chunk(&bytes, 1);
    let raws: Vec<&Vec<u8>> = outs
        .iter()
        .filter_map(|o| match o {
            RelayOutput::Status(StatusEvent::ParseError { raw }) => Some(raw),
            _ => None,
        })
        .collect();
    assert_eq!(raws.len(), 1);
    assert_eq!(raws[0], &b"not json".to_vec());
    assert_eq!(deliveries(&outs), 1);
    assert_eq!(m.replay_buffer().len(), 1);
}

#[test]
fn event_id_advances_and_survives_reconnect() {
    let mut m = fresh_manager();
    let mut bytes = Vec::new();
    bytes.extend_from_slice(b"id: 42\n");
    bytes.extend_from_slice(&frame_bytes("{\"type\":\"a\"}"));
    m.on_chunk(&bytes, 1);
    let params = m.connect_params();
    assert_eq!(params.last_event_id, Some(b"42".to_vec()));
    let errs = m.on_error(String::from("read failed"));
    assert!(matches!(
        &errs[0],
        RelayOutput::Status(StatusEvent::Error { hint }) if hint == "read failed"
    ));
    let (_, _) = m.backoff_begin();
    let _ = m.on_connect_success();
    assert_eq!(m.connect_params().last_event_id, Some(b"42".to_vec()));
}

#[test]
fn backoff_doubles_to_ceiling() {
    let mut m = SseManager::new(String::from("http://h"), None, 4, 0);
    let mut seen = Vec::new();
    for _ in 0..6 {
        let (delay, outs) = m.backoff_begin();
        seen.push(delay);
        assert!(matches!(
            outs[0],
            RelayOutput::Status(StatusEvent::Reconnecting { delay_ms, .. }) if delay_ms == delay
        ));
    }
    assert_eq!(seen, vec![500, 1000, 2000, 4000, 8000, 8000]);
}

#[test]
fn success_resets_backoff() {
    let mut m = SseManager::new(String::from("http://h"), None, 4, 0);
    m.backoff_begin();
    m.backoff_begin();
    let _ = m.on_connect_success();
    let (delay, _) = m.backoff_begin();
    assert_eq!(delay, 500);
}

#[test]
fn directory_change_waits_for_reconnect() {
    let mut m = SseManager::new(
        String::from("http://127.0.0.1:9/api/"),
        Some(String::from("/old")),
        4,
        0,
    );
    let _ = m.on_connect_success();
    m.on_chunk(b"data: {\"ty", 1);
    m.set_directory(Some(String::from("/new")));
    let outs = m.on_chunk(b"pe\":\"a\"}\n\n", 2);
    assert_eq!(deliveries(&outs), 1);
    let params = m.connect_params();
    assert_eq!(params.url, "http://127.0.0.1:9/api/global/event");
    assert_eq!(params.directory, "/new");
}

#[test]
fn heartbeat_after_quiet_gap() {
    let mut m = fresh_manager();
    let quiet = m.on_chunk(b"", 20_000);
    assert!(!quiet
        .iter()
        .any(|o| matches!(o, RelayOutput::Status(StatusEvent::Heartbeat { .. }))));
    m.increment_subscribers();
    m.increment_subscribers();
    let outs = m.on_chunk(b"", 20_001);
    assert!(outs.iter().any(|o| matches!(
        o,
        RelayOutput::Status(StatusEvent::Heartbeat { subscribers: 2 })
    )));
    let again = m.on_chunk(b"", 20_002);
    assert!(!again
        .iter()
        .any(|o| matches!(o, RelayOutput::Status(StatusEvent::Heartbeat { .. }))));
}

#[test]
fn subscriber_count_tracks_and_saturates_at_zero() {
    let mut m = SseManager::new(String::from("http://h"), None, 4, 0);
    assert_eq!(m.subscriber_count(), 0);
    m.increment_subscribers();
    m.increment_subscribers();
    m.decrement_subscribers();
    assert_eq!(m.subscriber_count(), 1);
    m.decrement_subscribers();
    m.decrement_subscribers();
    assert_eq!(m.subscriber_count(), 0);
}

#[test]
fn stop_flag_is_cooperative() {
    let mut m = SseManager::new(String::from("http://h"), None, 4, 0);
    assert!(!m.is_stopped());
    m.stop();
    assert!(m.is_stopped());
}

#[test]
fn connected_status_names_directory() {
    let mut m = SseManager::new(String::from("http://h"), Some(String::from("/w")), 4, 0);
    let outs = m.on_connect_success();
    assert!(matches!(
        &outs[0],
        RelayOutput::Status(StatusEvent::Connected { directory }) if directory == "/w"
    ));
}

#[test]
fn parse_agrees_with_serde_json_acceptance() {
    let cases: [&[u8]; 6] = [
        b"{\"a\":1}",
        b"[1,2,3]",
        b"\"text\"",
        b"{bad}",
        b"",
        b"{\"nested\":{\"deep\":[true,null,1.5]}}",
    ];
    for c in cases {
        let mine = openchamber::json::parse_json(c).is_some();
        let serde = serde_json::from_slice::<serde_json::Value>(c).is_ok();
        assert_eq!(mine, serde);
    }
}

#[test]
fn connector_walks_its_phases() {
    let mut m = SseManager::new(String::from("http://h"), None, 4, 0);
    assert!(matches!(m.phase(), ConnectorPhase::Connecting));
    let _ = m.on_connect_success();
    assert!(matches!(m.phase(), ConnectorPhase::Streaming));
    let _ = m.on_error(String::from("stream ended"));
    assert!(matches!(m.phase(), ConnectorPhase::Backoff));
    m.backoff_elapsed();
    assert!(matches!(m.phase(), ConnectorPhase::Connecting));
    let (_, _) = m.backoff_begin();
    assert!(matches!(m.phase(), ConnectorPhase::Backoff));
    m.stop();
    assert!(matches!(m.phase(), ConnectorPhase::Stopped));
    m.backoff_elapsed();
    assert!(matches!(m.phase(), ConnectorPhase::Stopped));
}
