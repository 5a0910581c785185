use aetheria::sse::{
    drain_events, failure_message, is_session_expired, member_event, parse_event_block,
    stream_failure_message, SseEventKind, StreamEvent, SESSION_EXPIRED_ERROR,
};

#[test]
fn strips_exactly_one_leading_space_preserving_meaningful_whitespace() {
    let (kind, data) = parse_event_block("data:  world");
    assert_eq!(kind, SseEventKind::Data);
    assert_eq!(data, Some(" world".to_string()));
}

#[test]
fn data_with_no_leading_space_is_unchanged() {
    let (_, data) = parse_event_block("data:hello");
    assert_eq!(data, Some("hello".to_string()));
}

#[test]
fn joins_multiple_data_lines_in_one_block_with_newline() {
    let (kind, data) = parse_event_block("data: line one\ndata: line two");
    assert_eq!(kind, SseEventKind::Data);
    assert_eq!(data, Some("line one\nline two".to_string()));
}

#[test]
fn routes_error_event_blocks_to_error_with_data_joined_the_same_way() {
    let (kind, data) = parse_event_block("event: error\ndata: boom");
    assert_eq!(kind, SseEventKind::Error);
    assert_eq!(data, Some("boom".to_string()));
}

#[test]
fn block_with_no_data_line_yields_none() {
    let (kind, data) = parse_event_block("event: ping");
    assert_eq!(kind, SseEventKind::Data);
    assert_eq!(data, None);
}

#[test]
fn member_blocks_are_recognised() {
    let (kind, _) = parse_event_block("event: member\r\ndata: {}");
    assert_eq!(kind, SseEventKind::Member);
}

#[test]
fn draining_returns_complete_blocks_and_keeps_the_rest() {
    let mut buffer = String::from("data: Hel\n\ndata: lo\n\nevent: error\ndata: bad\n\ndata: par");
    let events = drain_events(&mut buffer);
    assert_eq!(buffer, "data: par");
    assert_eq!(events.len(), 3);
    assert!(matches!(&events[0], StreamEvent::Delta(d) if d == "Hel"));
    assert!(matches!(&events[1], StreamEvent::Delta(d) if d == "lo"));
    assert!(matches!(&events[2], StreamEvent::Error(e) if e == "bad"));
}

#[test]
fn member_events_need_an_id_and_a_name() {
    let mut buffer = String::from(
        "event: member\ndata: {\"character_id\":\"c1\",\"name\":\"Sera\"}\n\nevent: member\ndata: {\"character_id\":\"\",\"name\":\"x\"}\n\n",
    );
    let events = drain_events(&mut buffer);
    assert_eq!(buffer, "");
    assert_eq!(events.len(), 1);
    match &events[0] {
        StreamEvent::Member { character_id, name } => {
            assert_eq!(character_id, "c1");
            assert_eq!(name, "Sera");
        }
        other => panic!("unexpected {other:?}"),
    }
}

#[test]
fn member_event_is_built_from_both_fields() {
    assert!(member_event(Some("a".into()), Some("b".into())).is_some());
    assert!(member_event(Some("a".into()), None).is_none());
    assert!(member_event(Some("".into()), Some("b".into())).is_none());
}

#[test]
fn failure_message_prefers_the_json_message() {
    assert_eq!(stream_failure_message(500, Some("{\"code\":\"x\",\"message\":\"model overloaded\"}".into())), "model overloaded");
    assert_eq!(stream_failure_message(502, Some("gateway down".into())), "gateway down");
    assert_eq!(stream_failure_message(503, Some("   ".into())), "request failed with status 503");
    assert_eq!(stream_failure_message(404, None), "request failed with status 404");
}

#[test]
fn an_empty_json_message_falls_back_to_the_body() {
    assert_eq!(failure_message(400, Some("{\"message\":\"\"}".into()), Some(String::new())), "{\"message\":\"\"}");
}

#[test]
fn session_expiry_is_recognised() {
    assert!(is_session_expired(SESSION_EXPIRED_ERROR));
    assert!(!is_session_expired("boom"));
}

#[test]
fn a_carriage_return_is_stripped_only_before_a_line_feed() {
    let (_, data) = parse_event_block("data: x\r");
    assert_eq!(data, Some("x\r".to_string()));
    let (_, data) = parse_event_block("data: x\r\ndata: y");
    assert_eq!(data, Some("x\ny".to_string()));
}

#[test]
fn events_do_not_depend_on_how_the_stream_is_chunked() {
    let text = "data: he\n\nevent: member\ndata: {\"character_id\":\"c1\",\"name\":\"Ann\"}\n\ndata: llo\r\n\nevent: error\ndata: boom\n\ndata: tail";
    let whole = {
        let mut buf = text.to_string();
        let events = drain_events(&mut buf);
        (format!("{events:?}"), buf)
    };
    let chars: Vec<char> = text.chars().collect();
    for size in 1..8 {
        let mut buf = String::new();
        let mut events = Vec::new();
        for chunk in chars.chunks(size) {
            buf.extend(chunk.iter());
            events.extend(drain_events(&mut buf));
        }
        assert_eq!((format!("{events:?}"), buf), whole, "chunk size {size}");
    }
}
