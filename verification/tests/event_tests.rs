use live_wait::event::Event;
use live_wait::announce::{event_for, Received};

fn text(e: Event) -> String {
    String::from_utf8(e.serialize()).unwrap()
}

#[test]
fn data_event() {
    assert_eq!(text(Event::data("data1")), "data: data1\n\n");
    assert_eq!(text(Event::data(String::from("x"))), "data: x\n\n");
}

#[test]
fn all_fields() {
    let e = Event::new(Some("message".into()), Some("a\nb".into()), Some("7".into()));
    assert_eq!(text(e), "event: message\nid: 7\ndata: a\ndata: b\n\n");
}

#[test]
fn no_fields_is_a_blank_line() {
    assert_eq!(text(Event::new(None, None, None)), "\n");
    assert_eq!(text(Event::new(Some("behind".into()), None, None)), "event: behind\n\n");
}

#[test]
fn data_lines_follow_str_lines() {
    // \r\n ends a line like \n
    assert_eq!(text(Event::data("a\r\nb")), "data: a\ndata: b\n\n");
    // a final line ending adds no line
    assert_eq!(text(Event::data("a\n")), "data: a\n\n");
    // empty lines are kept
    assert_eq!(text(Event::data("a\n\nb")), "data: a\ndata: \ndata: b\n\n");
    assert_eq!(text(Event::data("\n")), "data: \n\n");
    // a carriage return not followed by a line feed stays
    assert_eq!(text(Event::data("a\rb\r")), "data: a\rb\r\n\n");
    // empty data has no line
    assert_eq!(text(Event::data("")), "\n");
}

#[test]
fn non_ascii_text_is_utf8() {
    let e = Event::new(Some("é".into()), Some("ü\n€".into()), None);
    assert_eq!(e.serialize(), "event: é\ndata: ü\ndata: €\n\n".as_bytes().to_vec());
}

#[test]
fn broadcast_queue_becomes_a_message_event() {
    let e = event_for(Received::Queue("[{\"name\":\"ann\"}]".to_string())).unwrap();
    assert_eq!(text(e), "event: message\ndata: [{\"name\":\"ann\"}]\n\n");
}

#[test]
fn broadcast_lag_becomes_a_behind_event() {
    let e = event_for(Received::Lagged(3)).unwrap();
    assert_eq!(text(e), "event: behind\n\n");
}

#[test]
fn closed_broadcast_ends_the_stream() {
    assert!(event_for(Received::Closed).is_none());
}

#[test]
fn data_lines_join_back_to_the_data() {
    let data = "a\nb\n\nc";
    let encoded = text(Event::data(data));
    let lines: Vec<&str> = encoded.lines().filter_map(|l| l.strip_prefix("data: ")).collect();
    assert_eq!(lines.join("\n"), data);
}

#[test]
fn each_encoding_has_one_blank_line_at_its_end() {
    let e = Event::new(Some("message".into()), Some("x\n\n\ny".into()), Some("1".into()));
    let encoded = text(e);
    assert!(encoded.ends_with("\n\n"));
    assert_eq!(encoded.matches("\n\n").count(), 1);
}

#[test]
fn a_clone_encodes_the_same() {
    let e = Event::new(Some("message".into()), Some("a\nb".into()), Some("9".into()));
    let c = e.clone();
    assert_eq!(c.serialize(), e.serialize());
}

#[test]
fn encoding_lines_are_field_lines_in_order() {
    let e = Event::new(Some("message".into()), Some("x\ny".into()), Some("1".into()));
    let encoded = text(e);
    let lines: Vec<&str> = encoded.split('\n').collect();
    assert_eq!(lines, vec!["event: message", "id: 1", "data: x", "data: y", "", ""]);
}
