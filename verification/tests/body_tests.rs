use live_wait::body::{BodyStep, SseBody};
use live_wait::event::Event;

fn ready(step: BodyStep) -> Vec<u8> {
    match step {
        BodyStep::Ready(c) => c,
        BodyStep::NeedEvent => panic!("the body asked for an event"),
    }
}

fn needs_event(step: &BodyStep) -> bool {
    matches!(step, BodyStep::NeedEvent)
}

#[test]
fn empty_buffer_reads_nothing() {
    let mut body = SseBody::new();
    assert_eq!(ready(body.read(0)), Vec::<u8>::new());
    assert!(needs_event(&body.read(5)));
}

#[test]
fn events_are_read_in_pieces_and_in_order() {
    let mut body = SseBody::new();
    let mut out: Vec<u8> = Vec::new();
    let events = vec![Event::data("data1"), Event::data("data2"), Event::data("data3")];
    let mut next = events.into_iter();
    loop {
        let step = body.read(4);
        match step {
            BodyStep::NeedEvent => body.supply(next.next()),
            BodyStep::Ready(chunk) => {
                if chunk.is_empty() {
                    break;
                }
                assert!(chunk.len() <= 4);
                out.extend(chunk);
            }
        }
    }
    assert_eq!(String::from_utf8(out).unwrap(), "data: data1\n\ndata: data2\n\ndata: data3\n\n");
    // once ended, the body stays ended
    assert_eq!(ready(body.read(10)), Vec::<u8>::new());
}

#[test]
fn a_large_buffer_takes_a_whole_event_then_waits() {
    let mut body = SseBody::new();
    assert!(needs_event(&body.read(100)));
    body.supply(Some(Event::data("x")));
    assert_eq!(ready(body.read(100)), b"data: x\n\n".to_vec());
    assert!(needs_event(&body.read(100)));
    body.supply(None);
    assert_eq!(ready(body.read(100)), Vec::<u8>::new());
}

#[test]
fn exact_fit_waits_for_the_next_event() {
    let mut body = SseBody::new();
    body.supply(Some(Event::data("ab")));
    assert_eq!(ready(body.read(5)), b"data:".to_vec());
    assert_eq!(ready(body.read(5)), b" ab\n\n".to_vec());
    assert!(needs_event(&body.read(1)));
}
