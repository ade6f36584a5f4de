use live_wait::queue::WaitQueue;
use live_wait::student::{Student, Timestamp};

fn student(name: &str, comment: &str, secs: i64) -> Student {
    Student::new(name.to_string(), comment.to_string(), Timestamp { secs, nanos: 0 })
}

fn names(q: &WaitQueue) -> Vec<String> {
    q.names()
}

#[test]
fn test_push_pop() {
    // `PUT /push?event=test1` puts "test1" in the queue; `GET /pop` serves it.
    let mut queue = WaitQueue::new();
    queue.add(String::from("test1"));
    assert_eq!(queue.len(), 1);
    assert_eq!(queue.pop(), "test1".to_string());
}

#[test]
fn a_new_queue_is_empty() {
    let queue = WaitQueue::new();
    assert_eq!(queue.len(), 0);
    assert!(queue.names().is_empty());
}

#[test]
fn served_in_the_order_they_joined() {
    let mut queue = WaitQueue::new();
    queue.add("ann".to_string());
    queue.add("bob".to_string());
    queue.push(student("cy", "question 3", 5));
    assert_eq!(queue.pop(), "ann");
    queue.add("dee".to_string());
    assert_eq!(queue.pop(), "bob");
    assert_eq!(queue.pop(), "cy");
    assert_eq!(queue.pop(), "dee");
    assert_eq!(queue.len(), 0);
}

#[test]
fn add_stamps_the_current_time_and_empty_comment() {
    let mut queue = WaitQueue::new();
    queue.add("ann".to_string());
    let all = queue.snapshot();
    assert_eq!(all.len(), 1);
    assert_eq!(all[0].name, "ann");
    assert_eq!(all[0].comment, "");
    // the clock was read: some time after 2020-01-01
    assert!(all[0].join_time.secs > 1_577_836_800);
    assert!(all[0].join_time.nanos < 1_000_000_000);
}

#[test]
fn push_replaces_the_join_time() {
    let mut queue = WaitQueue::new();
    queue.push(student("ann", "help", 7));
    let all = queue.snapshot();
    assert_eq!(all[0].comment, "help");
    assert!(all[0].join_time.secs > 1_577_836_800);
}

#[test]
fn join_uses_the_given_time() {
    let mut queue = WaitQueue::new();
    queue.join(student("ann", "hi", 1), Timestamp { secs: 42, nanos: 7 });
    let all = queue.snapshot();
    assert_eq!(all[0].name, "ann");
    assert_eq!(all[0].comment, "hi");
    assert_eq!(all[0].join_time.secs, 42);
    assert_eq!(all[0].join_time.nanos, 7);
}

#[test]
fn leave_removes_every_student_of_that_name() {
    let mut queue = WaitQueue::new();
    for n in ["ann", "bob", "ann", "cy", "ann"] {
        queue.add(n.to_string());
    }
    queue.leave(&"ann".to_string());
    assert_eq!(names(&queue), vec!["bob".to_string(), "cy".to_string()]);
    queue.leave(&"ann".to_string());
    assert_eq!(names(&queue), vec!["bob".to_string(), "cy".to_string()]);
    queue.leave(&"zed".to_string());
    assert_eq!(names(&queue), vec!["bob".to_string(), "cy".to_string()]);
    queue.leave(&"cy".to_string());
    assert_eq!(names(&queue), vec!["bob".to_string()]);
}

#[test]
fn snapshot_copies_the_queue_in_order() {
    let mut queue = WaitQueue::new();
    queue.join(student("ann", "a", 1), Timestamp { secs: 10, nanos: 0 });
    queue.join(student("bob", "b", 1), Timestamp { secs: 20, nanos: 0 });
    let all = queue.snapshot();
    assert_eq!(all.len(), 2);
    assert_eq!((all[0].name.as_str(), all[0].comment.as_str(), all[0].join_time.secs), ("ann", "a", 10));
    assert_eq!((all[1].name.as_str(), all[1].comment.as_str(), all[1].join_time.secs), ("bob", "b", 20));
    assert_eq!(queue.len(), 2);
}

#[test]
fn names_json_is_a_json_array() {
    let mut queue = WaitQueue::new();
    assert_eq!(queue.names_json(), "[]");
    queue.add("ann".to_string());
    queue.add("b\"o\nb".to_string());
    assert_eq!(queue.names_json(), "[\"ann\",\"b\\\"o\\nb\"]");
}

#[test]
fn names_message_frames_the_json() {
    let mut queue = WaitQueue::new();
    queue.add("ann".to_string());
    queue.add("bob".to_string());
    assert_eq!(queue.names_message(), "data: [\"ann\",\"bob\"]\n\n");
    let empty = WaitQueue::new();
    assert_eq!(empty.names_message(), "data: []\n\n");
}

#[test]
fn names_message_is_the_data_event_of_the_json() {
    let mut queue = WaitQueue::new();
    queue.add("ann".to_string());
    let json = queue.names_json();
    assert_eq!(
        queue.names_message().into_bytes(),
        live_wait::event::Event::data(json).serialize()
    );
}
