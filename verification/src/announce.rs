//! Announcing the queue to its watchers: the events of the live stream, and the
//! one-shot message of names.
use vstd::prelude::*;
use vstd::utf8::{encode_utf8, is_ascii_chars_encode_utf8};
use crate::event::{
    Event, EventView, no_line_break, event_stream_bytes, data_prefix, lemma_encode_utf8_add,
    lemma_single_line_data,
};
use crate::lines::LF;
use crate::queue::{WaitQueue, names_of};

verus! {

#[verifier::external_type_specification]
#[verifier::external_body]
pub struct ExJsonError(serde_json::Error);

/// The JSON text of an array of strings, as serde_json writes it.
pub uninterp spec fn json_string_array(items: Seq<Seq<char>>) -> Seq<char>;

/// serde_json's `to_string` on a vector of strings. Claimed: it succeeds (its
/// documentation names failing `Serialize` impls and maps with non-string keys as the
/// only causes of failure, and a vector of strings has neither); the text is the
/// named JSON of the strings; it is not empty and holds no line feed or carriage
/// return (the compact formatter writes no whitespace, and its escape table writes
/// those two characters as `\n` and `\r` inside strings).
#[verifier::external_body]
fn strings_to_json(items: &Vec<String>) -> (json: Result<String, serde_json::Error>)
    ensures
        json is Ok,
        json matches Ok(s) ==> s@ == json_string_array(items.deep_view()),
        json matches Ok(s) ==> no_line_break(s@) && s@.len() > 0,
{
    serde_json::to_string(items)
}

/// `data: `, as text.
pub open spec fn data_text() -> Seq<char> {
    seq!['d', 'a', 't', 'a', ':', ' ']
}

/// A message made of `data: `, a non-empty text without line breaks, and a blank
/// line is, byte for byte, the event-stream encoding of a data event holding that text.
pub proof fn lemma_data_message_is_data_event(text: Seq<char>)
    requires
        no_line_break(text),
        text.len() > 0,
    ensures
        encode_utf8(data_text() + text + seq!['\n', '\n']) == event_stream_bytes(
            EventView { event: None, id: None, data: Some(text) },
        ),
{
    let nl: Seq<char> = seq!['\n', '\n'];
    is_ascii_chars_encode_utf8(data_text());
    is_ascii_chars_encode_utf8(nl);
    assert(encode_utf8(data_text()) =~= data_prefix());
    assert(encode_utf8(nl) =~= seq![LF, LF]);
    lemma_encode_utf8_add(data_text() + text, nl);
    lemma_encode_utf8_add(data_text(), text);
    lemma_single_line_data(text);
}

impl WaitQueue {
    /// The names in the queue, in order, as a JSON array.
    pub fn names_json(&self) -> (json: String)
        ensures
            json@ == json_string_array(names_of(self@)),
            no_line_break(json@),
            json@.len() > 0,
    {
        let names = self.names();
        assert(names.deep_view() =~= names_of(self@)) by {
            assert(names.deep_view() =~= names@.map_values(|s: String| s@));
        }
        match strings_to_json(&names) {
            Ok(s) => s,
            Err(_) => String::new(),
        }
    }

    /// The names in the queue as one event-stream message: `data: `, the JSON array of
    /// the names, and a blank line.
    pub fn names_message(&self) -> (msg: String)
        ensures
            msg@ == data_text() + json_string_array(names_of(self@)) + seq!['\n', '\n'],
            encode_utf8(msg@) == event_stream_bytes(
                EventView { event: None, id: None, data: Some(json_string_array(names_of(self@))) },
            ),
    {
        let json = self.names_json();
        let head = "data: ";
        let tail = "\n\n";
        proof {
            reveal_strlit("data: ");
            reveal_strlit("\n\n");
        }
        let mut msg = head.to_owned();
        msg.append(json.as_str());
        msg.append(tail);
        assert(msg@ =~= data_text() + json_string_array(names_of(self@)) + seq!['\n', '\n']);
        proof {
            lemma_data_message_is_data_event(json@);
        }
        msg
    }
}

/// What the live stream hears from the queue's broadcast.
pub enum Received {
    /// The queue changed; its students, as JSON.
    Queue(String),
    /// This many announcements were missed.
    Lagged(u64),
    /// The broadcast has ended.
    Closed,
}

/// `message`
pub open spec fn message_name() -> Seq<char> {
    seq!['m', 'e', 's', 's', 'a', 'g', 'e']
}

/// `behind`
pub open spec fn behind_name() -> Seq<char> {
    seq!['b', 'e', 'h', 'i', 'n', 'd']
}

/// The event the live stream sends for what it heard: a `message` event carrying the
/// queue's JSON; a `behind` event, without data, for missed announcements; and no
/// event, which ends the stream, when the broadcast has ended.
pub fn event_for(received: Received) -> (e: Option<Event>)
    ensures
        match received {
            Received::Queue(json) => e matches Some(ev) && ev@ == (EventView {
                event: Some(message_name()),
                id: None,
                data: Some(json@),
            }),
            Received::Lagged(_) => e matches Some(ev) && ev@ == (EventView {
                event: Some(behind_name()),
                id: None,
                data: None,
            }),
            Received::Closed => e is None,
        },
{
    match received {
        Received::Queue(json) => {
            let name = "message";
            proof {
                reveal_strlit("message");
            }
            let name = name.to_owned();
            assert(name@ =~= message_name());
            Some(Event::new(Some(name), Some(json), None))
        },
        Received::Lagged(_) => {
            let name = "behind";
            proof {
                reveal_strlit("behind");
            }
            let name = name.to_owned();
            assert(name@ =~= behind_name());
            Some(Event::new(Some(name), None, None))
        },
        Received::Closed => None,
    }
}

} // verus!
