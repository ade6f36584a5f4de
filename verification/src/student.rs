//! A student in the queue, and the clock that stamps when they joined.
use vstd::prelude::*;

verus! {

/// A point in time, as whole seconds since 1970-01-01 UTC and the nanoseconds past
/// that second.
#[derive(Clone, Copy)]
pub struct Timestamp {
    pub secs: i64,
    pub nanos: u32,
}

/// The current time, from chrono's `Utc::now`, taken apart into seconds and
/// nanoseconds. Claimed of the value only what chrono's source shows of every reading
/// of the clock that returns: it is not before 1970 and the nanoseconds are less
/// than one second (chrono panics on a clock before 1970).
#[verifier::external_body]
pub fn now() -> (t: Timestamp)
    ensures
        t.secs >= 0,
        t.nanos < 1_000_000_000,
{
    let t = chrono::Utc::now();
    Timestamp { secs: t.timestamp(), nanos: t.timestamp_subsec_nanos() }
}

/// The timestamp is a reading of the clock: a value that `now` returned.
pub open spec fn clock_reading(t: Timestamp) -> bool {
    call_ensures(now, (), t)
}

/// Every reading of the clock is on or after 1970, with less than a second of
/// nanoseconds.
pub proof fn lemma_clock_reading_in_range(t: Timestamp)
    requires
        clock_reading(t),
    ensures
        t.secs >= 0,
        t.nanos < 1_000_000_000,
{
}

/// Someone waiting in the queue.
pub struct Student {
    pub name: String,
    pub comment: String,
    pub join_time: Timestamp,
}

/// What a [`Student`] holds: name and comment as text, and the join time.
pub struct StudentView {
    pub name: Seq<char>,
    pub comment: Seq<char>,
    pub join_time: Timestamp,
}

impl View for Student {
    type V = StudentView;

    open spec fn view(&self) -> StudentView {
        StudentView { name: self.name@, comment: self.comment@, join_time: self.join_time }
    }
}

impl Clone for Student {
    fn clone(&self) -> (s: Self)
        ensures
            s@ == self@,
    {
        Student { name: self.name.clone(), comment: self.comment.clone(), join_time: self.join_time }
    }
}

impl Student {
    /// A student with the given name, comment and join time.
    pub fn new(name: String, comment: String, join_time: Timestamp) -> (s: Self)
        ensures
            s@ == (StudentView { name: name@, comment: comment@, join_time }),
    {
        Student { name, comment, join_time }
    }
}

} // verus!
