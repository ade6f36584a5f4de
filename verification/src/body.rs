//! The body of an event-stream response: events come in one at a time, are encoded,
//! and are handed out in pieces as large as the reader's buffer allows.
use vstd::prelude::*;
use crate::event::{Event, event_stream_bytes, append_range, one_message};

verus! {

/// Where the body stands between two reads.
pub enum BodyState {
    /// No encoded event is waiting: the next read needs the next event.
    Pending,
    /// An encoded event, of which the bytes before the position were handed out.
    Partial(Vec<u8>, usize),
    /// The events have run out: every read gives nothing.
    Done,
}

/// What one read of the body gives.
pub enum BodyStep {
    /// These bytes, possibly none (the end of the body when the buffer was not empty).
    Ready(Vec<u8>),
    /// Nothing yet: the next event must be supplied first.
    NeedEvent,
}

/// The state of an event-stream body, with a record of what it has taken in and
/// handed out.
pub struct SseBody {
    state: BodyState,
    sent: Ghost<Seq<u8>>,
    delivered: Ghost<Seq<u8>>,
}

impl SseBody {
    /// The encoded bytes not handed out yet.
    pub closed spec fn pending(&self) -> Seq<u8> {
        match self.state {
            BodyState::Partial(bytes, pos) => bytes@.skip(pos as int),
            _ => seq![],
        }
    }

    /// The body waits for the next event.
    pub closed spec fn is_waiting(&self) -> bool {
        self.state is Pending
    }

    /// The body has ended.
    pub closed spec fn is_done(&self) -> bool {
        self.state is Done
    }

    /// The encodings of all events taken in so far, in order.
    pub closed spec fn sent(&self) -> Seq<u8> {
        self.sent@
    }

    /// All bytes handed out so far, in order.
    pub closed spec fn delivered(&self) -> Seq<u8> {
        self.delivered@
    }

    /// The body's own consistency: a partly read event still has bytes to give, and
    /// what was handed out, followed by what is pending, is what was taken in.
    pub closed spec fn wf(&self) -> bool {
        &&& match self.state {
            BodyState::Partial(bytes, pos) => pos < bytes@.len(),
            _ => true,
        }
        &&& self.delivered@ + self.pending() == self.sent@
    }

    /// Of a consistent body: what was handed out, followed by what is pending, is
    /// exactly the encodings of the events taken in, in order; and a body that waits
    /// or has ended holds nothing pending.
    pub proof fn lemma_nothing_lost(&self)
        requires
            self.wf(),
        ensures
            self.delivered() + self.pending() == self.sent(),
            (self.is_waiting() || self.is_done()) ==> self.delivered() == self.sent(),
            !self.is_waiting() && !self.is_done() ==> self.pending().len() > 0,
    {
        if self.is_waiting() || self.is_done() {
            assert(self.delivered@ + self.pending() =~= self.delivered@);
        }
    }

    /// A new body, waiting for its first event.
    pub fn new() -> (b: Self)
        ensures
            b.wf(),
            b.is_waiting(),
            b.sent() == Seq::<u8>::empty(),
            b.delivered() == Seq::<u8>::empty(),
    {
        let sent: Ghost<Seq<u8>> = Ghost(Seq::empty());
        let delivered: Ghost<Seq<u8>> = Ghost(Seq::empty());
        let b = SseBody { state: BodyState::Pending, sent, delivered };
        assert(b.delivered@ + b.pending() =~= b.sent@);
        b
    }

    /// One read into a buffer of `buf_len` bytes: an empty buffer gets nothing and
    /// changes nothing; a waiting body asks for the next event; an ended body gives
    /// nothing; otherwise as many pending bytes as fit are handed out, and the body
    /// waits again once its event is used up. A read never fails.
    pub fn read(&mut self, buf_len: usize) -> (step: BodyStep)
        requires
            old(self).wf(),
        ensures
            final(self).wf(),
            final(self).sent() == old(self).sent(),
            buf_len == 0 ==> (step matches BodyStep::Ready(c) && c@.len() == 0),
            buf_len == 0 || old(self).is_waiting() || old(self).is_done() ==> {
                &&& final(self).pending() == old(self).pending()
                &&& final(self).delivered() == old(self).delivered()
                &&& final(self).is_waiting() == old(self).is_waiting()
                &&& final(self).is_done() == old(self).is_done()
            },
            buf_len > 0 && old(self).is_waiting() ==> step is NeedEvent,
            buf_len > 0 && old(self).is_done() ==> (step matches BodyStep::Ready(c)
                && c@.len() == 0),
            buf_len > 0 && !old(self).is_waiting() && !old(self).is_done() ==> {
                let n = if buf_len < old(self).pending().len() {
                    buf_len as int
                } else {
                    old(self).pending().len() as int
                };
                &&& (step matches BodyStep::Ready(c) && c@ == old(self).pending().take(n))
                &&& final(self).pending() == old(self).pending().skip(n)
                &&& final(self).delivered() == old(self).delivered() + old(self).pending().take(n)
                &&& final(self).is_waiting() == (n == old(self).pending().len())
                &&& !final(self).is_done()
            },
    {
        if buf_len == 0 {
            return BodyStep::Ready(Vec::new());
        }
        let mut state = BodyState::Done;
        std::mem::swap(&mut state, &mut self.state);
        match state {
            BodyState::Pending => {
                self.state = BodyState::Pending;
                BodyStep::NeedEvent
            },
            BodyState::Done => {
                self.state = BodyState::Done;
                BodyStep::Ready(Vec::new())
            },
            BodyState::Partial(bytes, pos) => {
                let ghost pend = bytes@.skip(pos as int);
                let left = bytes.len() - pos;
                let n = if buf_len < left { buf_len } else { left };
                let mut chunk: Vec<u8> = Vec::new();
                append_range(&mut chunk, bytes.as_slice(), pos, pos + n);
                assert(chunk@ =~= pend.take(n as int));
                proof {
                    self.delivered@ = self.delivered@ + chunk@;
                }
                if pos + n == bytes.len() {
                    self.state = BodyState::Pending;
                    assert(pend.skip(n as int) =~= Seq::<u8>::empty());
                } else {
                    self.state = BodyState::Partial(bytes, pos + n);
                    assert(self.pending() =~= pend.skip(n as int));
                }
                assert(self.delivered@ + self.pending() =~= self.sent@);
                BodyStep::Ready(chunk)
            },
        }
    }

    /// Takes in the next event, or the end of the events, while the body waits: an
    /// event's encoding becomes pending; the end makes the body end.
    pub fn supply(&mut self, next: Option<Event>)
        requires
            old(self).wf(),
            old(self).is_waiting(),
        ensures
            final(self).wf(),
            final(self).delivered() == old(self).delivered(),
            match next {
                Some(e) => {
                    &&& final(self).pending() == event_stream_bytes(e@)
                    &&& one_message(final(self).pending())
                    &&& final(self).sent() == old(self).sent() + event_stream_bytes(e@)
                    &&& !final(self).is_waiting()
                    &&& !final(self).is_done()
                },
                None => {
                    &&& final(self).is_done()
                    &&& final(self).sent() == old(self).sent()
                },
            },
    {
        match next {
            Some(e) => {
                let ghost v = e@;
                let bytes = e.serialize();
                assert(bytes@.len() > 0) by {
                    assert(event_stream_bytes(v).last() == crate::lines::LF);
                }
                proof {
                    self.sent@ = self.sent@ + bytes@;
                }
                self.state = BodyState::Partial(bytes, 0);
                assert(self.pending() =~= bytes@);
                assert(self.delivered@ + self.pending() =~= self.sent@);
            },
            None => {
                self.state = BodyState::Done;
            },
        }
    }
}

} // verus!
