# live_wait

A wait queue for office hours, with a live view of the queue over Server-Sent
Events and a terminal client for TAs.

- `src/` is the verified library:
  - `queue.rs` — the queue (join at the back, serve from the front, leave by name,
    snapshots for the watchers) and its laws;
  - `event.rs` — an SSE message and its exact encoding in the event-stream format,
    with the laws that each encoding is one message and that its data lines give the
    data back;
  - `reading.rs` — how an event-stream reader sees an encoding: the line layout,
    and the proof that a reader gets the event back;
  - `lines.rs` — line splitting as `str::lines` does it, over bytes;
  - `body.rs` — the state machine that reads encoded events out of a response body
    piece by piece, without losing or repeating a byte;
  - `announce.rs` — the events sent to watchers and the one-shot message of names
    (JSON by serde_json);
  - `student.rs` — students and the clock (chrono);
  - `client.rs` — the terminal client's state and key handling.
- `app/` is the program around it: the rocket server, the stream plumbing, and the
  terminal client (termion, tui, sse-client, reqwest).
