//! The verified core of a live office-hours wait queue: the queue itself, the
//! Server-Sent-Events encoding of the messages that announce it, the state machine
//! that streams those messages, and the key handling of the terminal client.

pub mod lines;
pub mod event;
pub mod body;
pub mod student;
pub mod queue;
pub mod client;
pub mod announce;
pub mod reading;
