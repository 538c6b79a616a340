//! Ordered printing of chat transcripts that are fetched side by side.
//!
//! A list of sources, each with a label and a timeline of chat messages, is
//! printed one source after the other, in the order of the list, while the
//! timelines of all of them are fetched and filtered in the background.
//!
//! - [`message`]: a chat message and its one-line rendering.
//! - [`filter`]: which messages a compiled pattern lets through.
//! - [`worker`]: the per-source state machine that holds lines back until
//!   its source is released and prints at once from then on.
//! - [`dispatcher`]: the order in which workers are started and sources are
//!   announced, released, joined and closed.
//! - [`protocol`]: the two together as a transition system, with the proof
//!   that every interleaving of their moves prints the same, ordered output.
//!
//! The library decides and renders; it neither prints nor starts threads.
//! Its caller carries out the dispatcher's steps and prints the lines that a
//! worker hands out.

pub mod dispatcher;
pub mod filter;
pub mod message;
pub mod protocol;
pub mod worker;

pub use dispatcher::{Dispatcher, Step};
pub use message::Message;
pub use worker::Worker;
