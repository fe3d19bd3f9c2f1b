//! A minimal CloudEvents echo library.
//!
//! The library models a structured event message (id, type, source, optional
//! timestamp, optional payload, extension attributes), a codec that maps the
//! event to and from its two wire encodings (a JSON document in structured
//! mode, prefixed headers plus raw payload in binary mode), and the request
//! handlers of a small HTTP echo service built on that codec.

pub mod ascii;
pub mod binary;
pub mod event;
pub mod json;
pub mod server;
pub mod structured;
pub mod time;

pub use event::Event;
pub use event::DecodeError;
pub use server::Response;
