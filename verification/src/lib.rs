//! Device property protocol engine for a line-oriented IoT command protocol.
//!
//! The engine bridges typed device properties, addressed by a
//! (service id, property id) pair, to a peer over a serial text protocol:
//! a value codec renders and parses protocol payloads, a command classifier
//! turns downlink lines into structured events, and a property registry holds
//! canonical state, detects changes, drives callbacks, persists mutations and
//! emits uplink notifications.

pub mod ap;
pub mod error;
pub mod json;
pub mod miio;
pub mod parser;
pub mod serial;

pub use parser::json_str_to_vec;
pub use parser::parse;
pub use parser::parse_string;
pub use parser::Value;
