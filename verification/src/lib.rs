//! A codec for a line-delimited, length-prefixed wire format, and a small
//! command engine over an expiring key-value store that speaks it.
//!
//! - [`value`] is the dynamic value that everything is made of, and
//!   [`order`] the total order that makes it a key.
//! - [`wire`] says what the format is: which bytes a value is written as,
//!   and what a buffer holds. [`serializer`] and [`deserializer`] are the
//!   code that writes and reads it; [`roundtrip`] and [`canonical`] show
//!   that the two undo each other.
//! - [`store`] is the state, and [`commands`] the engine that runs
//!   requests against it.
//!
//! Nothing here does I/O or reads the clock: a caller hands in the bytes it
//! received and the instant it is, and gets back the bytes to send.

pub mod canonical;
pub mod case_insensitive;
pub mod commands;
pub mod decimal;
pub mod deserializer;
pub mod order;
pub mod roundtrip;
pub mod serializer;
pub mod sorted;
pub mod store;
pub mod value;
pub mod wire;
