//! An in-memory key-value server core: a wire codec for length-prefixed
//! frames, a typed keyspace with expiring entries, and the command
//! dispatcher that joins the two.
//!
//! Every executable function carries a contract over a mathematical model
//! of its data; the modules `codec_laws`, `text_laws`, `store_laws` and
//! `command_laws` state what holds across functions.

pub mod decimal;
pub mod frame;
pub mod parser;
pub mod resp;
pub mod store;
pub mod store_laws;
pub mod text_laws;
pub mod clock;
pub mod codec_laws;
pub mod command;
pub mod command_laws;
pub mod connection;
