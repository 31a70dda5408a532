//! A mediator between a host, which starts a program with arguments and
//! environment variables that may name files, and the program, which is to
//! see opaque tokens in place of the host's paths.
//!
//! - `classifier`: whether a string is likely to name a file, and where a
//!   path's extension begins.
//! - `token`: the form of a token, and drawing a fresh one.
//! - `table`: the capability table, and how an internal path is turned back
//!   into a host path.
//! - `rewrite`: what is decided about an argument, as a function of the magic
//!   level and the text, and what a decision does to the table.
//! - `preopener`: the mediator.
//! - `writer`: the output side, which puts host paths back where a program
//!   wrote tokens.
//! - `env`: the older front end, which also looks at the host.
//! - `log`, `exit`: log lines and exit codes.
//! - `laws`: what holds of all of it together.
//! - `text`: character classes and operations on sequences.
//!
//! Nothing here opens a file or writes to a stream. An open yields the host
//! path to open; a write yields the bytes to send on.

pub mod classifier;
pub mod env;
pub mod exit;
pub mod laws;
pub mod log;
pub mod preopener;
pub mod rewrite;
pub mod table;
pub mod text;
pub mod token;
pub mod writer;

pub use crate::env::Env;
pub use crate::exit::Status;
pub use crate::log::{log, Level};
pub use crate::preopener::Preopener;
pub use crate::rewrite::{Error, MagicLevel};
pub use crate::writer::Writer;
