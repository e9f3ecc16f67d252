//! A long-term memory store: an append-only record log, the index that is
//! derived from it, and the recall engine that answers queries by keyword,
//! time range and free text.
//!
//! The library decides; it does not touch files. Whoever drives it reads
//! and writes the log and the index file, turns lines into records and back,
//! and hands the library what it found:
//!
//! - [`namespace`] brings every spelling of a namespace to one canonical
//!   form and fixes where the namespace lives;
//! - [`keywords`] normalizes keywords and keeps dates and times out of them;
//! - [`time`] reads RFC 3339 instants and calendar dates;
//! - [`index`] is the index of one namespace, and [`log`] takes the lines of
//!   the log into it;
//! - [`query`] and [`recall`] plan a recall and carry it out;
//! - [`store`] is one open namespace, and [`engine`] the set of open
//!   namespaces;
//! - [`stats`] aggregates keywords across namespaces;
//! - [`model`], [`cli`] and [`protocol`] hold the shapes of requests and
//!   answers and read them from arguments;
//! - [`text`] and [`order`] are the vocabulary underneath: operations on
//!   characters, and the one sorting routine.
//!
//! Every executable function carries a contract over a mathematical model
//! of its arguments and is proved to meet it. The few items that reach
//! outside the library, to the clock, to the source of identifiers, to
//! chrono's readers and to the lowercasing of the standard library, are
//! marked, and each says what is taken from outside without proof.

pub mod cli;
pub mod engine;
pub mod error;
pub mod index;
pub mod keywords;
pub mod log;
pub mod model;
pub mod namespace;
pub mod order;
pub mod protocol;
pub mod query;
pub mod recall;
pub mod stats;
pub mod store;
pub mod text;
pub mod time;
