//! Verified core of a RADIUS accounting/authentication log browser.
//!
//! The crate ingests raw log text, extracts record fragments (`extract`),
//! decodes them into events (`decode`), correlates the events into
//! request/response transactions (`correlate`, `transaction`, `codes`), and
//! answers filtered, sorted queries over the resulting store (`query`,
//! `store`). The orchestrator's decisions — busy exclusion, search
//! debouncing, tail-mode growth detection, progress arithmetic — live in
//! `orchestrator`; configuration normalization in `config`; generated-name
//! pasting and case conversion in `ident`; and the underlying string
//! machinery in `text`. Every executable function carries a contract over
//! `Seq<char>` views and is verified against it.

pub mod codes;
pub mod config;
pub mod correlate;
pub mod decode;
pub mod extract;
pub mod ident;
pub mod ingest;
pub mod orchestrator;
pub mod query;
pub mod store;
pub mod text;
pub mod transaction;
