//! Harvesting and archiving engine for a gaming-content catalog site.
//!
//! The crate holds the verified core: the extraction engine that turns a
//! markup token stream into structured records (with nested comment trees),
//! the dual-store archive with its persistent encoding, the retry coordinator,
//! the bounded concurrency scheduler, the export renderers, and the crawl
//! planning rules. Network and file I/O live outside, in the application
//! layer, which hands plain values in and out.

pub mod codec;
pub mod datetime;
pub mod config;
pub mod export;
pub mod extract;
pub mod json;
pub mod logging;
pub mod orchestrate;
pub mod pool;
pub mod record;
pub mod retry;
pub mod token;
pub mod trusted;
pub mod text;
