//! Streaming dump and restore of anonymised database snapshots over a chunked
//! object store.
//!
//! A dump takes the rows of a source through the transformer rules, packs
//! them into chunks, stores the chunks and then the index that names them.
//! A restore reads the index and then the chunks, in order. The store's
//! format version is brought up to date before anything else happens to it.
//!
//! - [`transformer`] and [`rules`]: what replaces a value, and where.
//! - [`row`] and [`wire`]: rows and how they are encoded.
//! - [`codec`]: compression and encipherment of chunk payloads.
//! - [`chunk`] and [`reader`]: the chunked writer and the chunked reader.
//! - [`index`] and [`keys`]: the index of a dump, and the layout of the keys.
//! - [`datastore`] and [`retry`]: the object store, and when to call it again.
//! - [`migration`] and [`session`]: the format version, and the start of a run.
//! - [`dump`], [`restore`] and [`catalog`]: the four operations.
//! - [`progress`]: reports of progress, which the pipeline never waits for.
//! - [`error`]: what can go wrong.

pub mod catalog;
pub mod chunk;
pub mod codec;
pub mod datastore;
pub mod dump;
pub mod error;
pub mod index;
pub mod keys;
pub mod migration;
pub mod progress;
pub mod reader;
pub mod restore;
pub mod retry;
pub mod row;
pub mod rules;
pub mod session;
pub mod transformer;
pub mod wire;
