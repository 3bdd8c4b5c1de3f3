//! A conflict-free replicated document.
//!
//! Replicas edit shared arrays, mappings and texts on their own and exchange
//! updates; whatever the order in which the updates arrive, the replicas come
//! to show the same. The parts, leaf first:
//!
//! - [`varint`] and [`any`]: the binary codec for leaf values;
//! - [`item`]: the edit records, each with an identity of replica and clock;
//! - [`order`] and [`store`]: the causal order and the block store that
//!   integrates items into it, letting those wait whose origins are missing;
//! - [`shared`] and [`doc`]: what a shared type shows, and the document with
//!   the operations that write into it;
//! - [`txn`]: transactions, which give the update for what they wrote;
//! - [`update`] and [`sync`]: the update buffer, state vectors, and the
//!   exchange of what a replica lacks;
//! - [`laws`] and [`merge`]: what holds of every document: tombstones stay,
//!   merging is idempotent, merging commutes;
//! - [`host`], [`doc_loader`] and [`tokenizer`]: for the host runtime, the
//!   passage of its values to and from the document's, parsed documents, and
//!   token counts.

pub mod any;
pub mod doc;
pub mod doc_loader;
pub mod host;
pub mod item;
pub mod laws;
pub mod merge;
pub mod order;
pub mod shared;
pub mod store;
pub mod sync;
pub mod tokenizer;
pub mod txn;
pub mod update;
pub mod varint;
