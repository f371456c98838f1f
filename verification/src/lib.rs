//! Core of a broken-hyperlink checker for a tree of rendered static files.
//!
//! The crate aggregates `Defines` and `Uses` events for link targets into a
//! table keyed by [`model::Href`], classifies every use of an undefined target
//! as a hard failure (page missing) or a soft failure (anchor missing), and
//! attributes each broken use back to the authored source documents that share
//! its paragraph fingerprint.  Aggregation is written so that the final table
//! is a function of the multiset of ingested events alone: partial collectors
//! built by independent workers can be merged in any order.

pub mod bytes;
pub mod collector;
pub mod model;
pub mod paragraphs;
pub mod report;
