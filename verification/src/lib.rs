//! NexusView forensic triage engine: the verified core.
//!
//! Pipeline: input bytes → [`index::LineIndex`] (record offsets) →
//! [`Dataset`] over a [`ParserSchema`], queried with [`Query`] to produce a
//! [`View`], which can be sorted, grouped, tagged and rendered for export.
//! Every public operation states what it returns; none of them panics.

pub mod bloom;
pub mod dataset;
pub mod encoding;
pub mod error;
pub mod export;
pub mod group;
pub mod index;
pub mod mcp;
pub mod parser;
pub mod pattern;
pub mod query;
pub mod scan;
pub mod schema;
pub mod sort;
pub mod tags;
pub mod text;
pub mod view;

pub use dataset::Dataset;
pub use error::NexusError;
pub use group::{GroupTree, Item};
pub use query::Query;
pub use schema::ParserSchema;
pub use sort::SortKey;
pub use view::View;
