//! Logic of an indexer that turns Ubuntu documentation repositories into the
//! chunks of text behind a retrieval index.
//!
//! Everything here computes on plain values. Reading directories and files,
//! running git, embedding and writing the table are left to the caller.

// Text and paths.
pub mod text;
pub mod text_laws;
pub mod paths;
pub mod path_order;
pub mod path_laws;

// The repositories.
pub mod config;
pub mod repo_sync;
pub mod base_urls;
pub mod walk;

// Pages and their chunks.
pub mod snapshot;
pub mod includes;
pub mod expansion_laws;
pub mod markdown;
pub mod page_urls;
pub mod address_laws;
pub mod chunks;
pub mod page_laws;
pub mod loader_laws;
pub mod listing_laws;

// The index.
pub mod output;

// Values and their views.
pub mod view_laws;
