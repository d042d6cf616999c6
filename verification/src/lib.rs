//! A manga catalogue core: an entity store with natural-key reconciliation,
//! favorite/read-state tracking, and a keyset-paginated "recent updates" feed
//! addressed by reversible cursors.

pub mod catalogue;
pub mod context;
pub mod cursor;
pub mod db;
pub mod error;
pub mod feed;
pub mod graphql;
pub mod library;
pub mod sorting;
