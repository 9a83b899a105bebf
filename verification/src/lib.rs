//! A small embedded data store: typed record collections kept in memory,
//! mirrored to one JSON text file per collection.
//!
//! Every operation on a collection is a linear scan over an in-memory
//! sequence; every mutation produces the full new file body that must be
//! written for the mutation to become durable.  The JSON codec, the
//! collection operations and the database wiring are all verified.

pub mod db;
pub mod errors;
pub mod json;
pub mod query;
pub mod records;
pub mod store;
