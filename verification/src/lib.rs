//! A verified core for a line-oriented task tracker: a record codec that
//! serializes task records to a delimited text format, a store that applies
//! add/complete/remove mutations to the ordered record sequence, and a query
//! engine that produces filtered or sorted views keyed by positional ID.

pub mod record;
pub mod codec;
pub mod store;
pub mod query;
pub mod time;
