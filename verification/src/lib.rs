//! A small verified pipeline over a tabular list of food items.
//!
//! The library decodes a comma-separated document into raw rows and maps
//! each row's free-form `active` token through a fixed vocabulary.  A row
//! whose token is invalid is reported as one diagnostic line and dropped; of
//! the rows that convert, only the active records are kept, sorted stably by
//! their `category` field.

pub mod loader;
pub mod order;
pub mod pipeline;
pub mod record;
