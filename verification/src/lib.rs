//! A batch pipeline that turns scraped company profile pages into normalized
//! relational records: companies, batches, statuses, locations, tags, details,
//! founders, news mentions, and classified external links.
//!
//! The library is organised around eight ordered passes; each pass is a pure
//! function of the page collection plus the output of earlier passes.

pub mod companies;
pub mod header;
pub mod identity;
pub mod links;
pub mod model;
pub mod people;
pub mod pipeline;
pub mod stats;
pub mod tags;
pub mod text;
