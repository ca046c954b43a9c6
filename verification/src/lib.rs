//! A verified line-oriented database of (date, event) records.
//!
//! Commands `Add`, `Del`, `Find`, `Last` and `Print` operate on an
//! insertion-ordered, duplicate-free collection of records.  `Del` and
//! `Find` take a filter expression over the two fields `date` and `event`,
//! combined with `AND`, `OR` and parentheses.

pub mod dates;
pub mod filter;
pub mod interp;
pub mod laws;
pub mod store;
pub mod text;
