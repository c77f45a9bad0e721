//! Per-category style attributes over byte ranges of a text buffer.
//!
//! `span` holds the interval store for one category; `attribute` the closed
//! set of attribute values; `overlay` the aggregate of all categories and the
//! computation of uniform runs; `batch` the order in which the attributes of
//! one edit are applied.

pub mod attribute;
pub mod batch;
pub mod overlay;
pub mod span;
