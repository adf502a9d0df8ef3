//! A marketplace crawler's core: extraction of listing identifiers and
//! detail-page fields from markup, normalization of locale-formatted prices
//! and postal codes into typed values, a keyed dataset with full-replace and
//! additive merge semantics, a text codec for the persisted dataset, and
//! range-based filtering with price ranking.

pub mod codec;
pub mod crawl;
pub mod dataset;
pub mod extract;
pub mod filter;
pub mod item;
pub mod money;
pub mod normalize;
pub mod numbers;
