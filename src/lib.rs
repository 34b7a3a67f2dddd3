//! Profit and loss of a stock portfolio: extraction of quoted prices from
//! quote pages, consolidation of positions, bookkeeping of a bounded batch of
//! lookups, and ranking of the results.
pub mod batch;
pub mod bytes;
pub mod consolidate;
pub mod decimal;
pub mod error;
pub mod extract;
pub mod fetch;
pub mod report;
