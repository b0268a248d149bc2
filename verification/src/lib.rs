//! A verified core for a directory-listing harvesting pipeline.
//!
//! The pipeline crawls a tree-shaped HTTP directory listing, selects data
//! files by name and modification date, downloads them with bounded
//! concurrency, ingests their line-delimited JSON records into a document
//! store, and reduces the stored records to a latest-version-per-key summary.
//! This crate holds the decision logic and data transformations of those
//! stages, each with a proved contract; the surrounding I/O (HTTP, the
//! filesystem, the store) lives outside the crate and hands plain values in.

pub mod crawl;
pub mod dates;
pub mod dedupe;
pub mod download;
pub mod filter;
pub mod ingest;
pub mod size;
