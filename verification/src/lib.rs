//! Batch migration of embedded cover-art blobs out of a relational store
//! into content-addressed files, with adaptive batch sizing, progress and
//! ETA reporting, content-addressed deduplication of cover files, and
//! reconciliation of orphaned files.
//!
//! The store and the covers directory are modelled as plain values, so the
//! whole pipeline is verified end to end; the thin I/O shell around it
//! (SQLite, the real file system, the worker threads) lives outside the
//! library and only feeds it rows, bytes and events.

pub mod batch;
pub mod channel;
pub mod dedup;
pub mod digits;
pub mod files;
pub mod image;
pub mod migrate;
pub mod orphan;
pub mod outside;
pub mod scan;
pub mod security;
pub mod store;
pub mod strings;
pub mod syncpaths;

pub use image::ImageFormat;
