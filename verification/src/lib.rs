//! Catalog and scan engine for a content-addressed photo archive.
//!
//! The library walks marker-rooted directory trees, deduplicates files by
//! content digest, resolves capture dates from EXIF fields and path rules,
//! and reconciles the catalog against what is still present on disk. All
//! catalog invariants and the scan decisions are stated in contracts and
//! verified; the calls into the digest, EXIF, image and regex crates stand
//! behind trusted wrappers.

pub mod config;
pub mod datetime;
pub mod db;
pub mod gui;
pub mod imaging;
pub mod interlude;
pub mod model;
pub mod pathwalk;
pub mod scanning;
pub mod strutil;
pub mod widgets;
