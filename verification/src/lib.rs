//! A metadata-aware file locator: a trigram-indexed on-disk file database
//! with Roaring-bitmap posting lists, and the search logic over it.

pub mod index;
pub mod output;
pub mod pipeline;
pub mod platform;
pub mod text;
pub mod update;
pub mod bitmap;
pub mod cli;
pub mod clock;
pub mod compat;
pub mod crawl;
pub mod cron;
pub mod codec;
pub mod db;
pub mod error;
pub mod filter;
