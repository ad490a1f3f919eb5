pub mod builder;
pub mod chunk;
pub mod dir;
pub mod dirlaws;
pub mod format;
pub mod header;
pub mod image;
pub mod layout;
pub mod reader;
pub mod roundtrip;
pub mod search;
pub mod stats;
pub mod trigram;
pub mod writer;
