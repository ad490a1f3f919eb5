pub mod query;
pub mod trigram;
