//! Verified core of the LumenCite reference library.

pub mod authors;
pub mod backup;
pub mod bundle;
pub mod batch_status;
pub mod bibtex;
pub mod chat;
pub mod cli;
pub mod collections;
pub mod context;
pub mod entries;
pub mod fulltext;
pub mod models;
pub mod order;
pub mod query;
pub mod reading;
pub mod storage;
pub mod text;
pub mod trash;
