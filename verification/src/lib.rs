//! corpus: the core of a small retrieval server for documentation.
//!
//! The documents of a repository are found, cut into chunks along their
//! headings and kept up to date by content hash. Searches rank the chunks by a
//! lexical index, by the similarity of embeddings, or by a fusion of both.
//!
//! The library decides and computes; reading files, the lexical index on disk
//! and the embedding services are left to the program around it.

pub mod chunk;
pub mod config;
pub mod corpus;
pub mod discovery;
pub mod embed;
pub mod index;
pub mod manifest;
pub mod ordered;
pub mod reconcile;
pub mod search;
pub mod server;
pub mod sorting;
pub mod store;
pub mod text;

pub use crate::corpus::{build, Corpus, IndexReport};
pub use crate::search::{SearchMode, SearchResult};
pub use crate::server::CorpusServer;
