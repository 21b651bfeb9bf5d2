//! Three-way semantic merge of manifest documents.

pub mod doc;
pub mod model;
pub mod merge;
pub mod text;
pub mod laws;
pub mod commands;
