//! Indexing core for an outliner-style markdown knowledge base: validated
//! value types, the page aggregate with its block tree, the markdown parser,
//! keyword and link queries, and the decisions of import and sync.

pub mod text;
pub mod base;
pub mod value_objects;
pub mod entities;
pub mod aggregates;
pub mod events;
pub mod parser;
pub mod dto;
pub mod repository;
pub mod use_cases;
pub mod search;
pub mod watcher;
pub mod services;
pub mod preprocess;
pub mod embeddings;
pub mod persistence;
pub mod render;
