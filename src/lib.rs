//! Persistence and retrieval core of a personal note-taking application:
//! notes tagged with hierarchical subjects, searchable by subject, task state,
//! full text and similarity, with a read cache and an undo/redo log.

pub mod cache;
pub mod clock;
pub mod laws;
pub mod layer;
pub mod model;
pub mod search;
pub mod store;
pub mod terms;
pub mod text;
