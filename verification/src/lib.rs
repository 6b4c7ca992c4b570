//! Persistence rules and statistics of a local flashcard deck: question
//! cards, practice and test sessions, the answers given in them, and the
//! accuracy figures derived from those records.

pub mod calendar;
pub mod error;
pub mod laws;
pub mod listing;
pub mod model;
pub mod rows;
pub mod schema;
pub mod state;
pub mod stats;
pub mod store;
pub mod text;
