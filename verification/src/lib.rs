//! Search and inspection of conversation logs kept as JSON Lines.
pub mod cmd;
pub mod json;
pub mod models;
pub mod order;
pub mod output;
pub mod text;
pub mod util;
