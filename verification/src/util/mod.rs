//! Dates, token estimates and session files.
pub mod dates;
pub mod discover;
pub mod tokens;
