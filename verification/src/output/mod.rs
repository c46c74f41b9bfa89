//! The output stream and the records that every command shares.
pub mod emit;
pub mod history;
pub mod records;

pub use emit::Emitter;
pub use records::{ErrorRecord, MetaRecord, SummaryRecord, SMC_TAG};
