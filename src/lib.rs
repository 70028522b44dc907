//! An append-only key/value store with integrity-checked records, and the
//! in-memory side of a buffered, date-rotated log pipeline.
pub mod database;
pub mod logging;
pub mod record;
pub mod ring;
