//! Reshaping engine for decoded GNSS records: observation and navigation
//! records are flattened into long-format rows, and navigation ephemerides
//! are pivoted into one wide table per constellation.

pub mod constellation;
pub mod names;
pub mod navigation;
pub mod observation;
pub mod pivot;
pub mod records;
