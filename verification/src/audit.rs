//! The audit log: tamper detection and export.
pub mod checksum;
pub mod csv;
pub mod export;
pub mod json;
pub mod records;
