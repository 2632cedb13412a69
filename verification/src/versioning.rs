//! Contract versions and the way from one to another.
pub mod migration;
pub mod records;
