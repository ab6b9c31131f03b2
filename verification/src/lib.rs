//! Merge declarative patches into mutable configuration files.
pub mod value;
pub mod text;
pub mod merge;
pub mod merge_laws;
pub mod formats;
pub mod num;
pub mod patch;
