//! Output limits shared by the tools.

pub mod truncate;
