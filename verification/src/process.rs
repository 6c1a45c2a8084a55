//! Processes: the life of a command's process group.

pub mod process_group;
