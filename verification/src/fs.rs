//! Files: paths inside the workspace, text form, atomic replacement and the
//! order of mutations.

pub mod atomic_write;
pub mod mutation_queue;
pub mod path;
pub mod text;
