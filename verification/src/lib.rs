//! MCPod: the rules of a development server that an agent drives through
//! four file and shell tools.

pub mod auth;
pub mod bytes;
pub mod chars;
pub mod config;
pub mod environment;
pub mod fs;
pub mod instructions;
pub mod order;
pub mod output;
pub mod process;
pub mod server;
pub mod tools;
pub mod transport;
pub mod util;
