//! Verified core of a small launcher that runs a shell command typed into a
//! text field, fills in `%name` placeholders, cleans the command's output and
//! keeps its settings in a trailer appended to its own executable.

pub mod text;
pub mod vars;
pub mod subst;
pub mod ansi;
pub mod config;
pub mod session;
