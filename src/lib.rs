//! Bisect sessions over a linear revision history, and the computing parts
//! of the ignore-file and repository-prefix commands.

pub mod data;
pub mod selector;
pub mod revision;
pub mod session;
pub mod prefix;
pub mod ignore;
pub mod commands;
