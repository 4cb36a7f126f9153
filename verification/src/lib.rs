//! The chat server's logic: command-line port checking, chat groups and the
//! book that holds them, the server's handling of each request line, the
//! broadcasting room of the standalone server, and the terminal client's
//! timing decisions.

pub mod commands;
pub mod groups;
pub mod keys;
pub mod orion;
pub mod terminal;
pub mod text;
pub mod wire;
