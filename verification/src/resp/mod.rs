//! The RESP protocol: its values, and the commands that clients send in it.
pub mod command_laws;
pub mod commands;
pub mod encoder;
pub mod laws;
pub mod parser;
pub mod value;
