//! Extraction of structured bot commands embedded in free-form text.
//!
//! A command is introduced by an invocation marker (`@` followed by the
//! bot's handle) and continues with one of the registered command grammars.
//! The dispatcher scans the text for the marker, lets every registered
//! grammar attempt the tokens that follow, reports an explicit error when
//! several claim the same command, discards matches that fall inside code
//! formatting, and advances its cursor only past a successful match, so
//! that repeated calls stream out successive commands from one text.

pub mod assign;
pub mod code_block;
pub mod command;
pub mod error;
pub mod grammar;
pub mod locality;
pub mod relabel;
pub mod token;

pub use command::{find_commmand_start, Command, Input};
