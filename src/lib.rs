//! Reads, edits and writes a line-oriented keybinding file whose bind lines
//! read `bindsym [--release ]<keys> exec <command>`; every other line is
//! kept as it was.
use vstd::prelude::*;

pub mod cli;
pub mod config;
pub mod editor;
pub mod fold;
pub mod laws;
pub mod parser;
pub mod record;
pub mod text;

pub use cli::{help_text, parse_command, Command, CommandError};
pub use config::{update_binds, Config, ListEntry, ParseError};
pub use editor::EditError;
pub use record::{Keybind, TriggerMode};

verus! {

/// The text of a newly created keybinds file.
pub fn default_file_text() -> (r: String)
    ensures
        r@ == "# Keybinds\n"@,
{
    String::from_str("# Keybinds\n")
}

} // verus!
