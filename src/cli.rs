use vstd::prelude::*;

use crate::editor::EditError;
use crate::record::TriggerMode;

verus! {

/// The usage text.
pub fn help_text() -> (r: String)
    ensures
        r@ == "This command is used to edit my config files in Sway.\n\nUsage: keybinds [COMMAND]\n\n- list - List all existing keybinds\n- edit <id> <key / 'n/a'> <command / 'n/a'> <release?> - Edit an existing keybind\n- new <key> <command> <release?> - Create a new keybind"@,
{
    String::from_str(
        "This command is used to edit my config files in Sway.\n\nUsage: keybinds [COMMAND]\n\n- list - List all existing keybinds\n- edit <id> <key / 'n/a'> <command / 'n/a'> <release?> - Edit an existing keybind\n- new <key> <command> <release?> - Create a new keybind",
    )
}

/// How a listing names a trigger mode.
pub fn mode_label(mode: TriggerMode) -> (r: &'static str)
    ensures
        mode == TriggerMode::Press ==> r@ == "On Press"@,
        mode == TriggerMode::Release ==> r@ == "On Release"@,
{
    match mode {
        TriggerMode::Press => "On Press",
        TriggerMode::Release => "On Release",
    }
}

impl EditError {
    /// What to tell the user.
    pub fn message(&self) -> (r: &'static str)
        ensures
            *self == EditError::InvalidKey ==> r@ == "Please surround your key combinations with ''."@,
            *self == EditError::DuplicateBind ==> r@ == "This key combination already exists."@,
            *self == EditError::IndexOutOfRange ==> r@ == "ID out of range."@,
            *self == EditError::InvalidId ==> r@ == "ID should be a number."@,
    {
        match self {
            EditError::InvalidKey => "Please surround your key combinations with ''.",
            EditError::DuplicateBind => "This key combination already exists.",
            EditError::IndexOutOfRange => "ID out of range.",
            EditError::InvalidId => "ID should be a number.",
        }
    }
}

/// One run's request.
pub enum Command {
    List,
    New { keys: String, action: String, release: Option<String> },
    Edit { id: String, keys: String, action: String, release: String },
    Help,
}

pub ghost enum CommandView {
    List,
    New { keys: Seq<char>, action: Seq<char>, release: Option<Seq<char>> },
    Edit { id: Seq<char>, keys: Seq<char>, action: Seq<char>, release: Seq<char> },
    Help,
}

impl View for Command {
    type V = CommandView;

    open spec fn view(&self) -> CommandView {
        match self {
            Command::List => CommandView::List,
            Command::New { keys, action, release } => CommandView::New {
                keys: keys@,
                action: action@,
                release: match release {
                    Some(f) => Some(f@),
                    None => None,
                },
            },
            Command::Edit { id, keys, action, release } => CommandView::Edit {
                id: id@,
                keys: keys@,
                action: action@,
                release: release@,
            },
            Command::Help => CommandView::Help,
        }
    }
}

/// An argument that the command needs is missing.
#[derive(Clone, Copy, Debug, PartialEq, Eq, Structural)]
pub enum CommandError {
    MissingKeys,
    MissingCommand,
    MissingId,
}

/// The request that an argument list (program name first) makes: `list`,
/// `new <keys> <command> [release]`, `edit <id> <keys> [command] [release]`
/// (a missing field reads `n/a`), and help for anything else.
pub open spec fn command_of(args: Seq<Seq<char>>) -> Result<CommandView, CommandError> {
    if args.len() < 2 {
        Ok(CommandView::Help)
    } else if args[1] == "list"@ {
        Ok(CommandView::List)
    } else if args[1] == "new"@ {
        if args.len() < 3 {
            Err(CommandError::MissingKeys)
        } else if args.len() < 4 {
            Err(CommandError::MissingCommand)
        } else {
            Ok(
                CommandView::New {
                    keys: args[2],
                    action: args[3],
                    release: if args.len() > 4 {
                        Some(args[4])
                    } else {
                        None
                    },
                },
            )
        }
    } else if args[1] == "edit"@ {
        if args.len() < 3 {
            Err(CommandError::MissingId)
        } else if args.len() < 4 {
            Err(CommandError::MissingKeys)
        } else {
            Ok(
                CommandView::Edit {
                    id: args[2],
                    keys: args[3],
                    action: if args.len() > 4 {
                        args[4]
                    } else {
                        "n/a"@
                    },
                    release: if args.len() > 5 {
                        args[5]
                    } else {
                        "n/a"@
                    },
                },
            )
        }
    } else {
        Ok(CommandView::Help)
    }
}

/// Reads the request of an argument list, program name first.
pub fn parse_command(args: &Vec<String>) -> (r: Result<Command, CommandError>)
    ensures
        match r {
            Ok(c) => command_of(args@.map_values(|a: String| a@)) == Ok::<CommandView, CommandError>(c@),
            Err(e) => command_of(args@.map_values(|a: String| a@)) == Err::<CommandView, CommandError>(e),
        },
{
    let ghost views = args@.map_values(|a: String| a@);
    let n = args.len();
    if n < 2 {
        return Ok(Command::Help);
    }
    assert(views[1] == args[1]@);
    let word = args[1].clone();
    if word == String::from_str("list") {
        return Ok(Command::List);
    }
    if word == String::from_str("new") {
        if n < 3 {
            return Err(CommandError::MissingKeys);
        }
        if n < 4 {
            return Err(CommandError::MissingCommand);
        }
        assert(views[2] == args[2]@ && views[3] == args[3]@);
        let release = if n > 4 {
            assert(views[4] == args[4]@);
            Some(args[4].clone())
        } else {
            None
        };
        return Ok(Command::New { keys: args[2].clone(), action: args[3].clone(), release });
    }
    if word == String::from_str("edit") {
        if n < 3 {
            return Err(CommandError::MissingId);
        }
        if n < 4 {
            return Err(CommandError::MissingKeys);
        }
        assert(views[2] == args[2]@ && views[3] == args[3]@);
        let action = if n > 4 {
            assert(views[4] == args[4]@);
            args[4].clone()
        } else {
            String::from_str("n/a")
        };
        let release = if n > 5 {
            assert(views[5] == args[5]@);
            args[5].clone()
        } else {
            String::from_str("n/a")
        };
        return Ok(Command::Edit { id: args[2].clone(), keys: args[3].clone(), action, release });
    }
    Ok(Command::Help)
}

} // verus!
