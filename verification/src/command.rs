//! Requests: the command that a protocol value asks for, or the reason why
//! it asks for none.

use crate::frame::{lemma_views, views, Frame, FrameView};
use crate::text::same_text;
use vstd::prelude::*;

verus! {

/// A command that takes arguments.
#[derive(Clone, Copy, Debug, PartialEq, Eq, Structural)]
pub enum Keyword {
    /// `SET`.
    SetValue,
    /// `GET`.
    GetValue,
}

/// Why a protocol value is no command.
#[derive(Clone, Copy, Debug, PartialEq, Eq, Structural)]
pub enum CommandError {
    /// An argument of the command is missing.
    InvalidArguments(Keyword),
    /// The name is that of no command.
    UnknownCommand,
    /// The value is no array.
    UnsupportedRequestShape,
    /// The array does not begin with a bulk string that holds a name.
    InvalidCommandFormat,
    /// The array is empty.
    MissingCommand,
}

impl CommandError {
    /// The message that tells a peer of the failure.
    pub open spec fn message_spec(self) -> Seq<char> {
        match self {
            CommandError::InvalidArguments(Keyword::SetValue) => "Invalid arguments for SET command"@,
            CommandError::InvalidArguments(Keyword::GetValue) => "Invalid arguments for GET command"@,
            CommandError::UnknownCommand => "Unknown command"@,
            CommandError::UnsupportedRequestShape => "ERR Not Supported"@,
            CommandError::InvalidCommandFormat => "Invalid command format"@,
            CommandError::MissingCommand => "Command is missing"@,
        }
    }

    /// The message that tells a peer of the failure.
    pub fn message(&self) -> (text: String)
        ensures
            text@ == self.message_spec(),
    {
        match self {
            CommandError::InvalidArguments(Keyword::SetValue) => {
                "Invalid arguments for SET command".to_owned()
            },
            CommandError::InvalidArguments(Keyword::GetValue) => {
                "Invalid arguments for GET command".to_owned()
            },
            CommandError::UnknownCommand => "Unknown command".to_owned(),
            CommandError::UnsupportedRequestShape => "ERR Not Supported".to_owned(),
            CommandError::InvalidCommandFormat => "Invalid command format".to_owned(),
            CommandError::MissingCommand => "Command is missing".to_owned(),
        }
    }
}

/// The mathematical model of a command.
pub enum CommandView {
    Ping,
    SetValue { key: Seq<char>, value: Seq<char> },
    GetValue { key: Seq<char> },
}

/// What a request asks of the store.
#[derive(Debug, PartialEq, Eq)]
pub enum Command {
    /// Asks for a sign of life.
    Ping,
    /// Binds `key` to the bytes of `value`.
    SetValue { key: String, value: String },
    /// Asks for the value that `key` is bound to.
    GetValue { key: String },
}

impl View for Command {
    type V = CommandView;

    open spec fn view(&self) -> CommandView {
        match self {
            Command::Ping => CommandView::Ping,
            Command::SetValue { key, value } => CommandView::SetValue { key: key@, value: value@ },
            Command::GetValue { key } => CommandView::GetValue { key: key@ },
        }
    }
}

/// The argument at position `i` of a request: the text of a bulk string
/// that holds one. Where the array is too short, or holds anything else at
/// that position, the argument is missing.
pub open spec fn argument(values: Seq<FrameView>, i: int) -> Option<Seq<char>> {
    if 0 <= i < values.len() {
        match values[i] {
            FrameView::BulkString(Some(text)) => Some(text),
            _ => None,
        }
    } else {
        None
    }
}

/// The command that a value asks for: an array that begins with the name of
/// the command in a bulk string, whose case counts, and goes on with its
/// arguments. What follows the arguments is not looked at.
pub open spec fn command_of(v: FrameView) -> Result<CommandView, CommandError> {
    match v {
        FrameView::Array(values) => if values.len() == 0 {
            Err(CommandError::MissingCommand)
        } else {
            match values[0] {
                FrameView::BulkString(Some(name)) => if name == "PING"@ {
                    Ok(CommandView::Ping)
                } else if name == "SET"@ {
                    match (argument(values, 1), argument(values, 2)) {
                        (Some(key), Some(value)) => Ok(CommandView::SetValue { key, value }),
                        _ => Err(CommandError::InvalidArguments(Keyword::SetValue)),
                    }
                } else if name == "GET"@ {
                    match argument(values, 1) {
                        Some(key) => Ok(CommandView::GetValue { key }),
                        None => Err(CommandError::InvalidArguments(Keyword::GetValue)),
                    }
                } else {
                    Err(CommandError::UnknownCommand)
                },
                _ => Err(CommandError::InvalidCommandFormat),
            }
        },
        _ => Err(CommandError::UnsupportedRequestShape),
    }
}

/// The argument at position `i` of a request, if it is there.
fn argument_at(items: &Vec<Frame>, i: usize) -> (found: Option<String>)
    ensures
        match found {
            Some(text) => argument(views(items@), i as int) == Some(text@),
            None => argument(views(items@), i as int) is None,
        },
{
    proof {
        lemma_views(items@);
    }
    if i < items.len() {
        match &items[i] {
            Frame::BulkString(Some(text)) => Some(text.clone()),
            _ => None,
        }
    } else {
        None
    }
}

impl Command {
    /// Reads a request as a command.
    pub fn parse(frame: &Frame) -> (parsed: Result<Command, CommandError>)
        ensures
            match parsed {
                Ok(command) => command_of(frame@) == Ok::<CommandView, CommandError>(command@),
                Err(e) => command_of(frame@) == Err::<CommandView, CommandError>(e),
            },
    {
        match frame {
            Frame::Array(items) => {
                proof {
                    lemma_views(items@);
                }
                if items.len() == 0 {
                    return Err(CommandError::MissingCommand);
                }
                match &items[0] {
                    Frame::BulkString(Some(name)) => {
                        if same_text(name.as_str(), "PING") {
                            Ok(Command::Ping)
                        } else if same_text(name.as_str(), "SET") {
                            match (argument_at(items, 1), argument_at(items, 2)) {
                                (Some(key), Some(value)) => Ok(Command::SetValue { key, value }),
                                _ => Err(CommandError::InvalidArguments(Keyword::SetValue)),
                            }
                        } else if same_text(name.as_str(), "GET") {
                            match argument_at(items, 1) {
                                Some(key) => Ok(Command::GetValue { key }),
                                None => Err(CommandError::InvalidArguments(Keyword::GetValue)),
                            }
                        } else {
                            Err(CommandError::UnknownCommand)
                        }
                    },
                    _ => Err(CommandError::InvalidCommandFormat),
                }
            },
            _ => Err(CommandError::UnsupportedRequestShape),
        }
    }
}

} // verus!
