//! The command written to and read from the log.

use vstd::prelude::*;

verus! {

/// A request made to the store: the unit that the log records.
///
/// A `Put` is written to disk under the tag `Set`, a `Remove` under the
/// tag `Remove` (see the codec module for the record format).
#[derive(Debug)]
pub enum Command {
    Put { key: String, value: String },
    Remove { key: String },
}

/// The mathematical value of a command: its key and value as character
/// sequences.
pub enum CommandModel {
    Put { key: Seq<char>, value: Seq<char> },
    Remove { key: Seq<char> },
}

impl View for Command {
    type V = CommandModel;

    open spec fn view(&self) -> CommandModel {
        match self {
            Command::Put { key, value } => CommandModel::Put { key: key@, value: value@ },
            Command::Remove { key } => CommandModel::Remove { key: key@ },
        }
    }
}

} // verus!
