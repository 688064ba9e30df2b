//! Command records: the entries of the write-ahead log.

use vstd::prelude::*;

verus! {

/// A mutation of the store, as it is recorded in the log.
#[derive(Debug)]
pub enum Command {
    /// Bind `key` to `value`.
    Put { key: String, value: String },
    /// Drop the binding of `key`.
    Remove { key: String },
}

/// The mathematical value of a [`Command`].
pub enum CommandView {
    Put { key: Seq<char>, value: Seq<char> },
    Remove { key: Seq<char> },
}

impl View for Command {
    type V = CommandView;

    open spec fn view(&self) -> CommandView {
        match self {
            Command::Put { key, value } => CommandView::Put { key: key@, value: value@ },
            Command::Remove { key } => CommandView::Remove { key: key@ },
        }
    }
}

impl Command {
    /// A record that binds `key` to `value`.
    pub fn set(key: String, value: String) -> (cmd: Command)
        ensures
            cmd@ == (CommandView::Put { key: key@, value: value@ }),
    {
        Command::Put { key, value }
    }

    /// A record that drops the binding of `key`.
    pub fn remove(key: String) -> (cmd: Command)
        ensures
            cmd@ == (CommandView::Remove { key: key@ }),
    {
        Command::Remove { key }
    }
}

} // verus!
