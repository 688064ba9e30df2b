//! What the command line programs decide: which request a subcommand
//! stands for, what is shown for its result, and whether a server may start
//! on a directory with the engine it was asked for.

use vstd::prelude::*;
use vstd::string::*;
use crate::error::{message_of, KvsError};
use crate::protocol::Request;

verus! {

/// A subcommand of the client.
#[derive(Debug)]
pub enum SubCommand {
    /// Get the string value of a given string key.
    Get { key: String },
    /// Set the value of a string key to a string.
    Put { key: String, value: String },
    /// Remove a given key.
    Rm { key: String },
}

/// The request that a subcommand stands for.
pub fn request_of(cmd: SubCommand) -> (request: Request)
    ensures
        request == match cmd {
            SubCommand::Get { key } => Request::Get { key },
            SubCommand::Put { key, value } => Request::Put { key, value },
            SubCommand::Rm { key } => Request::Remove { key },
        },
{
    match cmd {
        SubCommand::Get { key } => Request::Get { key },
        SubCommand::Put { key, value } => Request::Put { key, value },
        SubCommand::Rm { key } => Request::Remove { key },
    }
}

/// How a run of the client ends.
#[derive(Debug)]
pub struct Outcome {
    /// The line for standard output, if any.
    pub out: Option<String>,
    /// The line for standard error, if any.
    pub err: Option<String>,
    /// The exit code.
    pub code: u8,
}

/// The mathematical value of an [`Outcome`].
pub struct OutcomeView {
    pub out: Option<Seq<char>>,
    pub err: Option<Seq<char>>,
    pub code: u8,
}

impl View for Outcome {
    type V = OutcomeView;

    open spec fn view(&self) -> OutcomeView {
        OutcomeView {
            out: match self.out {
                Some(line) => Some(line@),
                None => None,
            },
            err: match self.err {
                Some(line) => Some(line@),
                None => None,
            },
            code: self.code,
        }
    }
}

/// The end of a run that failed: the message of the error goes to standard
/// error, and the exit code is 1.
pub open spec fn failure(err: KvsError) -> OutcomeView {
    OutcomeView { out: None, err: Some(message_of(err)), code: 1 }
}

/// The end of a run that has nothing to show.
pub open spec fn silence() -> OutcomeView {
    OutcomeView { out: None, err: None, code: 0 }
}

fn failed(err: KvsError) -> (outcome: Outcome)
    ensures
        outcome@ == failure(err),
{
    Outcome { out: None, err: Some(err.message()), code: 1 }
}

/// How `get` ends: the value is shown, or `Key not found` where the store
/// has no such key; both are a success.
pub fn get_outcome(got: Result<Option<String>, KvsError>) -> (outcome: Outcome)
    ensures
        outcome@ == match got {
            Ok(Some(value)) => OutcomeView { out: Some(value@), err: None, code: 0 },
            Ok(None) => OutcomeView { out: Some("Key not found"@), err: None, code: 0 },
            Err(err) => failure(err),
        },
{
    match got {
        Ok(Some(value)) => Outcome { out: Some(value), err: None, code: 0 },
        Ok(None) => Outcome { out: Some("Key not found".to_owned()), err: None, code: 0 },
        Err(err) => failed(err),
    }
}

/// How `set` ends: nothing is shown on success.
pub fn set_outcome(done: Result<(), KvsError>) -> (outcome: Outcome)
    ensures
        outcome@ == match done {
            Ok(_) => silence(),
            Err(err) => failure(err),
        },
{
    match done {
        Ok(_) => Outcome { out: None, err: None, code: 0 },
        Err(err) => failed(err),
    }
}

/// How `rm` ends: nothing is shown on success; a key that the store does
/// not have is a failure like any other.
pub fn remove_outcome(done: Result<(), KvsError>) -> (outcome: Outcome)
    ensures
        outcome@ == match done {
            Ok(_) => silence(),
            Err(err) => failure(err),
        },
{
    match done {
        Ok(_) => Outcome { out: None, err: None, code: 0 },
        Err(err) => failed(err),
    }
}

/// A storage engine that a server can run.
#[derive(Clone, Copy, Debug, PartialEq, Eq, Structural)]
pub enum Engine {
    /// The log-structured store of this library.
    Kvs,
    /// The tree-backed store.
    Sled,
}

/// The name of an engine, as the command line and the marker file say it.
pub open spec fn name_of(engine: Engine) -> Seq<char> {
    match engine {
        Engine::Kvs => "kvs"@,
        Engine::Sled => "sled"@,
    }
}

/// The engine of a name.
pub open spec fn engine_named(name: Seq<char>) -> Option<Engine> {
    if name == "kvs"@ {
        Some(Engine::Kvs)
    } else if name == "sled"@ {
        Some(Engine::Sled)
    } else {
        None
    }
}

/// The name of an engine.
pub fn engine_name(engine: Engine) -> (name: String)
    ensures
        name@ == name_of(engine),
{
    match engine {
        Engine::Kvs => "kvs".to_owned(),
        Engine::Sled => "sled".to_owned(),
    }
}

/// The engine that a name stands for, if any.
pub fn parse_engine(name: &str) -> (engine: Option<Engine>)
    ensures
        engine == engine_named(name@),
{
    let name = String::from_str(name);
    if name == "kvs".to_owned() {
        Some(Engine::Kvs)
    } else if name == "sled".to_owned() {
        Some(Engine::Sled)
    } else {
        None
    }
}

/// Whether a server may start with the engine `requested` on a directory
/// whose marker names the engine `persisted`: it may on a directory without
/// a marker, and on one that was written by the same engine.
pub fn check_engine(requested: Engine, persisted: Option<Engine>) -> (checked: Result<
    (),
    KvsError,
>)
    ensures
        match persisted {
            Some(engine) if engine != requested => checked matches Err(
                KvsError::EngineMismatch,
            ),
            _ => checked is Ok,
        },
{
    match persisted {
        Some(engine) => {
            if engine == requested {
                Ok(())
            } else {
                Err(KvsError::EngineMismatch)
            }
        },
        None => Ok(()),
    }
}

} // verus!
