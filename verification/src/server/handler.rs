//! What the server does with a command, and what it answers.

use crate::database_handler::Database;
use crate::index::laws::distinct_keys;
use crate::index::order::{has_key, inserted, removed, replaced, sorted};
use crate::index::shape::small;
use crate::index::tree::pairs_view;
use crate::server::parser::{Command, evaluate, evaluate_expression};
use crate::storage::error::DatabaseError;
use crate::storage::operations::{
    cut_to, joinable, joined_to, length_outcome, no_strings, only_strings, unjoinable,
};
use crate::storage::value::{Value, ValueView};
use vstd::prelude::*;
use vstd::string::*;

verus! {

/// An answer of the server.
#[derive(Debug)]
pub enum Response {
    /// The command was carried out.
    Success,
    /// The value stored against a key, if there is one.
    Value(Option<Value>),
    /// The entries of the engine in key order.
    Range(Vec<(i32, Value)>),
    /// The command failed, with the cause in words.
    Error(String),
    /// The answer to a ping.
    Pong,
    /// The length of a string.
    Size(usize),
}

/// Carries out a command on the engine, and gives the answer; `None`
/// where the command asks the server to end.
pub fn handle_command(command: Command, db: &mut Database) -> (res: Result<
    Option<Response>,
    DatabaseError,
>)
    ensures
        final(db).pool().capacity == old(db).pool().capacity,
        old(db).wf() ==> final(db).wf(),
        old(db).wf() ==> match command {
            Command::Get { key } => final(db).entries() == old(db).entries() && (
            res matches Ok(Some(Response::Value(found))) && match found {
                Some(value) => old(db).entries().contains((key, value@)),
                None => !has_key(old(db).entries(), key),
            }),
            Command::SetValue { key, value } => old(db).log_room() ==> {
                &&& res is Ok ==> (res matches Ok(Some(Response::Success))) && inserted(
                    old(db).entries(),
                    final(db).entries(),
                    (key, value@),
                )
                &&& res is Err ==> final(db).entries() == old(db).entries()
                &&& small((key, value@)) && old(db).room() ==> res is Ok
            },
            Command::Delete { key } => old(db).log_room() ==> (res matches Ok(
                Some(Response::Success),
            )) && removed(old(db).entries(), final(db).entries(), key),
            Command::Update { key, value } => old(db).log_room() ==> {
                &&& res is Ok ==> (res matches Ok(Some(Response::Success))) && replaced(
                    old(db).entries(),
                    final(db).entries(),
                    (key, value@),
                )
                &&& res is Err ==> removed(old(db).entries(), final(db).entries(), key)
                &&& small((key, value@)) && old(db).room() ==> res is Ok
            },
            Command::All => final(db).entries() == old(db).entries() && (res matches Ok(
                Some(Response::Range(pairs)),
            ) && pairs_view(pairs@) == old(db).entries() && sorted(pairs_view(pairs@))),
            Command::Strlen { key } => final(db).entries() == old(db).entries() && match res {
                Ok(Some(Response::Size(n))) => length_outcome(
                    old(db).entries(),
                    key,
                    Ok(Some(n)),
                ),
                Ok(_) => false,
                Err(e) => length_outcome(old(db).entries(), key, Err(e)),
            },
            Command::Strcat { key, value } => old(db).log_room() ==> {
                &&& res is Ok ==> (res matches Ok(Some(Response::Success))) && exists|
                    joined: ValueView,
                |
                    #[trigger] joined_to(
                        old(db).entries(),
                        final(db).entries(),
                        key,
                        value@,
                        joined,
                    )
                &&& !has_key(old(db).entries(), key) ==> (res matches Err(
                    DatabaseError::KeyNotFound(_),
                )) && final(db).entries() == old(db).entries()
                &&& has_key(old(db).entries(), key) && unjoinable(old(db).entries(), key, value@)
                    ==> (res matches Err(DatabaseError::InvalidOperation(_))) && final(db).entries() == old(db).entries()
                &&& has_key(old(db).entries(), key) && joinable(old(db).entries(), key, value@)
                    && old(db).room() ==> res is Ok
            },
            Command::Substr { key, start, length } => old(db).log_room() ==> {
                &&& res is Ok ==> (res matches Ok(Some(Response::Success))) && exists|
                    s: Seq<char>,
                |
                    #[trigger] cut_to(
                        old(db).entries(),
                        final(db).entries(),
                        key,
                        s,
                        start as int,
                        length as int,
                    )
                &&& !has_key(old(db).entries(), key) ==> (res matches Err(
                    DatabaseError::KeyNotFound(_),
                )) && final(db).entries() == old(db).entries()
                &&& has_key(old(db).entries(), key) && no_strings(old(db).entries(), key) ==> (
                res matches Err(DatabaseError::InvalidOperation(_))) && final(db).entries() == old(db).entries()
                &&& has_key(old(db).entries(), key) && only_strings(old(db).entries(), key)
                    && old(db).room() ==> res is Ok
            },
            Command::Expression(text) => final(db).entries() == old(db).entries() && (
            distinct_keys(old(db).entries()) ==> match evaluate(text@, old(db).entries()) {
                Some(v) => res matches Ok(Some(Response::Value(Some(value)))) && value@ == v,
                None => res matches Ok(Some(Response::Error(_))),
            }),
            Command::Ping => final(db).entries() == old(db).entries() && (res matches Ok(
                Some(Response::Pong),
            )),
            Command::Exit => final(db).entries() == old(db).entries() && (res matches Ok(None)),
        },
{
    match command {
        Command::Get { key } => {
            let value = db.get(key)?;
            Ok(Some(Response::Value(value)))
        },
        Command::SetValue { key, value } => {
            db.insert(key, &value)?;
            Ok(Some(Response::Success))
        },
        Command::Delete { key } => {
            db.delete(key)?;
            Ok(Some(Response::Success))
        },
        Command::Update { key, value } => {
            db.update(key, &value)?;
            Ok(Some(Response::Success))
        },
        Command::All => {
            let results = db.all()?;
            Ok(Some(Response::Range(results)))
        },
        Command::Strlen { key } => {
            let size = match db.strlen(key)? {
                Some(n) => n,
                None => 0,
            };
            Ok(Some(Response::Size(size)))
        },
        Command::Strcat { key, value } => {
            db.strcat(key, &value)?;
            Ok(Some(Response::Success))
        },
        Command::Substr { key, start, length } => {
            db.substr(key, start, length)?;
            Ok(Some(Response::Success))
        },
        Command::Expression(text) => match evaluate_expression(text.as_str(), db) {
            Ok(value) => Ok(Some(Response::Value(Some(value)))),
            Err(e) => Ok(Some(Response::Error(e.to_string()))),
        },
        Command::Ping => Ok(Some(Response::Pong)),
        Command::Exit => Ok(None),
    }
}

} // verus!
