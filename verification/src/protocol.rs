//! Types of the command/response protocol: commands, responses, and the
//! read/write/async classification that routing is based on.

use vstd::prelude::*;

verus! {

/// Whether a destructive command asks for a synchronous or asynchronous reply.
#[derive(Debug, Clone, Copy, PartialEq, Eq, Structural)]
pub enum Synchronicity {
    Sync,
    Async,
}

/// A guard on write commands: apply always, only when the key exists, or only
/// when it does not.
#[derive(Debug, Clone, Copy, PartialEq, Eq, Structural)]
pub enum Conditional {
    Always,
    IfExists,
    IfNotExists,
}

impl Conditional {
    /// Whether the guard admits a key whose current presence is `exists`.
    pub open spec fn passes(self, exists: bool) -> bool {
        match self {
            Conditional::Always => true,
            Conditional::IfExists => exists,
            Conditional::IfNotExists => !exists,
        }
    }

    /// Run `op` exactly when the guard admits a key whose presence is `exists`.
    pub fn when<T, F: FnOnce() -> T>(&self, exists: bool, op: F) -> (r: Option<T>)
        requires
            self.passes(exists) ==> call_requires(op, ()),
        ensures
            self.passes(exists) ==> (r matches Some(v) && call_ensures(op, (), v)),
            !self.passes(exists) ==> r is None,
    {
        match self {
            Conditional::Always => Some(op()),
            Conditional::IfExists => if exists { Some(op()) } else { None },
            Conditional::IfNotExists => if !exists { Some(op()) } else { None },
        }
    }
}

/// A command of the protocol, with byte-string arguments.
///
/// Durations (the TTL of `Set`, the argument of `Expire`) are in milliseconds.
#[derive(Debug, Clone, PartialEq, Eq)]
pub enum Command {
    /// Ping the database, optionally with a message to echo.
    Ping(Option<Vec<u8>>),
    /// Get a key's value.
    Get(Vec<u8>),
    /// The SET command: store a value under a key, with an optional TTL and a
    /// write guard.
    Put(Vec<u8>, Vec<u8>, Option<u64>, Conditional),
    /// Delete keys.
    Del(Vec<Vec<u8>>),
    /// Count how many of the keys exist.
    Exists(Vec<Vec<u8>>),
    /// Install a TTL on a key.
    Expire(Vec<u8>, u64),
    /// Remove a key's TTL.
    Persist(Vec<u8>),
    /// Flush all databases.
    FlushAll(Synchronicity),
    /// Flush the current database.
    FlushDB(Synchronicity),
}

/// The ghost shape of a command: arguments as mathematical sequences.
pub enum CommandModel {
    Ping(Option<Seq<u8>>),
    Get(Seq<u8>),
    Put(Seq<u8>, Seq<u8>, Option<u64>, Conditional),
    Del(Seq<Seq<u8>>),
    Exists(Seq<Seq<u8>>),
    Expire(Seq<u8>, u64),
    Persist(Seq<u8>),
    FlushAll(Synchronicity),
    FlushDB(Synchronicity),
}

impl Command {
    /// The mathematical value of this command.
    pub open spec fn model(self) -> CommandModel {
        match self {
            Command::Ping(None) => CommandModel::Ping(None),
            Command::Ping(Some(m)) => CommandModel::Ping(Some(m@)),
            Command::Get(k) => CommandModel::Get(k@),
            Command::Put(k, v, t, c) => CommandModel::Put(k@, v@, t, c),
            Command::Del(ks) => CommandModel::Del(ks.deep_view()),
            Command::Exists(ks) => CommandModel::Exists(ks.deep_view()),
            Command::Expire(k, d) => CommandModel::Expire(k@, d),
            Command::Persist(k) => CommandModel::Persist(k@),
            Command::FlushAll(s) => CommandModel::FlushAll(s),
            Command::FlushDB(s) => CommandModel::FlushDB(s),
        }
    }

    /// Whether this command should be executed asynchronously.
    pub fn is_async(&self) -> (r: bool)
        ensures
            r == self.model().is_async(),
    {
        match self {
            Command::FlushAll(Synchronicity::Async) => true,
            Command::FlushDB(Synchronicity::Async) => true,
            _ => false,
        }
    }

    /// Whether this command is a write operation.
    pub fn writes(&self) -> (r: bool)
        ensures
            r == self.model().writes(),
    {
        match self {
            Command::Ping(_) => false,
            Command::Get(_) => false,
            Command::Exists(_) => false,
            _ => true,
        }
    }

    /// Whether this command is a read operation.
    pub fn reads(&self) -> (r: bool)
        ensures
            r == !self.model().writes(),
    {
        !self.writes()
    }
}

impl CommandModel {
    /// Whether the command should be executed asynchronously: only the
    /// asynchronous flush variants are.
    pub open spec fn is_async(self) -> bool {
        match self {
            CommandModel::FlushAll(Synchronicity::Async) => true,
            CommandModel::FlushDB(Synchronicity::Async) => true,
            _ => false,
        }
    }

    /// A command the storage layer's contracts are exact for: bulk payloads
    /// and key counts within the signed 64-bit range (machine limits; every
    /// command decoded from a wire buffer satisfies them).
    pub open spec fn wf(self) -> bool {
        match self {
            CommandModel::Ping(Some(m)) => m.len() <= 0x7fff_ffff_ffff_ffff,
            CommandModel::Put(k, v, _, _) => v.len() <= 0x7fff_ffff_ffff_ffff,
            CommandModel::Del(ks) => ks.len() <= 0x7fff_ffff_ffff_ffff,
            CommandModel::Exists(ks) => ks.len() <= 0x7fff_ffff_ffff_ffff,
            _ => true,
        }
    }

    /// Whether the command mutates the store.
    pub open spec fn writes(self) -> bool {
        match self {
            CommandModel::Ping(_) => false,
            CommandModel::Get(_) => false,
            CommandModel::Exists(_) => false,
            _ => true,
        }
    }
}

/// An error reported to the client inside the protocol.
#[derive(Debug, Clone, Copy, PartialEq, Eq, Structural)]
pub enum Error {
    WrongType,
}

/// A response of the protocol.
#[derive(Debug, Clone, PartialEq, Eq)]
pub enum Response {
    Okay,
    Error(Error),
    Nil,
    Pong,
    Integer(i64),
    Bulk(Vec<u8>),
}

/// The ghost shape of a response.
pub enum ResponseModel {
    Okay,
    Error(Error),
    Nil,
    Pong,
    Integer(i64),
    Bulk(Seq<u8>),
}

impl Response {
    /// The mathematical value of this response.
    pub open spec fn model(self) -> ResponseModel {
        match self {
            Response::Okay => ResponseModel::Okay,
            Response::Error(e) => ResponseModel::Error(e),
            Response::Nil => ResponseModel::Nil,
            Response::Pong => ResponseModel::Pong,
            Response::Integer(n) => ResponseModel::Integer(n),
            Response::Bulk(b) => ResponseModel::Bulk(b@),
        }
    }
}

} // verus!
