//! Replication of a graph of typed objects from a server to its clients.
//!
//! A server keeps nodes, each with an id and a value of a known shape. Every
//! client is handed a root node and, with it, whatever the root's value
//! refers to. Changes on the server travel to the clients as small tagged
//! operations; calls travel from the clients to the server by name.

use std::string::FromUtf8Error;
use vstd::prelude::*;
use vstd::std_specs::convert::FromSpecImpl;

pub mod connection;
pub mod encode;
pub mod fanout;
pub mod idset;
pub mod insync;
pub mod links;
pub mod node;
pub mod replication;
pub mod rpc;
pub mod server;
pub mod upkeep;
pub mod value;
pub mod visitor;

verus! {

/// A pass over values: it is shown each named member in turn.
pub trait Visitor: Sized {
    /// Shows the visitor the member `name`, a value of the shape `schema`.
    /// Nodes that the value refers to are looked up, or stored, in `ctx`.
    fn visit(
        &mut self,
        ctx: &mut node::NodeContext,
        name: &str,
        schema: &value::Schema,
        val: &mut value::Value,
    ) -> (r: Result<(), Error>)
    ;
}

/// A value that can show itself to the visitor `V`.
pub trait Reflect<V: Visitor>: Sized {
    /// Shows the value, which has the shape `schema`, to `visitor`. A
    /// visitor that writes, reads or refreshes is shown the value whole. A
    /// visitor that carries a change is shown a record member by member, so
    /// that it finds the member with its tag; a value that is no record it
    /// is shown whole, and makes its change to that.
    fn reflect(&mut self, ctx: &mut node::NodeContext, schema: &value::Schema, visitor: &mut V) -> (r:
        Result<(), Error>)
    ;
}

/// What can go wrong while values travel.
#[derive(Debug)]
pub enum Error {
    /// The rules of the protocol were broken; the text says how.
    Custom(String),
    /// The input ended too early, or the transport failed.
    IOError(std::io::Error),
    /// A string's bytes were not valid UTF-8.
    UTFError(FromUtf8Error),
}

/// The kinds of failure, as contracts speak of them.
pub ghost enum Fault {
    /// Fewer bytes than the value needs.
    Truncated,
    /// A string whose bytes are not UTF-8.
    InvalidUtf8,
    /// Bytes that the protocol does not allow.
    Violation,
}

impl Error {
    /// The kind of this failure.
    pub open spec fn fault(self) -> Fault {
        match self {
            Error::Custom(_) => Fault::Violation,
            Error::IOError(_) => Fault::Truncated,
            Error::UTFError(_) => Fault::InvalidUtf8,
        }
    }

    /// The failure of the wire codec, as an error of the library.
    pub fn of(e: encode::SerializeError) -> (r: Error)
        ensures
            r.fault() == fault_of(e.reason()),
    {
        match e {
            encode::SerializeError::IOError(e) => Error::IOError(e),
            encode::SerializeError::UTFError(e) => Error::UTFError(e),
        }
    }

    /// A breach of the protocol, described by `text`.
    pub fn custom(text: &str) -> (r: Error)
        ensures
            r.fault() == Fault::Violation,
            r matches Error::Custom(t) && t@ == text@,
    {
        Error::Custom(text.to_owned())
    }
}

impl From<std::io::Error> for Error {
    /// An I/O error as an error of the library.
    fn from(err: std::io::Error) -> (r: Error) {
        Error::IOError(err)
    }
}

impl FromSpecImpl<std::io::Error> for Error {
    open spec fn obeys_from_spec() -> bool {
        true
    }

    open spec fn from_spec(err: std::io::Error) -> Error {
        Error::IOError(err)
    }
}

impl From<FromUtf8Error> for Error {
    /// Bytes that are no UTF-8 as an error of the library.
    fn from(err: FromUtf8Error) -> (r: Error) {
        Error::UTFError(err)
    }
}

impl FromSpecImpl<FromUtf8Error> for Error {
    open spec fn obeys_from_spec() -> bool {
        true
    }

    open spec fn from_spec(err: FromUtf8Error) -> Error {
        Error::UTFError(err)
    }
}

/// The kind of failure that a malformed byte sequence stands for.
pub open spec fn fault_of(m: encode::Malformed) -> Fault {
    match m {
        encode::Malformed::Truncated => Fault::Truncated,
        encode::Malformed::InvalidUtf8 => Fault::InvalidUtf8,
    }
}

} // verus!
