//! Errors reported by the library.

use vstd::prelude::*;

use crate::text::concat;

verus! {

/// An error, with a machine-readable kind and a human-readable message.
/// Paths are held as strings; `Io` keeps the message of the underlying I/O error.
#[derive(Debug, Clone, PartialEq, Eq)]
pub enum Error {
    NotImplemented { feature: String },
    Io { source: String, path: String },
    VaultNotFound { path: String },
    Database { message: String },
    NodeNotFound { id: String },
}

/// The kind of an error, as written in JSON output.
pub open spec fn kind_spec(e: Error) -> Seq<char> {
    match e {
        Error::NotImplemented { .. } => "not_implemented"@,
        Error::Io { .. } => "io"@,
        Error::VaultNotFound { .. } => "vault_not_found"@,
        Error::Database { .. } => "database"@,
        Error::NodeNotFound { .. } => "node_not_found"@,
    }
}

/// The message of an error.
pub open spec fn message_spec(e: Error) -> Seq<char> {
    match e {
        Error::NotImplemented { feature } => "not implemented: "@ + feature@,
        Error::Io { source, path } => "I/O error at "@ + path@ + ": "@ + source@,
        Error::VaultNotFound { path } => "vault not found: "@ + path@,
        Error::Database { message } => "database error: "@ + message@,
        Error::NodeNotFound { id } => "node not found: "@ + id@,
    }
}

impl Error {
    /// The kind of this error.
    pub fn kind(&self) -> (r: &'static str)
        ensures
            r@ == kind_spec(*self),
    {
        match self {
            Error::NotImplemented { .. } => "not_implemented",
            Error::Io { .. } => "io",
            Error::VaultNotFound { .. } => "vault_not_found",
            Error::Database { .. } => "database",
            Error::NodeNotFound { .. } => "node_not_found",
        }
    }

    /// The human-readable message of this error.
    pub fn message(&self) -> (r: String)
        ensures
            r@ == message_spec(*self),
    {
        match self {
            Error::NotImplemented { feature } => concat("not implemented: ", feature.as_str()),
            Error::Io { source, path } => {
                let a = concat("I/O error at ", path.as_str());
                let b = concat(a.as_str(), ": ");
                concat(b.as_str(), source.as_str())
            },
            Error::VaultNotFound { path } => concat("vault not found: ", path.as_str()),
            Error::Database { message } => concat("database error: ", message.as_str()),
            Error::NodeNotFound { id } => concat("node not found: ", id.as_str()),
        }
    }
}

} // verus!
