//! The errors of the launcher.

use vstd::prelude::*;

verus! {

/// What can go wrong while the launcher starts or runs.
#[derive(Debug)]
pub enum Error {
    /// The compositor's IPC socket failed or answered otherwise than expected.
    NitiIpcError(String),
    /// The environment lacks something the launcher needs.
    InternalError(String),
    /// The applications could not be gathered.
    NiriAppFetchError,
    /// A value in the configuration file could not be read.
    ParseError,
    /// The launch-frequency cache could not be read.
    CacheParse,
}

/// The text shown for an error.
pub open spec fn error_message(e: Error) -> Seq<char> {
    match e {
        Error::NitiIpcError(msg) => "NIRI IPC ERROR "@ + msg@ + " "@,
        Error::InternalError(msg) => "INTERNAL ERROR "@ + msg@ + " "@,
        Error::ParseError => "Error while casting the types"@,
        Error::CacheParse => "Error while parsing Cache"@,
        Error::NiriAppFetchError => "Error while fetching apps."@,
    }
}

impl Error {
    /// The text shown for this error.
    pub fn message(&self) -> (s: String)
        ensures
            s@ == error_message(*self),
    {
        match self {
            Error::NitiIpcError(msg) => {
                let mut s = "NIRI IPC ERROR ".to_owned();
                s.append(msg.as_str());
                s.append(" ");
                s
            },
            Error::InternalError(msg) => {
                let mut s = "INTERNAL ERROR ".to_owned();
                s.append(msg.as_str());
                s.append(" ");
                s
            },
            Error::ParseError => "Error while casting the types".to_owned(),
            Error::CacheParse => "Error while parsing Cache".to_owned(),
            Error::NiriAppFetchError => "Error while fetching apps.".to_owned(),
        }
    }
}

} // verus!
