//! Errors of the relay core.
use vstd::prelude::*;

verus! {

#[derive(Debug)]
pub enum Error {
    /// A frame was handed to a connection that is not connected.
    RelayNotConnected,
    /// An outbound frame could not be serialized; the serializer's message.
    SerdeJson(String),
    /// Reported by the transport.
    Generic(String),
    /// An inbound frame held no text at all.
    Empty,
    /// An inbound frame was malformed or of an unknown kind.
    DecodeFailed,
}

pub type Result<T> = core::result::Result<T, Error>;

/// What an error says to a person.
pub open spec fn error_text(e: Error) -> Seq<char> {
    match e {
        Error::RelayNotConnected => "Relay not connected"@,
        Error::SerdeJson(m) => "JSON serialization error: "@ + m@,
        Error::Generic(m) => m@,
        Error::Empty => "Data was empty"@,
        Error::DecodeFailed => "Could not decode JSON data."@,
    }
}

impl Error {
    /// The error's text.
    pub fn message(&self) -> (r: String)
        ensures
            r@ == error_text(*self),
    {
        match self {
            Error::RelayNotConnected => String::from_str("Relay not connected"),
            Error::SerdeJson(m) => {
                let mut out = String::from_str("JSON serialization error: ");
                out.append(m.as_str());
                out
            },
            Error::Generic(m) => m.clone(),
            Error::Empty => String::from_str("Data was empty"),
            Error::DecodeFailed => String::from_str("Could not decode JSON data."),
        }
    }
}

} // verus!
