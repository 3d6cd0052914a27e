use vstd::prelude::*;

verus! {

/// Errors of RPC authentication.
#[derive(Debug, PartialEq, Eq)]
pub enum Error {
    /// The requested method does not exist.
    MethodParam,
    /// The token does not grant the permissions the method needs.
    InvalidPermissions,
    /// The request carries no authentication header.
    NoAuthHeader,
    /// Any other failure, with its message.
    Other(String),
}

impl Error {
    /// Human-readable text of the error.
    pub fn message(&self) -> (r: &str)
        ensures
            match self {
                Error::MethodParam => r@ == "Filecoin method does not exist"@,
                Error::InvalidPermissions => r@ == "Incorrect permissions to access method"@,
                Error::NoAuthHeader => r@ == "Missing authentication header"@,
                Error::Other(s) => r@ == s@,
            },
    {
        match self {
            Error::MethodParam => "Filecoin method does not exist",
            Error::InvalidPermissions => "Incorrect permissions to access method",
            Error::NoAuthHeader => "Missing authentication header",
            Error::Other(s) => s.as_str(),
        }
    }
}

} // verus!
