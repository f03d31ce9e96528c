use vstd::prelude::*;

verus! {

/// Every failure the client surfaces, collapsed into one taxonomy.
///
/// `TransportError` carries the transport's own description; it is produced by
/// the I/O layer around this library, never by the verified code itself.
/// `CharacterNotFound` carries the exact name whose lookup came back empty, so
/// a failure of a dual lookup is attributable to the correct side.
#[derive(Debug)]
pub enum MarvelError {
    /// Network, TLS or DNS failure reaching the service.
    TransportError(String),
    /// URI construction failed on a malformed base or path.
    InvalidUri,
    /// The response body was not valid JSON, or the envelope shape did not match.
    DecodeError,
    /// An exact-name lookup returned zero results for this name.
    CharacterNotFound(String),
}

impl MarvelError {
    /// A human-readable description of the failure.
    pub fn message(&self) -> (r: String)
        ensures
            match self {
                MarvelError::TransportError(s) => r@ == "transport error: "@ + s@,
                MarvelError::InvalidUri => r@ == "invalid uri"@,
                MarvelError::DecodeError => r@ == "unexpected response shape"@,
                MarvelError::CharacterNotFound(n) => r@ == "Character `"@ + n@ + "` Not Found"@,
            },
    {
        match self {
            MarvelError::TransportError(s) => {
                let mut m = String::from_str("transport error: ");
                m.append(s.as_str());
                m
            },
            MarvelError::InvalidUri => String::from_str("invalid uri"),
            MarvelError::DecodeError => String::from_str("unexpected response shape"),
            MarvelError::CharacterNotFound(n) => {
                let mut m = String::from_str("Character `");
                m.append(n.as_str());
                m.append("` Not Found");
                m
            },
        }
    }
}

#[verifier::external_type_specification]
#[verifier::external_body]
pub struct ExIoError(std::io::Error);

/// Relies on std::io::Error::new: wraps a message as an error of kind `Other`.
#[verifier::external_body]
pub fn to_io_error(msg: String) -> std::io::Error {
    std::io::Error::new(std::io::ErrorKind::Other, msg)
}

} // verus!
