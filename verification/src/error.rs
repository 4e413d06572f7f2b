//! The errors of the cache library.

use vstd::prelude::*;

verus! {

/// `std::io::Error`: an I/O failure, carried through unchanged.
#[verifier::external_type_specification]
#[verifier::external_body]
pub struct ExIoError(std::io::Error);

/// Everything that can go wrong in the cache.
#[derive(Debug)]
pub enum Error {
    /// Reading or writing cache files failed.
    Io(std::io::Error),
    /// No entry is cached under the key (given in hex).
    CacheMiss(String),
    /// Stored or supplied data is malformed.
    Corrupt(String),
    /// The metadata index could not be (de)serialized; the JSON error's text.
    Serde(String),
    /// Compressing or decompressing an object failed.
    Compress(String),
}

impl Error {
    /// The text that describes the error; the variant's field is appended
    /// to a fixed prefix.
    pub fn message(&self) -> (text: String)
        ensures
            self is Io ==> exists|d: Seq<char>| text@ == "I/O error: "@ + d,
            self matches Error::CacheMiss(k) ==> text@ == "cache miss: "@ + k@,
            self matches Error::Corrupt(d) ==> text@ == "corrupt cache: "@ + d@,
            self matches Error::Serde(d) ==> text@ == "serialization error: "@ + d@,
            self matches Error::Compress(d) ==> text@ == "compression error: "@ + d@,
    {
        match self {
            Error::Io(e) => {
                let mut m = String::from_str("I/O error: ");
                let d = io_error_text(e);
                m.append(d.as_str());
                assert(m@ == "I/O error: "@ + d@);
                m
            },
            Error::CacheMiss(s) => {
                let mut m = String::from_str("cache miss: ");
                m.append(s.as_str());
                m
            },
            Error::Corrupt(s) => {
                let mut m = String::from_str("corrupt cache: ");
                m.append(s.as_str());
                m
            },
            Error::Serde(d) => {
                let mut m = String::from_str("serialization error: ");
                m.append(d.as_str());
                m
            },
            Error::Compress(s) => {
                let mut m = String::from_str("compression error: ");
                m.append(s.as_str());
                m
            },
        }
    }
}

/// The result of a cache operation.
pub type Result<T> = std::result::Result<T, Error>;

/// `std::io::Error`'s `Display` text (`to_string`). Nothing is stated of
/// the text: it comes from the operating system.
#[verifier::external_body]
pub(crate) fn io_error_text(e: &std::io::Error) -> String {
    e.to_string()
}

} // verus!
