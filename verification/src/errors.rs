use vstd::prelude::*;

verus! {

/// The single error kind of the library: a catalog that could not be read or parsed.
#[derive(Debug)]
pub enum Error {
    InvalidCweFile { file: String, error: String },
}

impl Error {
    /// The source (file or stream name) that the error is about; empty where there is none.
    pub open spec fn source_name(&self) -> Seq<char> {
        match self {
            Error::InvalidCweFile { file, .. } => file@,
        }
    }

    /// The text of the underlying parse or read failure.
    pub open spec fn reason(&self) -> Seq<char> {
        match self {
            Error::InvalidCweFile { error, .. } => error@,
        }
    }

    /// Builds the error for catalog input `file` that failed with `error`.
    pub fn invalid_cwe_file(file: String, error: String) -> (e: Error)
        ensures
            e.source_name() == file@,
            e.reason() == error@,
    {
        Error::InvalidCweFile { file, error }
    }

    /// The name of the offending source.
    pub fn file(&self) -> (f: &String)
        ensures
            f@ == self.source_name(),
    {
        match self {
            Error::InvalidCweFile { file, .. } => file,
        }
    }

    /// The underlying failure, as text.
    pub fn error(&self) -> (e: &String)
        ensures
            e@ == self.reason(),
    {
        match self {
            Error::InvalidCweFile { error, .. } => error,
        }
    }
}

} // verus!
