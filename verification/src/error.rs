use vstd::prelude::*;

verus! {

/// A failure of one download, split by origin: the transport (anything that
/// went wrong with the request or while reading the response body) or the
/// filesystem (creating or writing the destination file). A failure is
/// isolated to its one download and never stops the rest of the run.
#[derive(Debug)]
pub enum Error {
    /// A network-side failure, carrying its description.
    Http(String),
    /// A filesystem-side failure, carrying its description.
    Io(String),
}

impl Error {
    /// The description carried by the error, whichever side it came from.
    pub open spec fn message_spec(&self) -> Seq<char> {
        match self {
            Error::Http(m) => m@,
            Error::Io(m) => m@,
        }
    }

    /// Hands back the description carried by the error.
    pub fn message(&self) -> (r: String)
        ensures
            r@ == self.message_spec(),
    {
        match self {
            Error::Http(m) => m.clone(),
            Error::Io(m) => m.clone(),
        }
    }

    /// True exactly on the transport-side variant.
    pub fn is_http(&self) -> (r: bool)
        ensures
            r == (self is Http),
    {
        match self {
            Error::Http(_) => true,
            Error::Io(_) => false,
        }
    }
}

} // verus!
