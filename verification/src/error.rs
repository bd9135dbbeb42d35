use vstd::prelude::*;
use vstd::string::StringExecFns;

verus! {

/// What a command answers when it cannot do its work.
#[derive(Debug)]
pub enum RrError {
    /// The library's own finding: something asked for is not there, or a
    /// record of the store is not what its place in a list requires.
    Message(String),
    /// The store failed; the text is the store's own.
    Other(String),
}

impl RrError {
    /// An error of the library with the text `message`.
    pub fn message(message: String) -> (r: RrError)
        ensures
            r == RrError::Message(message),
    {
        RrError::Message(message)
    }

    /// What was asked for, `name`, is not there.
    pub fn not_find(name: &str) -> (r: RrError)
        ensures
            r matches RrError::Message(m) && m@ == name@,
    {
        RrError::Message(name.to_owned())
    }

    /// A record that should name `name` does not.
    pub fn none_error(name: &str) -> (r: RrError)
        ensures
            r matches RrError::Message(m) && m@ == name@,
    {
        RrError::Message(name.to_owned())
    }

    /// The record `name` is not of the form that it must have.
    pub fn data_error(name: &str) -> (r: RrError)
        ensures
            r matches RrError::Message(m) && m@ == name@,
    {
        RrError::Message(name.to_owned())
    }

    /// The text of the error, as a reader should see it: the store's own
    /// text, or the library's behind the words `RrError: `.
    pub fn to_string(&self) -> (r: String)
        ensures
            match self {
                RrError::Message(m) => r@ == "RrError: "@ + m@,
                RrError::Other(m) => r@ == m@,
            },
    {
        match self {
            RrError::Message(s) => {
                let mut t: String = "RrError: ".to_owned();
                t.append(s.as_str());
                t
            },
            RrError::Other(e) => e.clone(),
        }
    }
}

} // verus!
