//! A general error with a message and an optional chained cause.
use vstd::prelude::*;

verus! {

/// An error carrying a human-readable message and, optionally, the error
/// that caused it.
#[derive(Debug, PartialEq)]
pub struct WrappedError {
    msg: String,
    cause: Option<Box<WrappedError>>,
}

impl WrappedError {
    /// The message of this error.
    pub closed spec fn spec_msg(&self) -> Seq<char> {
        self.msg@
    }

    /// The error that caused this one, if any.
    pub closed spec fn spec_cause(&self) -> Option<WrappedError> {
        match self.cause {
            Some(b) => Some(*b),
            None => None,
        }
    }

    pub fn new(msg: &str) -> (r: Self)
        ensures
            r.spec_msg() == msg@,
            r.spec_cause() is None,
    {
        WrappedError { msg: msg.to_owned(), cause: None }
    }

    pub fn with_cause(msg: &str, err: WrappedError) -> (r: Self)
        ensures
            r.spec_msg() == msg@,
            r.spec_cause() == Some(err),
    {
        WrappedError { msg: msg.to_owned(), cause: Some(Box::new(err)) }
    }

    /// The message of this error.
    pub fn message(&self) -> (r: &str)
        ensures
            r@ == self.spec_msg(),
    {
        self.msg.as_str()
    }

    /// The error that caused this one, if any.
    pub fn cause(&self) -> (r: Option<&WrappedError>)
        ensures
            r matches Some(c) ==> self.spec_cause() == Some(*c),
            r is None ==> self.spec_cause() is None,
    {
        match &self.cause {
            Some(b) => Some(&**b),
            None => None,
        }
    }
}

} // verus!
