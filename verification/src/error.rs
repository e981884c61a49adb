//! The error of the library: a message for the user.
use vstd::prelude::*;

verus! {

/// An error with the message that describes it.
#[derive(Debug)]
pub struct Error {
    pub message: String,
}

impl View for Error {
    type V = Seq<char>;

    open spec fn view(&self) -> Seq<char> {
        self.message@
    }
}

impl Error {
    /// An error with the given message.
    pub fn new(message: &str) -> (e: Error)
        ensures
            e@ == message@,
    {
        Error { message: message.to_owned() }
    }

    /// An error with a message of three parts.
    pub(crate) fn of3(a: &str, b: &str, c: &str) -> (e: Error)
        ensures
            e@ == a@ + b@ + c@,
    {
        let mut message: String = String::new();
        message.append(a);
        message.append(b);
        message.append(c);
        assert(message@ =~= a@ + b@ + c@);
        Error { message }
    }

    /// An error with a message of five parts.
    pub(crate) fn of5(a: &str, b: &str, c: &str, d: &str, f: &str) -> (e: Error)
        ensures
            e@ == a@ + b@ + c@ + d@ + f@,
    {
        let mut message: String = String::new();
        message.append(a);
        message.append(b);
        message.append(c);
        message.append(d);
        message.append(f);
        assert(message@ =~= a@ + b@ + c@ + d@ + f@);
        Error { message }
    }

    /// The message.
    pub fn to_text(&self) -> (s: String)
        ensures
            s@ == self@,
    {
        self.message.clone()
    }
}

} // verus!
