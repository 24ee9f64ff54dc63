//! Error values shared by every component of the interpreter.
use vstd::prelude::*;

verus! {

/// How an error is meant to be handled by whoever drives the interpreter.
///
/// `Recoverable` asks for more input (an unfinished form); `Unrecoverable`
/// aborts the form that was being processed.
#[derive(Clone, Copy, Debug, PartialEq, Eq, Structural)]
pub enum Severity {
    Recoverable,
    Unrecoverable,
}

/// An error: a human-readable message and a severity.
#[derive(Debug)]
pub struct MalErr {
    message: String,
    severity: Severity,
}

impl MalErr {
    /// The message text, as a sequence of characters.
    pub closed spec fn text(&self) -> Seq<char> {
        self.message@
    }

    /// The severity, in specifications.
    pub closed spec fn level(&self) -> Severity {
        self.severity
    }

    pub fn new(message: String, severity: Severity) -> (e: Self)
        ensures
            e.text() == message@,
            e.level() == severity,
    {
        Self { message, severity }
    }

    pub fn message(&self) -> (m: String)
        ensures
            m@ == self.text(),
    {
        self.message.clone()
    }

    pub fn severity(&self) -> (s: Severity)
        ensures
            s == self.level(),
    {
        self.severity
    }

    pub fn is_recoverable(&self) -> (b: bool)
        ensures
            b == (self.level() == Severity::Recoverable),
    {
        self.severity == Severity::Recoverable
    }

    /// The same error, made unrecoverable.
    pub fn severe(self) -> (e: Self)
        ensures
            e.text() == self.text(),
            e.level() == Severity::Unrecoverable,
    {
        Self { message: self.message, severity: Severity::Unrecoverable }
    }

    pub fn recoverable(message: &str) -> (e: Self)
        ensures
            e.text() == message@,
            e.level() == Severity::Recoverable,
    {
        Self::new(message.to_owned(), Severity::Recoverable)
    }

    pub fn unrecoverable(message: &str) -> (e: Self)
        ensures
            e.text() == message@,
            e.level() == Severity::Unrecoverable,
    {
        Self::new(message.to_owned(), Severity::Unrecoverable)
    }
}

} // verus!
