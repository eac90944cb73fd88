//! Errors of the maze API.
use vstd::prelude::*;

verus! {

/// What went wrong.
#[derive(Clone, Copy, Debug, PartialEq, Eq, Structural)]
pub enum ErrorKind {
    InvalidFilePath,
    InvalidCharacters,
    MazeIsNotSolvable,
    MazeNotSolved,
    MazeIsNotSet,
    StartEndNotSet,
}

/// The message of each kind of error.
pub open spec fn message_of(kind: ErrorKind) -> Seq<char> {
    match kind {
        ErrorKind::InvalidFilePath => "Invalid file path"@,
        ErrorKind::InvalidCharacters => "Characters are not unique. (start, end, wall...)"@,
        ErrorKind::MazeIsNotSet => "Maze is not set (loaded), consider using `set` method on `Maze`."@,
        ErrorKind::MazeIsNotSolvable => "This maze is unsolvable."@,
        ErrorKind::MazeNotSolved => "Could not retrieve path, maze is not yet solved."@,
        ErrorKind::StartEndNotSet => "Start/End are not set."@,
    }
}

impl ErrorKind {
    /// The message for this kind of error.
    pub fn as_str(&self) -> (r: &'static str)
        ensures
            r@ == message_of(*self),
    {
        match *self {
            ErrorKind::InvalidFilePath => "Invalid file path",
            ErrorKind::InvalidCharacters => "Characters are not unique. (start, end, wall...)",
            ErrorKind::MazeIsNotSet => "Maze is not set (loaded), consider using `set` method on `Maze`.",
            ErrorKind::MazeIsNotSolvable => "This maze is unsolvable.",
            ErrorKind::MazeNotSolved => "Could not retrieve path, maze is not yet solved.",
            ErrorKind::StartEndNotSet => "Start/End are not set.",
        }
    }
}

/// The error type of [`crate::Maze`].
#[derive(Clone, Copy, Debug, PartialEq, Eq, Structural)]
pub struct Error {
    pub kind: ErrorKind,
}

impl Error {
    /// The kind of this error.
    pub fn kind(&self) -> (r: ErrorKind)
        ensures
            r == self.kind,
    {
        self.kind
    }

    /// The message of this error.
    pub fn as_str(&self) -> (r: &'static str)
        ensures
            r@ == message_of(self.kind),
    {
        self.kind.as_str()
    }
}

impl From<ErrorKind> for Error {
    fn from(value: ErrorKind) -> (r: Error)
        ensures
            r.kind == value,
    {
        Error { kind: value }
    }
}

impl vstd::std_specs::convert::FromSpecImpl<ErrorKind> for Error {
    open spec fn obeys_from_spec() -> bool {
        true
    }

    open spec fn from_spec(v: ErrorKind) -> Error {
        Error { kind: v }
    }
}

} // verus!
