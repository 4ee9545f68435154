//! The failures that decoding a byte stream or a command can end in.

use vstd::prelude::*;

verus! {

/// Why a buffer is not a sequence of protocol values, or a protocol value
/// not a command. Offsets count bytes from the start of the buffer.
#[derive(Debug, PartialEq, Eq)]
pub enum SerirError {
    /// The line that starts at `offset` should be a decimal number and is
    /// not one that fits in 64 bits.
    ParseError { offset: usize },
    /// The byte `tag` at `offset` begins no known type of value.
    UnknownType { offset: usize, tag: u8 },
    /// The payload of a bulk string ends at `offset`, and what follows it
    /// there is no line break.
    MissingTerminator { offset: usize },
    /// The buffer ends too early: within the line that begins at `offset`,
    /// within the payload that begins there, or where the next value of an
    /// array should begin. More bytes behind it could still make it whole;
    /// that is so of no other failure.
    UnexpectedEnd { offset: usize },
    /// The value is not an array of bulk strings with at least one element.
    MalformedCommand,
    /// The element at `index`, which has to carry bytes, is the nil bulk
    /// string.
    NilArgument { index: usize },
    /// The command takes `expected` arguments and got `actual`. For a
    /// command that takes at least so many, `expected` is that minimum.
    WrongArity { expected: usize, actual: usize },
    /// The command word, `name`, is none of those known.
    UnknownCommand { name: Vec<u8> },
    /// An event reached a connection that was not waiting for it.
    OutOfTurn,
}

/// What a `SerirError` says, with sequences in place of vectors.
pub enum ErrorView {
    ParseError { offset: int },
    UnknownType { offset: int, tag: u8 },
    MissingTerminator { offset: int },
    UnexpectedEnd { offset: int },
    MalformedCommand,
    NilArgument { index: int },
    WrongArity { expected: int, actual: int },
    UnknownCommand { name: Seq<u8> },
    OutOfTurn,
}

impl View for SerirError {
    type V = ErrorView;

    open spec fn view(&self) -> ErrorView {
        match self {
            SerirError::ParseError { offset } => ErrorView::ParseError { offset: *offset as int },
            SerirError::UnknownType { offset, tag } => ErrorView::UnknownType {
                offset: *offset as int,
                tag: *tag,
            },
            SerirError::MissingTerminator { offset } => ErrorView::MissingTerminator {
                offset: *offset as int,
            },
            SerirError::UnexpectedEnd { offset } => ErrorView::UnexpectedEnd {
                offset: *offset as int,
            },
            SerirError::MalformedCommand => ErrorView::MalformedCommand,
            SerirError::NilArgument { index } => ErrorView::NilArgument { index: *index as int },
            SerirError::WrongArity { expected, actual } => ErrorView::WrongArity {
                expected: *expected as int,
                actual: *actual as int,
            },
            SerirError::UnknownCommand { name } => ErrorView::UnknownCommand { name: name@ },
            SerirError::OutOfTurn => ErrorView::OutOfTurn,
        }
    }
}

impl SerirError {
    /// Tells whether the failure is that of a buffer that ends too early,
    /// so that reading on may mend it. Every other failure is final.
    pub fn is_incomplete(&self) -> (incomplete: bool)
        ensures
            incomplete == (self@ is UnexpectedEnd),
    {
        match self {
            SerirError::UnexpectedEnd { .. } => true,
            _ => false,
        }
    }
}

/// The result of an operation that can fail with a `SerirError`.
pub type SerirResult<T> = Result<T, SerirError>;

} // verus!
