use vstd::prelude::*;

verus! {

/// The kinds of failure that the two parsers report.
#[derive(Debug, Clone, Copy, PartialEq, Eq, Structural)]
pub enum ErrorKind {
    /// The character at the position is not what the grammar requires there.
    UnexpectedToken,
    /// A field name occurs twice within one entry.
    DuplicateField,
    /// An ignore block never reaches its closing brace.
    UnterminatedBlock,
    /// A citation command is never followed by the brace that opens its key list.
    MissingKey,
    /// The input ends where more was required.
    EndOfInput,
}

/// A parse failure as the grammar specifications describe it: the kind, the
/// character offset at which it was detected, and the offending text.
pub struct Failure {
    pub kind: ErrorKind,
    pub pos: int,
    pub detail: Seq<char>,
}

pub open spec fn failure(kind: ErrorKind, pos: int, detail: Seq<char>) -> Failure {
    Failure { kind, pos, detail }
}

pub open spec fn end_of_input(pos: int) -> Failure {
    failure(ErrorKind::EndOfInput, pos, Seq::empty())
}

pub open spec fn unexpected(pos: int, found: char) -> Failure {
    failure(ErrorKind::UnexpectedToken, pos, seq![found])
}

/// A parse failure: its kind, the character offset where it was detected,
/// and the offending text (a character, a field name, a publication type),
/// empty where there is none.
#[derive(Debug)]
pub struct ParseError {
    pub kind: ErrorKind,
    pub pos: usize,
    pub detail: String,
}

impl View for ParseError {
    type V = Failure;

    open spec fn view(&self) -> Failure {
        Failure { kind: self.kind, pos: self.pos as int, detail: self.detail@ }
    }
}

} // verus!
