//! What makes parsing fail.

use crate::pair::Rule;
use vstd::prelude::*;

verus! {

/// The reason why a text has no syntax tree. Every position is a byte
/// offset into the text.
#[derive(Debug, PartialEq, Eq)]
pub enum ParseError {
    /// The text leaves the grammar at `position`, where one of the rules in
    /// `expected` had to match.
    Syntax { position: usize, expected: Vec<Rule> },
    /// The integer literal that begins at `position` does not fit in a
    /// signed 64-bit integer.
    Overflow { position: usize },
    /// The node at `position` is tagged as a number, but its text is not an
    /// optional sign followed by decimal digits.
    MalformedLiteral { position: usize },
    /// The node at `position`, tagged `rule`, has no place in an expression:
    /// its rule is none of the three kinds of expression, or it is an
    /// assignment with fewer than two nodes inside.
    StructuralInvariant { position: usize, rule: Rule },
}

/// The mathematical model of a `ParseError`.
pub enum Failure {
    Syntax { position: int, expected: Seq<Rule> },
    Overflow { position: int },
    MalformedLiteral { position: int },
    StructuralInvariant { position: int, rule: Rule },
}

impl ParseError {
    /// The byte offset that the error points at.
    pub fn position(&self) -> (at: usize)
        ensures
            at == self@.position(),
    {
        match self {
            ParseError::Syntax { position, .. } => *position,
            ParseError::Overflow { position } => *position,
            ParseError::MalformedLiteral { position } => *position,
            ParseError::StructuralInvariant { position, .. } => *position,
        }
    }

    pub open spec fn view(&self) -> Failure {
        match self {
            ParseError::Syntax { position, expected } => Failure::Syntax {
                position: *position as int,
                expected: expected@,
            },
            ParseError::Overflow { position } => Failure::Overflow { position: *position as int },
            ParseError::MalformedLiteral { position } => Failure::MalformedLiteral {
                position: *position as int,
            },
            ParseError::StructuralInvariant { position, rule } => Failure::StructuralInvariant {
                position: *position as int,
                rule: *rule,
            },
        }
    }
}

impl Failure {
    /// The same failure, found `by` bytes further into a text.
    pub open spec fn moved(self, by: int) -> Failure {
        match self {
            Failure::Syntax { position, expected } => Failure::Syntax {
                position: position + by,
                expected,
            },
            Failure::Overflow { position } => Failure::Overflow { position: position + by },
            Failure::MalformedLiteral { position } => Failure::MalformedLiteral {
                position: position + by,
            },
            Failure::StructuralInvariant { position, rule } => Failure::StructuralInvariant {
                position: position + by,
                rule,
            },
        }
    }

    /// The byte offset that the failure points at.
    pub open spec fn position(self) -> int {
        match self {
            Failure::Syntax { position, .. } => position,
            Failure::Overflow { position } => position,
            Failure::MalformedLiteral { position } => position,
            Failure::StructuralInvariant { position, .. } => position,
        }
    }
}

} // verus!
