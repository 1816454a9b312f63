//! The shape of an operator: where its arguments stand around its name parts.

use vstd::prelude::*;

verus! {

/// How an infix operator groups with its neighbours of the same precedence.
#[derive(Debug, Clone, Copy, PartialEq, Eq, Structural)]
pub enum Associativity {
    Left,
    Right,
    Non,
}

/// On which sides an operator takes an argument beside its name parts.
#[derive(Debug, Clone, Copy, PartialEq, Eq, Structural)]
pub enum Fixity {
    Prefix,
    Infix(Associativity),
    Postfix,
    Closed,
}

impl Fixity {
    /// The number of arguments that stand outside an operator's name parts:
    /// none for a closed operator, one for a prefix or a postfix operator,
    /// two for an infix operator.
    pub open spec fn open_sides(self) -> nat {
        match self {
            Fixity::Closed => 0,
            Fixity::Prefix => 1,
            Fixity::Postfix => 1,
            Fixity::Infix(_) => 2,
        }
    }

    /// Whether an argument stands before the first name part.
    pub open spec fn opens_left(self) -> bool {
        self is Postfix || self is Infix
    }

    /// Whether an argument stands behind the last name part.
    pub open spec fn opens_right(self) -> bool {
        self is Prefix || self is Infix
    }
}

} // verus!
