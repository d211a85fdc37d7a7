//! The words of a small language of sums, products and comparisons.

use crate::decimal::{decimal, push_decimal};
use vstd::prelude::*;
use vstd::string::StringExecFns;

verus! {

/// A word of the language.
#[derive(Clone, Copy, Debug, PartialEq, Eq, Structural)]
pub enum Token {
    /// A whole number.
    Int(isize),
    /// `==`
    EqOp,
    /// `>=`
    GteOp,
    /// `<=`
    LteOp,
    /// `>`
    GtOp,
    /// `<`
    LtOp,
    /// `+`
    PlusOp,
    /// `-`
    MinusOp,
    /// `*`
    MultOp,
    /// `/`
    DivOp,
    /// `(`
    OParen,
    /// `)`
    CParen,
}

/// Why a text could not be split into words.
#[derive(Clone, Copy, Debug, PartialEq, Eq, Structural)]
pub enum TokenErr {
    /// No word begins at this position of the text.
    Invalid(usize),
}

impl TokenErr {
    /// The error written out.
    pub open spec fn text(&self) -> Seq<char> {
        match self {
            TokenErr::Invalid(pos) => "TokenErr: Invalid token at "@ + decimal(*pos as nat),
        }
    }

    /// Writes the error out.
    pub fn to_string(&self) -> (text: String)
        ensures
            text@ == self.text(),
    {
        match self {
            TokenErr::Invalid(pos) => {
                let mut text = String::from_str("TokenErr: Invalid token at ");
                push_decimal(&mut text, *pos as u128);
                text
            },
        }
    }
}

} // verus!
