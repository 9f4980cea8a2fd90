//! Why building a syntax tree can stop.
use vstd::prelude::*;
use ecow::EcoString;
use crate::def::{CodePos, TokenKind};
use crate::eco::eco_chars;

verus! {

/// The constructs whose malformation a parse reports.
#[derive(Clone, Copy, Debug, PartialEq, Eq, Structural)]
pub enum Construct {
    /// A declaration (`let`, `mut` or `def`).
    Declaration,
    /// An integer literal.
    NumLiteral,
    /// A decimal literal.
    DotLiteral,
    /// A boolean literal.
    BlnLiteral,
    /// A character literal.
    ChrLiteral,
    /// A string literal, whose quotes could not be taken off.
    StringLiteral,
    /// A raw string literal, whose brackets could not be taken off.
    RawStringLiteral,
    /// An expression that is a lone closing parenthesis.
    UnopenedExpression,
    /// A one-token expression of a kind that is not parsed (yet).
    UnimplementedExpression,
    /// A parenthesized expression closed without being opened.
    ParenthesizedExpression,
    /// An expression holding a token that has no place in it.
    UndelimitedExpression,
}

/// Why building a syntax tree stopped.
#[derive(Clone, Debug, PartialEq)]
pub enum AstError {
    /// A construct is malformed at a position.
    Malformed { what: Construct, pos: CodePos },
    /// Something is not implemented yet; at a position, where one is known.
    Unimplemented { pos: Option<CodePos> },
    /// A token that the lexer could not read.
    Unknown { token: EcoString, pos: CodePos },
    /// A token is not of the kind it was handed over as.
    NotA { kind: TokenKind, literal: EcoString },
    /// A closing parenthesis found no value set aside to drop.
    StackUnderflow,
}

/// What an error is seen as in contracts: texts as their characters.
pub enum AstErrorView {
    Malformed { what: Construct, pos: CodePos },
    Unimplemented { pos: Option<CodePos> },
    Unknown { token: Seq<char>, pos: CodePos },
    NotA { kind: TokenKind, literal: Seq<char> },
    StackUnderflow,
}

impl View for AstError {
    type V = AstErrorView;

    open spec fn view(&self) -> AstErrorView {
        match self {
            AstError::Malformed { what, pos } => AstErrorView::Malformed { what: *what, pos: *pos },
            AstError::Unimplemented { pos } => AstErrorView::Unimplemented { pos: *pos },
            AstError::Unknown { token, pos } => AstErrorView::Unknown {
                token: eco_chars(*token),
                pos: *pos,
            },
            AstError::NotA { kind, literal } => AstErrorView::NotA {
                kind: *kind,
                literal: eco_chars(*literal),
            },
            AstError::StackUnderflow => AstErrorView::StackUnderflow,
        }
    }
}

/// The view of a malformation error.
pub open spec fn malformed(what: Construct, pos: CodePos) -> AstErrorView {
    AstErrorView::Malformed { what, pos }
}

} // verus!
