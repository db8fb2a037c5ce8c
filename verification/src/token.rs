//! The alphabet of the expression language.

use vstd::prelude::*;

verus! {

/// One symbol of a tokenized boolean expression: a binary connective, the
/// unary `Not`, a constant, a grouping parenthesis, or a named variable.
#[derive(Debug, Clone, PartialEq, Eq, Hash)]
pub enum Token {
    And,      // ∧
    Or,       // ∨
    Xor,      // ⊕
    Not,      // !
    Eq,       // ≡
    ImplicAB, // →
    ImplicBA, // ←
    Nand,     // ⊼
    Nor,      // ⊽
    One,      // 1
    Zero,     // 0
    Open,     // (
    Close,    // )
    Var(String),
}

/// Binary connectives: the operators that take a left and a right operand.
pub open spec fn is_binary_op(t: Token) -> bool {
    t is And || t is Or || t is Xor || t is Eq || t is ImplicAB || t is ImplicBA || t is Nand
        || t is Nor
}

/// Operands: the tokens that denote a value by themselves.
pub open spec fn is_operand(t: Token) -> bool {
    t is One || t is Zero || t is Var
}

impl Token {
    /// An equal copy, spelled out so verified callers know the copy equals
    /// the original.
    pub fn dup(&self) -> (t: Token)
        ensures
            t == *self,
    {
        match self {
            Token::And => Token::And,
            Token::Or => Token::Or,
            Token::Xor => Token::Xor,
            Token::Not => Token::Not,
            Token::Eq => Token::Eq,
            Token::ImplicAB => Token::ImplicAB,
            Token::ImplicBA => Token::ImplicBA,
            Token::Nand => Token::Nand,
            Token::Nor => Token::Nor,
            Token::One => Token::One,
            Token::Zero => Token::Zero,
            Token::Open => Token::Open,
            Token::Close => Token::Close,
            Token::Var(name) => Token::Var(name.clone()),
        }
    }
}

/// The text a token prints as.
pub open spec fn spec_token_text(t: Token) -> Seq<char> {
    match t {
        Token::And => "∧"@,
        Token::Or => "∨"@,
        Token::Xor => "⊕"@,
        Token::Not => "!"@,
        Token::Eq => "≡"@,
        Token::ImplicAB => "→"@,
        Token::ImplicBA => "←"@,
        Token::Nand => "⊼"@,
        Token::Nor => "⊽"@,
        Token::One => "1"@,
        Token::Zero => "0"@,
        Token::Open => "("@,
        Token::Close => ")"@,
        Token::Var(name) => name@,
    }
}

impl Token {
    /// The text this token prints as.
    pub fn text(&self) -> (s: String)
        ensures
            s@ == spec_token_text(*self),
    {
        match self {
            Token::And => "∧".to_owned(),
            Token::Or => "∨".to_owned(),
            Token::Xor => "⊕".to_owned(),
            Token::Not => "!".to_owned(),
            Token::Eq => "≡".to_owned(),
            Token::ImplicAB => "→".to_owned(),
            Token::ImplicBA => "←".to_owned(),
            Token::Nand => "⊼".to_owned(),
            Token::Nor => "⊽".to_owned(),
            Token::One => "1".to_owned(),
            Token::Zero => "0".to_owned(),
            Token::Open => "(".to_owned(),
            Token::Close => ")".to_owned(),
            Token::Var(name) => name.clone(),
        }
    }
}

} // verus!
