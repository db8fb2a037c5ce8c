//! The failure values the library reports.

use crate::token::{spec_token_text, Token};
use vstd::prelude::*;

verus! {

/// Why a token sequence or a truth table was rejected.
///
/// Each variant is one failure category, with the detail a caller needs to
/// point at the offending place; callers branch on the variant instead of
/// matching message text.
#[derive(Debug, Clone, PartialEq, Eq)]
pub enum Error {
    /// The closing parenthesis at `position` has no matching opener.
    UnbalancedClose { position: usize },
    /// The sequence ended with open parentheses never closed.
    UnbalancedOpen,
    /// An operand was still owed at `position` (the end of the sequence, a
    /// binary operator with too few operands, or an empty group).
    ExpectedOperand { position: usize },
    /// `token` starts a new operand right after a complete one, with no
    /// operator in between.
    ExpectedOperator { token: Token },
    /// A truth table over `var_count` variables must hold exactly
    /// `2^var_count` entries; this one held `table_len`.
    WrongTableLength { var_count: usize, table_len: usize },
}

/// The decimal digits of a number, most significant first.
pub open spec fn spec_decimal(n: nat) -> Seq<char>
    decreases n,
{
    if n < 10 {
        seq![(48 + n) as char]
    } else {
        spec_decimal(n / 10) + seq![(48 + n % 10) as char]
    }
}

/// Appends the decimal digits of `n`.
fn push_decimal(out: &mut String, n: usize)
    ensures
        final(out)@ == old(out)@ + spec_decimal(n as nat),
    decreases n,
{
    if n >= 10 {
        push_decimal(out, n / 10);
    }
    let ghost mid = out@;
    let d = n % 10;
    match d {
        0 => out.append("0"),
        1 => out.append("1"),
        2 => out.append("2"),
        3 => out.append("3"),
        4 => out.append("4"),
        5 => out.append("5"),
        6 => out.append("6"),
        7 => out.append("7"),
        8 => out.append("8"),
        _ => out.append("9"),
    }
    proof {
        reveal_strlit("0");
        reveal_strlit("1");
        reveal_strlit("2");
        reveal_strlit("3");
        reveal_strlit("4");
        reveal_strlit("5");
        reveal_strlit("6");
        reveal_strlit("7");
        reveal_strlit("8");
        reveal_strlit("9");
        assert(out@ =~= mid + seq![(48 + n as nat % 10) as char]);
        if n < 10 {
            assert(out@ =~= old(out)@ + spec_decimal(n as nat));
        } else {
            assert(out@ =~= old(out)@ + (spec_decimal(n as nat / 10) + seq![
                (48 + n as nat % 10) as char,
            ]));
        }
    }
}

/// The text an error prints as.
pub open spec fn spec_error_message(e: Error) -> Seq<char> {
    match e {
        Error::UnbalancedClose { .. } => "too many closing parentheses"@,
        Error::UnbalancedOpen {
            ..
        } => "number of open parentheses doesn't match with the number of closing parentheses"@,
        Error::ExpectedOperand { .. } => "expected an operand"@,
        Error::ExpectedOperator { token } => "expected operator got "@ + spec_token_text(token),
        Error::WrongTableLength { var_count, table_len } => "unexpected table len, expected 2^"@
            + spec_decimal(var_count as nat) + " entries, got "@ + spec_decimal(table_len as nat),
    }
}

impl Error {
    /// A human-readable account of the failure.
    pub fn message(&self) -> (s: String)
        ensures
            s@ == spec_error_message(*self),
    {
        match self {
            Error::UnbalancedClose { .. } => "too many closing parentheses".to_owned(),
            Error::UnbalancedOpen {
                ..
            } => "number of open parentheses doesn't match with the number of closing parentheses".to_owned(),
            Error::ExpectedOperand { .. } => "expected an operand".to_owned(),
            Error::ExpectedOperator { token } => {
                let mut s = "expected operator got ".to_owned();
                s.append(token.text().as_str());
                s
            },
            Error::WrongTableLength { var_count, table_len } => {
                let mut s = "unexpected table len, expected 2^".to_owned();
                push_decimal(&mut s, *var_count);
                s.append(" entries, got ");
                push_decimal(&mut s, *table_len);
                s
            },
        }
    }
}

} // verus!
