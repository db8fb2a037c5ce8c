use bool_algebra::Error;
use bool_algebra::Token;

fn var(name: &str) -> Token {
    Token::Var(name.to_string())
}

#[test]
fn equivalence_table() {
    // a ≡ b -> 1001
    let input = bool_algebra::parse(&vec![var("a"), Token::Eq, var("b")]);
    assert_eq!(input, Ok(vec![true, false, false, true]));
}

#[test]
fn implication_forward_table() {
    // a → b -> 1101
    let input = bool_algebra::parse(&vec![var("a"), Token::ImplicAB, var("b")]);
    assert_eq!(input, Ok(vec![true, true, false, true]));
}

#[test]
fn implication_backward_table() {
    // a ← b -> 1011
    let input = bool_algebra::parse(&vec![var("a"), Token::ImplicBA, var("b")]);
    assert_eq!(input, Ok(vec![true, false, true, true]));
}

#[test]
fn nand_table() {
    // a ⊼ b -> 1110
    let input = bool_algebra::parse(&vec![var("a"), Token::Nand, var("b")]);
    assert_eq!(input, Ok(vec![true, true, true, false]));
}

#[test]
fn nor_table() {
    // a ⊽ b -> 1000
    let input = bool_algebra::parse(&vec![var("a"), Token::Nor, var("b")]);
    assert_eq!(input, Ok(vec![true, false, false, false]));
}

#[test]
fn and_binds_tighter_than_or() {
    // a | b & c  ==  a | (b & c) -> 0001 1111
    let input = bool_algebra::parse(&vec![var("a"), Token::Or, var("b"), Token::And, var("c")]);
    assert_eq!(
        input,
        Ok(vec![false, false, false, true, true, true, true, true])
    );
}

#[test]
fn not_binds_tighter_than_and() {
    // !a & b  ==  (!a) & b -> 0100
    let input = bool_algebra::parse(&vec![Token::Not, var("a"), Token::And, var("b")]);
    assert_eq!(input, Ok(vec![false, true, false, false]));
}

#[test]
fn unmatched_close_is_a_parenthesis_error() {
    // a )  fails with the parenthesis-specific error, at the offending token.
    let r = bool_algebra::validate_func(&vec![var("a"), Token::Close]);
    assert_eq!(r, Err(Error::UnbalancedClose { position: 1 }));
    let p = bool_algebra::parse(&vec![var("a"), Token::Close]);
    assert_eq!(p, Err(Error::UnbalancedClose { position: 1 }));
}

#[test]
fn unmatched_open_is_a_parenthesis_error() {
    // ( a  fails once the stream ends with the group still open.
    let r = bool_algebra::validate_func(&vec![Token::Open, var("a")]);
    assert_eq!(r, Err(Error::UnbalancedOpen));
    // ( a ) (  likewise: the only failing check is parenthesis balance.
    let r = bool_algebra::validate_func(&vec![
        Token::Open,
        var("a"),
        Token::Close,
        Token::Open,
    ]);
    assert_eq!(r, Err(Error::UnbalancedOpen));
    // ( a ) ( !  too: the lookahead behind the dangling group finds no
    // operand, so what fails is still the balance at end of stream.
    let r = bool_algebra::validate_func(&vec![
        Token::Open,
        var("a"),
        Token::Close,
        Token::Open,
        Token::Not,
    ]);
    assert_eq!(r, Err(Error::UnbalancedOpen));
}

#[test]
fn missing_operand_is_an_arity_error() {
    // a &  owes a second operand.
    let r = bool_algebra::validate_func(&vec![var("a"), Token::And]);
    assert_eq!(r, Err(Error::ExpectedOperand { position: 2 }));
    // a & & b  has one operator too many.
    let r = bool_algebra::validate_func(&vec![var("a"), Token::And, Token::And, var("b")]);
    assert_eq!(r, Err(Error::ExpectedOperand { position: 2 }));
}

#[test]
fn adjacent_operands_are_rejected() {
    // a b  lacks an operator in between; the second operand is named.
    let r = bool_algebra::validate_func(&vec![var("a"), var("b")]);
    assert_eq!(r, Err(Error::ExpectedOperator { token: var("b") }));
    // Not and grouping tokens do not count as operands: the failure still
    // names the operand behind them.
    // a ( b )
    let r = bool_algebra::validate_func(&vec![var("a"), Token::Open, var("b"), Token::Close]);
    assert_eq!(r, Err(Error::ExpectedOperator { token: var("b") }));
    // a ! b
    let r = bool_algebra::validate_func(&vec![var("a"), Token::Not, var("b")]);
    assert_eq!(r, Err(Error::ExpectedOperator { token: var("b") }));
    // ( a ) 1
    let r = bool_algebra::validate_func(&vec![Token::Open, var("a"), Token::Close, Token::One]);
    assert_eq!(r, Err(Error::ExpectedOperator { token: Token::One }));
}

#[test]
fn dangling_negation_owes_an_operand() {
    // a !  ends while the negation still owes its operand.
    let r = bool_algebra::validate_func(&vec![var("a"), Token::Not]);
    assert_eq!(r, Err(Error::ExpectedOperand { position: 2 }));
}

#[test]
fn empty_sequence_is_rejected() {
    let r = bool_algebra::validate_func(&vec![]);
    assert_eq!(r, Err(Error::ExpectedOperand { position: 0 }));
}

#[test]
fn valid_sequence_is_accepted() {
    let r = bool_algebra::validate_func(&vec![
        Token::Not,
        Token::Open,
        var("a"),
        Token::Or,
        var("b"),
        Token::Close,
    ]);
    assert_eq!(r, Ok(()));
}

#[test]
fn wrong_table_length_is_a_shape_error() {
    let names = vec!["a".to_string(), "b".to_string()];
    let table = vec![false, true, true];
    assert_eq!(
        bool_algebra::validate_tabel(&table, &names),
        Err(Error::WrongTableLength {
            var_count: 2,
            table_len: 3
        })
    );
    assert_eq!(
        bool_algebra::dnf(&table, &names, true),
        Err(Error::WrongTableLength {
            var_count: 2,
            table_len: 3
        })
    );
    assert!(matches!(
        bool_algebra::validate_tabel(&vec![false, true, true, false], &names),
        Ok(())
    ));
}

#[test]
fn round_trip_two_variables() {
    // parse(dnf(table)) gives the table back, for every nonzero table shape.
    let names = vec!["a".to_string(), "b".to_string()];
    for pattern in 1..16u32 {
        let table: Vec<bool> = (0..4).map(|i| pattern & (1 << i) != 0).collect();
        for parens in [true, false] {
            let toks = bool_algebra::dnf(&table, &names, parens).unwrap();
            assert_eq!(bool_algebra::validate_func(&toks), Ok(()));
            assert_eq!(bool_algebra::parse(&toks), Ok(table.clone()));
        }
    }
}

#[test]
fn round_trip_three_variables() {
    let names = vec!["x".to_string(), "y".to_string(), "z".to_string()];
    let table = vec![true, false, false, true, true, true, false, false];
    let toks = bool_algebra::dnf(&table, &names, true).unwrap();
    assert_eq!(bool_algebra::parse(&toks), Ok(table));
}

#[test]
fn all_false_table_gives_the_empty_sequence() {
    let names = vec!["a".to_string(), "b".to_string()];
    let table = vec![false, false, false, false];
    assert_eq!(bool_algebra::dnf(&table, &names, true), Ok(vec![]));
    // The empty sequence stands for constant false and is no expression.
    assert_eq!(
        bool_algebra::validate_func(&vec![]),
        Err(Error::ExpectedOperand { position: 0 })
    );
}

#[test]
fn get_names_is_deterministic() {
    let func = vec![var("q"), Token::And, var("p"), Token::Or, var("q")];
    let first = bool_algebra::get_names(&func);
    let second = bool_algebra::get_names(&func);
    assert_eq!(first, second);
    assert_eq!(first, vec!["p".to_string(), "q".to_string()]);
}

#[test]
fn enumeration_visits_every_pattern_once() {
    let mut values = vec![false; 3];
    let mut seen = Vec::new();
    loop {
        seen.push(values.clone());
        if !bool_algebra::update_values(&mut values) {
            break;
        }
    }
    assert_eq!(seen.len(), 8);
    for i in 0..seen.len() {
        for j in 0..i {
            assert_ne!(seen[i], seen[j]);
        }
    }
    assert_eq!(values, vec![false, false, false]);
}

#[test]
fn print_func_joins_tokens() {
    let func = vec![Token::Not, var("a"), Token::And, var("b")];
    assert_eq!(bool_algebra::print_func(&func), "! a ∧ b \n");
}

#[test]
fn error_messages_name_the_failure() {
    let e = Error::UnbalancedClose { position: 3 };
    assert_eq!(e.message(), "too many closing parentheses");
    let e = Error::ExpectedOperator { token: var("b") };
    assert_eq!(e.message(), "expected operator got b");
}

#[test]
fn print_tabel_reports_a_shape_mismatch() {
    let names = vec!["a".to_string(), "b".to_string()];
    let table = vec![true, false, true];
    assert_eq!(
        bool_algebra::print_tabel(&table, &names, &"result".to_string()),
        "unexpected table len, expected 2^2 entries, got 3"
    );
}

#[test]
fn shape_error_message_renders_the_lengths() {
    let e = Error::WrongTableLength {
        var_count: 10,
        table_len: 1025,
    };
    assert_eq!(
        e.message(),
        "unexpected table len, expected 2^10 entries, got 1025"
    );
}

#[test]
fn constant_leaves_parse() {
    assert_eq!(bool_algebra::parse(&vec![Token::One]), Ok(vec![true]));
    assert_eq!(bool_algebra::parse(&vec![Token::Zero]), Ok(vec![false]));
}

#[test]
fn reshaping_nothing_gives_nothing() {
    // No inputs and no outputs: an empty stream reshapes to no tables.
    assert_eq!(bool_algebra::parse_full(0, 0, vec![]), Ok(vec![]));
    // A nonempty stream cannot fit zero-width rows.
    assert!(matches!(
        bool_algebra::parse_full(0, 0, vec![true]),
        Err(bool_algebra::Error::WrongTableLength { .. })
    ));
    // With no output columns the rows have nowhere to go.
    assert_eq!(
        bool_algebra::parse_fill(3, 0, vec![true, false, true, false, true, false], false),
        Ok(vec![])
    );
}

#[test]
fn bool_to_u32_reads_msb_first() {
    assert_eq!(bool_algebra::bool_to_u32(vec![]), 0);
    assert_eq!(bool_algebra::bool_to_u32(vec![true]), 1);
    assert_eq!(
        bool_algebra::bool_to_u32(vec![true, false, true, true]),
        11
    );
}
