use bool_algebra::Token;

#[test]
fn dnf() {
    let table = vec![false, false, false, true];
    let names = vec!["a".to_string(), "b".to_string()];
    let dnf = vec![
        Token::Open,
        Token::Var("a".to_string()),
        Token::And,
        Token::Var("b".to_string()),
        Token::Close,
    ];
    assert_eq!(bool_algebra::dnf(&table, &names, true), Ok(dnf));

    let table = vec![true, true, false, false, true, true, false, false];
    let names = vec!["a".to_string(), "b".to_string(), "c".to_string()];
    let dnf = vec![
        Token::Open,
        Token::Not,
        Token::Var("a".to_string()),
        Token::And,
        Token::Not,
        Token::Var("b".to_string()),
        Token::And,
        Token::Not,
        Token::Var("c".to_string()),
        Token::Close,
        Token::Or,
        Token::Open,
        Token::Not,
        Token::Var("a".to_string()),
        Token::And,
        Token::Not,
        Token::Var("b".to_string()),
        Token::And,
        Token::Var("c".to_string()),
        Token::Close,
        Token::Or,
        Token::Open,
        Token::Var("a".to_string()),
        Token::And,
        Token::Not,
        Token::Var("b".to_string()),
        Token::And,
        Token::Not,
        Token::Var("c".to_string()),
        Token::Close,
        Token::Or,
        Token::Open,
        Token::Var("a".to_string()),
        Token::And,
        Token::Not,
        Token::Var("b".to_string()),
        Token::And,
        Token::Var("c".to_string()),
        Token::Close,
    ];
    assert_eq!(bool_algebra::dnf(&table, &names, true), Ok(dnf));
}

#[test]
fn test_print_tabel() {
    let table = vec![false, false, false, true];
    let names = vec!["a".to_string(), "b".to_string()];
    let output = bool_algebra::print_tabel(&table, &names, &"result".to_string());
    let lines = vec![
        "a b | result",
        "0 0 |   0",
        "0 1 |   0",
        "1 0 |   0",
        "1 1 |   1\n",
    ];
    assert_eq!(output, lines.join("\n"));

    let table = vec![true, true, true, true, true, true, false, true];
    let names = vec!["a".to_string(), "input".to_string(), "in_1".to_string()];
    let output = bool_algebra::print_tabel(&table, &names, &"result".to_string());

    let lines = vec![
        "a input in_1 | result",
        "0   0     0  |   1",
        "0   0     1  |   1",
        "0   1     0  |   1",
        "0   1     1  |   1",
        "1   0     0  |   1",
        "1   0     1  |   1",
        "1   1     0  |   0",
        "1   1     1  |   1\n",
    ];

    assert_eq!(output, lines.join("\n"));
}

#[test]
fn test_generate_table_2d() {
    let table = vec![
        vec![false, false, false],
        vec![false, false, true],
        vec![false, true, false],
        vec![false, true, true],
        vec![true, false, false],
        vec![true, false, true],
        vec![true, true, false],
        vec![true, true, true],
    ];
    assert_eq!(bool_algebra::generate_table_2d(3), table);

    assert_eq!(bool_algebra::generate_table_2d(6).len(), 64);
}

#[test]
fn test_update_values() {
    let mut values = vec![false, true, false];
    assert_eq!(bool_algebra::update_values(&mut values), true);
    assert_eq!(values, vec![false, true, true]);
    values = vec![true, true, true];
    assert_eq!(bool_algebra::update_values(&mut values), false);
}

#[test]
fn test_get_names() {
    let input = vec![
        Token::Var("a".to_string()),
        Token::Var("b".to_string()),
        Token::Var("a".to_string()),
        Token::Var("c".to_string()),
        Token::Var("c".to_string()),
        Token::Var("d".to_string()),
    ];

    assert_eq!(bool_algebra::get_names(&input), vec!["a", "b", "c", "d"]);
}

#[test]
fn test_single() {
    let output = vec![false, true];
    let parse = bool_algebra::parse(&vec![Token::Var("a".to_string())]);
    let input = parse.unwrap();
    assert_eq!(input.len(), output.len());
    for i in 0..input.len() {
        assert_eq!(input[i], output[i], "at {}", i);
    }
}

#[test]
fn test_const_false() {
    let parse = bool_algebra::parse(&vec![Token::Zero, Token::And, Token::One]);
    let output = parse.unwrap();
    assert_eq!(output.len(), 1);
    assert_eq!(output[0], false);
}

#[test]
fn test_const_true() {
    let parse = bool_algebra::parse(&vec![Token::One, Token::And, Token::One]);
    let output = parse.unwrap();
    assert_eq!(output.len(), 1);
    assert_eq!(output[0], true);
}

#[test]
fn test_and() {
    let output = vec![false, false, false, true];
    let input = bool_algebra::parse(&vec![
        Token::Var("a".to_string()),
        Token::And,
        Token::Var("b".to_string()),
    ]);

    assert_eq!(input, Ok(output));
}

#[test]
fn test_xor() {
    let output = vec![false, true, true, false];
    let input = bool_algebra::parse(&vec![
        Token::Var("a".to_string()),
        Token::Xor,
        Token::Var("b".to_string()),
    ]);

    assert_eq!(input, Ok(output));
}

#[test]
fn test_or() {
    let output = vec![false, true, true, true];
    let input = bool_algebra::parse(&vec![
        Token::Var("a".to_string()),
        Token::Or,
        Token::Var("b".to_string()),
    ]);

    assert_eq!(input, Ok(output));
}

#[test]
fn test_not() {
    let output = vec![true, false];
    let input = bool_algebra::parse(&vec![Token::Not, Token::Var("a".to_string())]);

    assert_eq!(input, Ok(output));
}

#[test]
fn test_identity() {
    let output = vec![false, true];
    let input = bool_algebra::parse(&vec![Token::Var("a".to_string())]);

    assert_eq!(input, Ok(output));
}

#[test]
fn test_pares_complex_1() {
    // (a|b)&!c -> 0010 1010
    let output = vec![false, false, true, false, true, false, true, false];
    let input = bool_algebra::parse(&vec![
        Token::Open,
        Token::Var("a".to_string()),
        Token::Or,
        Token::Var("b".to_string()),
        Token::Close,
        Token::And,
        Token::Not,
        Token::Var("c".to_string()),
    ]);
    assert_eq!(input, Ok(output));
}

#[test]
fn test_pares_complex_2() {
    //  (a&b&!c)  -> 0000 0010
    let output = vec![false, false, false, false, false, false, true, false];
    let input = bool_algebra::parse(&vec![
        Token::Open,
        Token::Var("a".to_string()),
        Token::And,
        Token::Var("b".to_string()),
        Token::And,
        Token::Not,
        Token::Var("c".to_string()),
        Token::Close,
    ]);
    assert_eq!(input, Ok(output));
}

#[test]
fn test_pares_complex_3() {
    // !((a|b)&(c|!d)) -> 1111 0100 0100 0100
    let output = vec![
        true, true, true, true, false, true, false, false, false, true, false, false, false, true,
        false, false,
    ];
    let input = bool_algebra::parse(&vec![
        Token::Not,
        Token::Open,
        Token::Open,
        Token::Var("a".to_string()),
        Token::Or,
        Token::Var("b".to_string()),
        Token::Close,
        Token::And,
        Token::Open,
        Token::Var("c".to_string()),
        Token::Or,
        Token::Not,
        Token::Var("d".to_string()),
        Token::Close,
        Token::Close,
    ]);
    assert_eq!(input, Ok(output));
}

#[test]
fn test_same_var() {
    // b & c | c -> 0101
    let output = vec![false, true, false, true];

    let func = vec![
        Token::Var("b".to_string()),
        Token::And,
        Token::Var("c".to_string()),
        Token::Or,
        Token::Var("c".to_string()),
    ];
    let input = bool_algebra::parse(&func);
    let vars = bool_algebra::get_names(&func);

    assert_eq!(vars, vec!["b".to_string(), "c".to_string()]);
    assert_eq!(input, Ok(output));
}
