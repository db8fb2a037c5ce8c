use bool_algebra::parse;
use bool_algebra::Bundle;
use bool_algebra::Token;

#[test]
fn parser_single() {
    let output = vec![false, true];
    let parse = parse(&vec![Token::Var("a".to_string())]);
    let input = parse.unwrap();
    assert_eq!(input.len(), output.len());
    for i in 0..input.len() {
        assert_eq!(input[i], output[i], "at {}", i);
    }
}

#[test]
fn parser_const_false() {
    let parse = parse(&vec![Token::Zero, Token::And, Token::One]);
    let output = parse.unwrap();
    assert_eq!(output.len(), 1);
    assert_eq!(output[0], false);
}

#[test]
fn parser_const_true() {
    let parse = parse(&vec![Token::One, Token::And, Token::One]);
    let output = parse.unwrap();
    assert_eq!(output.len(), 1);
    assert_eq!(output[0], true);
}

#[test]
fn parser_and() {
    let output = vec![false, false, false, true];
    let input = parse(&vec![
        Token::Var("a".to_string()),
        Token::And,
        Token::Var("b".to_string()),
    ]);

    assert_eq!(input, Ok(output));
}

#[test]
fn parser_xor() {
    let output = vec![false, true, true, false];
    let input = parse(&vec![
        Token::Var("a".to_string()),
        Token::Xor,
        Token::Var("b".to_string()),
    ]);

    assert_eq!(input, Ok(output));
}

#[test]
fn parser_or() {
    let output = vec![false, true, true, true];
    let input = parse(&vec![
        Token::Var("a".to_string()),
        Token::Or,
        Token::Var("b".to_string()),
    ]);

    assert_eq!(input, Ok(output));
}

#[test]
fn parser_not() {
    let output = vec![true, false];
    let input = parse(&vec![Token::Not, Token::Var("a".to_string())]);

    assert_eq!(input, Ok(output));
}

#[test]
fn parser_identity() {
    let output = vec![false, true];
    let input = parse(&vec![Token::Var("a".to_string())]);

    assert_eq!(input, Ok(output));
}

#[test]
fn parser_pares_complex_1() {
    // (a|b)&!c -> 0010 1010
    let output = vec![false, false, true, false, true, false, true, false];
    let input = parse(&vec![
        Token::Open,
        Token::Var("a".to_string()),
        Token::Or,
        Token::Var("b".to_string()),
        Token::Close,
        Token::And,
        Token::Not,
        Token::Var("c".to_string()),
    ]);
    assert_eq!(input, Ok(output));
}

#[test]
fn parser_pares_complex_2() {
    //  (a&b&!c)  -> 0000 0010
    let output = vec![false, false, false, false, false, false, true, false];
    let input = parse(&vec![
        Token::Open,
        Token::Var("a".to_string()),
        Token::And,
        Token::Var("b".to_string()),
        Token::And,
        Token::Not,
        Token::Var("c".to_string()),
        Token::Close,
    ]);
    assert_eq!(input, Ok(output));
}

#[test]
fn parser_pares_complex_3() {
    // !((a|b)&(c|!d)) -> 1111 0100 0100 0100
    let output = vec![
        true, true, true, true, false, true, false, false, false, true, false, false, false, true,
        false, false,
    ];
    let input = parse(&vec![
        Token::Not,
        Token::Open,
        Token::Open,
        Token::Var("a".to_string()),
        Token::Or,
        Token::Var("b".to_string()),
        Token::Close,
        Token::And,
        Token::Open,
        Token::Var("c".to_string()),
        Token::Or,
        Token::Not,
        Token::Var("d".to_string()),
        Token::Close,
        Token::Close,
    ]);
    assert_eq!(input, Ok(output));
}

#[test]
fn parser_same_var() {
    // b & c | c -> 0101
    let output = vec![false, true, false, true];

    let func = vec![
        Token::Var("b".to_string()),
        Token::And,
        Token::Var("c".to_string()),
        Token::Or,
        Token::Var("c".to_string()),
    ];
    let input = parse(&func);
    let vars = bool_algebra::get_names(&func);

    assert_eq!(vars, vec!["b".to_string(), "c".to_string()]);
    assert_eq!(input, Ok(output));
}

#[test]
fn parser_test_eval() {
    let func = vec![Token::Var("a".to_string())];
    let names = bool_algebra::get_names(&func);
    let mut values = vec![false; names.len()];
    let tree = bool_algebra::Node::build_tree(&func, &names);
    assert_eq!(tree.eval(&values), false);
    assert_eq!(bool_algebra::update_values(&mut values), true);
    assert_eq!(tree.eval(&values), true);
    assert_eq!(bool_algebra::update_values(&mut values), false);
}

#[test]
fn parser_test_lookup_values_2() {
    let func = vec![Token::Var("a".to_string()), Token::Var("b".to_string())];
    let names = bool_algebra::get_names(&func);
    let mut values = vec![false; names.len()];

    assert_eq!(values, vec![false, false]);
    assert_eq!(bool_algebra::update_values(&mut values), true);
    assert_eq!(values, vec![false, true]);
    assert_eq!(bool_algebra::update_values(&mut values), true);
    assert_eq!(values, vec![true, false]);
    assert_eq!(bool_algebra::update_values(&mut values), true);
    assert_eq!(values, vec![true, true]);
    assert_eq!(bool_algebra::update_values(&mut values), false);
}

#[test]
fn parser_test_lookup_values_3() {
    let func = vec![
        Token::Var("a".to_string()),
        Token::Var("b".to_string()),
        Token::Var("c".to_string()),
    ];
    let names = bool_algebra::get_names(&func);
    let mut values = vec![false; names.len()];

    assert_eq!(values, vec![false, false, false]);
    assert_eq!(bool_algebra::update_values(&mut values), true);
    assert_eq!(values, vec![false, false, true]);
    assert_eq!(bool_algebra::update_values(&mut values), true);
    assert_eq!(values, vec![false, true, false]);
    assert_eq!(bool_algebra::update_values(&mut values), true);
    assert_eq!(values, vec![false, true, true]);
    assert_eq!(bool_algebra::update_values(&mut values), true);
    assert_eq!(values, vec![true, false, false]);
    assert_eq!(bool_algebra::update_values(&mut values), true);
    assert_eq!(values, vec![true, false, true]);
    assert_eq!(bool_algebra::update_values(&mut values), true);
    assert_eq!(values, vec![true, true, false]);
    assert_eq!(bool_algebra::update_values(&mut values), true);
    assert_eq!(values, vec![true, true, true]);
    assert_eq!(bool_algebra::update_values(&mut values), false);
}

#[test]
fn parser_is_parentheses_true() {
    let input = vec![
        Token::Open,
        Token::Var("a".to_string()),
        Token::And,
        Token::Var("b".to_string()),
        Token::Close,
    ];
    assert_eq!(bool_algebra::is_parentheses(&input), true);
}

#[test]
fn parser_is_parentheses_false() {
    let input = vec![
        Token::Open,
        Token::Var("a".to_string()),
        Token::Close,
        Token::And,
        Token::Open,
        Token::Var("b".to_string()),
        Token::Close,
    ];
    assert_eq!(bool_algebra::is_parentheses(&input), false);
}

#[test]
fn parser_test_split_index() {
    // (a | b) & c
    let input = vec![
        Token::Open,
        Token::Var("a".to_string()),
        Token::Or,
        Token::Var("b".to_string()),
        Token::Close,
        Token::And,
        Token::Var("c".to_string()),
    ];

    assert_eq!(Bundle::split_index(&input), 5);
}

#[test]
fn parser_test_split_not() {
    // !(a & b)
    let input = vec![
        Token::Not,
        Token::Open,
        Token::Var("a".to_string()),
        Token::And,
        Token::Var("b".to_string()),
        Token::Close,
    ];

    let bundle = Bundle::split(&input);
    assert_eq!(bundle.center, Token::Not);
    assert_eq!(
        bundle.left,
        Some(vec![
            Token::Open,
            Token::Var("a".to_string()),
            Token::And,
            Token::Var("b".to_string()),
            Token::Close,
        ])
    );
    assert_eq!(bundle.right, None);
}

#[test]
fn parser_test_split_operator() {
    let input = vec![
        Token::Open,
        Token::Var("a".to_string()),
        Token::Close,
        Token::And,
        Token::Open,
        Token::Var("b".to_string()),
        Token::Close,
    ];

    let bundle = Bundle::split(&input);
    assert_eq!(bundle.center, Token::And);
    assert_eq!(
        bundle.left,
        Some(vec![Token::Open, Token::Var("a".to_string()), Token::Close,])
    );
    assert_eq!(
        bundle.right,
        Some(vec![Token::Open, Token::Var("b".to_string()), Token::Close,])
    );
}

#[test]
fn parser_test_split_parentheses() {
    let bundle = Bundle::split(&vec![
        Token::Open,
        Token::Var("a".to_string()),
        Token::And,
        Token::Var("b".to_string()),
        Token::Close,
    ]);

    assert_eq!(bundle.center, Token::And);
    assert_eq!(bundle.left, Some(vec![Token::Var("a".to_string()),]));

    assert_eq!(bundle.right, Some(vec![Token::Var("b".to_string()),]));
}
