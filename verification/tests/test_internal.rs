use bool_algebra::Bundle;
use bool_algebra::Token;

#[test]
fn test_internal_test_eval() {
    let func = vec![Token::Var("a".to_string())];
    let names = bool_algebra::get_names(&func);
    let mut values = vec![false; names.len()];
    let tree = bool_algebra::Node::build_tree(&func, &names);
    assert_eq!(tree.eval(&values), false);
    assert_eq!(bool_algebra::update_values(&mut values), true);
    assert_eq!(tree.eval(&values), true);
    assert_eq!(bool_algebra::update_values(&mut values), false);
}

#[test]
fn test_internal_test_lookup_values_2() {
    let func = vec![Token::Var("a".to_string()), Token::Var("b".to_string())];
    let names = bool_algebra::get_names(&func);
    let mut values = vec![false; names.len()];

    assert_eq!(values, vec![false, false]);
    assert_eq!(bool_algebra::update_values(&mut values), true);
    assert_eq!(values, vec![false, true]);
    assert_eq!(bool_algebra::update_values(&mut values), true);
    assert_eq!(values, vec![true, false]);
    assert_eq!(bool_algebra::update_values(&mut values), true);
    assert_eq!(values, vec![true, true]);
    assert_eq!(bool_algebra::update_values(&mut values), false);
}

#[test]
fn test_internal_test_lookup_values_3() {
    let func = vec![
        Token::Var("a".to_string()),
        Token::Var("b".to_string()),
        Token::Var("c".to_string()),
    ];
    let names = bool_algebra::get_names(&func);
    let mut values = vec![false; names.len()];

    assert_eq!(values, vec![false, false, false]);
    assert_eq!(bool_algebra::update_values(&mut values), true);
    assert_eq!(values, vec![false, false, true]);
    assert_eq!(bool_algebra::update_values(&mut values), true);
    assert_eq!(values, vec![false, true, false]);
    assert_eq!(bool_algebra::update_values(&mut values), true);
    assert_eq!(values, vec![false, true, true]);
    assert_eq!(bool_algebra::update_values(&mut values), true);
    assert_eq!(values, vec![true, false, false]);
    assert_eq!(bool_algebra::update_values(&mut values), true);
    assert_eq!(values, vec![true, false, true]);
    assert_eq!(bool_algebra::update_values(&mut values), true);
    assert_eq!(values, vec![true, true, false]);
    assert_eq!(bool_algebra::update_values(&mut values), true);
    assert_eq!(values, vec![true, true, true]);
    assert_eq!(bool_algebra::update_values(&mut values), false);
}

#[test]
fn test_internal_is_parentheses_true() {
    let input = vec![
        Token::Open,
        Token::Var("a".to_string()),
        Token::And,
        Token::Var("b".to_string()),
        Token::Close,
    ];
    assert_eq!(bool_algebra::is_parentheses(&input), true);
}

#[test]
fn test_internal_is_parentheses_false() {
    let input = vec![
        Token::Open,
        Token::Var("a".to_string()),
        Token::Close,
        Token::And,
        Token::Open,
        Token::Var("b".to_string()),
        Token::Close,
    ];
    assert_eq!(bool_algebra::is_parentheses(&input), false);
}

#[test]
fn test_internal_test_split_index() {
    // (a | b) & c
    let input = vec![
        Token::Open,
        Token::Var("a".to_string()),
        Token::Or,
        Token::Var("b".to_string()),
        Token::Close,
        Token::And,
        Token::Var("c".to_string()),
    ];

    assert_eq!(Bundle::split_index(&input), 5);
}

#[test]
fn test_internal_test_split_not() {
    // !(a & b)
    let input = vec![
        Token::Not,
        Token::Open,
        Token::Var("a".to_string()),
        Token::And,
        Token::Var("b".to_string()),
        Token::Close,
    ];

    let bundle = Bundle::split(&input);
    assert_eq!(bundle.center, Token::Not);
    assert_eq!(
        bundle.left,
        Some(vec![
            Token::Open,
            Token::Var("a".to_string()),
            Token::And,
            Token::Var("b".to_string()),
            Token::Close,
        ])
    );
    assert_eq!(bundle.right, None);
}

#[test]
fn test_internal_test_split_operator() {
    let input = vec![
        Token::Open,
        Token::Var("a".to_string()),
        Token::Close,
        Token::And,
        Token::Open,
        Token::Var("b".to_string()),
        Token::Close,
    ];

    let bundle = Bundle::split(&input);
    assert_eq!(bundle.center, Token::And);
    assert_eq!(
        bundle.left,
        Some(vec![Token::Open, Token::Var("a".to_string()), Token::Close,])
    );
    assert_eq!(
        bundle.right,
        Some(vec![Token::Open, Token::Var("b".to_string()), Token::Close,])
    );
}

#[test]
fn test_internal_test_split_parentheses() {
    let bundle = Bundle::split(&vec![
        Token::Open,
        Token::Var("a".to_string()),
        Token::And,
        Token::Var("b".to_string()),
        Token::Close,
    ]);

    assert_eq!(bundle.center, Token::And);
    assert_eq!(bundle.left, Some(vec![Token::Var("a".to_string()),]));

    assert_eq!(bundle.right, Some(vec![Token::Var("b".to_string()),]));
}
