use zia::token::{parse_line, parse_tokens, Token};

#[test]
fn monad() {
    let parsed_line = parse_line("(not true)->");
    assert_eq!(parsed_line, ["not true", "->"].to_vec());
    assert_eq!(
        parse_tokens(&parsed_line),
        [
            Token::Expression("not true".to_string()),
            Token::Atom("->".to_string())
        ]
        .to_vec()
    );
}

#[test]
fn diad() {
    assert_eq!(parse_line("(0 + 1)->"), ["0 + 1", "->"].to_vec());
}

#[test]
fn lambda() {
    assert_eq!(
        parse_line("((lambda x_)(_f _x))_y ->"),
        ["(lambda x_)(_f _x)", "_y", "->"].to_vec()
    );
}

#[test]
fn separators_inside_parentheses_stay_in_the_token() {
    assert_eq!(parse_line("a (b (c d))"), ["a", "b (c d)"].to_vec());
}

#[test]
fn line_breaks_are_skipped() {
    assert_eq!(parse_line("a ->\n"), ["a", "->"].to_vec());
}

#[test]
fn empty_parentheses_give_no_token() {
    assert_eq!(parse_line("()"), Vec::<String>::new());
}

#[test]
fn tokens_with_spaces_are_expressions() {
    let tokens = parse_tokens(&["a b".to_string(), "c".to_string()]);
    assert_eq!(
        tokens,
        vec![Token::Expression("a b".to_string()), Token::Atom("c".to_string())]
    );
    assert_eq!(tokens[0].as_string(), "a b");
}

#[test]
fn adding_tokens_parenthesises_expressions() {
    let joined = Token::Expression("a b".to_string()).add(Token::Atom("c".to_string()));
    assert_eq!(joined, Token::Expression("(a b) c".to_string()));
    let joined = Token::Atom("c".to_string()).add(Token::Expression("a b".to_string()));
    assert_eq!(joined, Token::Expression("c (a b)".to_string()));
}

#[test]
fn joined_tokens_read_back() {
    let pairs = [
        (Token::Expression("a (b c)".to_string()), Token::Atom("d".to_string())),
        (Token::Atom("x".to_string()), Token::Expression("(y z) w".to_string())),
        (Token::Atom("p".to_string()), Token::Atom("q".to_string())),
    ];
    for (t1, t2) in pairs.iter() {
        let joined = t1.clone().add(t2.clone());
        let text = joined.as_string();
        assert_eq!(parse_tokens(&parse_line(&text)), vec![t1.clone(), t2.clone()]);
    }
}
