use rust9cc::ast::node::{BinOp, LocalVar, Node, Nodes};
use rust9cc::ast::parser::{Parser, ParserError};
use rust9cc::lexer::{tokenize, CharStream, Token};

fn parse(input: &str) -> Result<Nodes, ParserError> {
    let mut c = CharStream::new(input);
    let tokens = tokenize(&mut c).unwrap();
    let mut parser = Parser::new(tokens);
    parser.parse()
}

fn primary_starts() -> Vec<Token> {
    vec![Token::Num(0), Token::new_identifer("a"), Token::LeftParen]
}

fn unexpected(expected: Vec<Token>, actual: Token) -> ParserError {
    ParserError::UnexpectedToken {
        expected,
        actual: vec![actual],
    }
}

#[test]
fn parser_test_parser() {
    let tests: Vec<(bool, &str, &str, Option<&str>, Option<ParserError>)> = vec![
        (true, "add", "1+2;", Some("(1 + 2); "), None),
        (true, "sub", "1-2;", Some("(1 - 2); "), None),
        (true, "mul", "1*2;", Some("(1 * 2); "), None),
        (true, "div", "1/2;", Some("(1 / 2); "), None),
        (
            true,
            "four arithmetic operations",
            "1+2*3-4/2;",
            Some("((1 + (2 * 3)) - (4 / 2)); "),
            None,
        ),
        (
            true,
            "four arithmetic operations with parentheses",
            "(1+2)*(3-4)/2;",
            Some("(((1 + 2) * (3 - 4)) / 2); "),
            None,
        ),
        (true, "unary plus", "+1-2;", Some("(1 - 2); "), None),
        (true, "unary minus", "-1+2;", Some("((0 - 1) + 2); "), None),
        (
            true,
            "equality 1",
            "1 > 2 == 3 < (4 != 5);",
            Some("((2 < 1) == (3 < (4 != 5))); "),
            None,
        ),
        (
            true,
            "equality 2",
            "1 >= 2 == 3 <= (4 != 5);",
            Some("((2 <= 1) == (3 <= (4 != 5))); "),
            None,
        ),
        (
            true,
            "identifier",
            "a+z;",
            Some("(a[rbp-8] + z[rbp-16]); "),
            None,
        ),
        (
            true,
            "assignment",
            "Ab123=1;",
            Some("(Ab123[rbp-8] = 1); "),
            None,
        ),
        (
            true,
            "multi statements",
            "hoge=1;huga=2;piyo=3;",
            Some("(hoge[rbp-8] = 1); (huga[rbp-16] = 2); (piyo[rbp-24] = 3); "),
            None,
        ),
        (
            true,
            "return",
            "returnx = 1;return returnx * 10;",
            Some("(returnx[rbp-8] = 1); (return (returnx[rbp-8] * 10)); "),
            None,
        ),
        (
            true,
            "if",
            "x=1; if (x > 1) return 10*x;",
            Some("(x[rbp-8] = 1); (if ((1 < x[rbp-8])) (return (10 * x[rbp-8]))); "),
            None,
        ),
        (
            true,
            "if else",
            "x=1;if (x > 1) return 10*x; else return 0;",
            Some("(x[rbp-8] = 1); (if ((1 < x[rbp-8])) (return (10 * x[rbp-8])) else (return 0)); "),
            None,
        ),
        (
            true,
            "while",
            "x=1;while (x < 10) x = x + 1;",
            Some("(x[rbp-8] = 1); (while ((x[rbp-8] < 10)) (x[rbp-8] = (x[rbp-8] + 1))); "),
            None,
        ),
        (
            true,
            "while with block",
            "x=1;while (x < 10) {x = x + 1; 1 + 2;}",
            Some("(x[rbp-8] = 1); (while ((x[rbp-8] < 10)) { (x[rbp-8] = (x[rbp-8] + 1)); (1 + 2); }); "),
            None,
        ),
        (
            true,
            "for",
            "x=1;for (i=0;i<10;i=i+1) x = x + 1;",
            Some("(x[rbp-8] = 1); (for ((i[rbp-16] = 0); (i[rbp-16] < 10); (i[rbp-16] = (i[rbp-16] + 1))) (x[rbp-8] = (x[rbp-8] + 1))); "),
            None,
        ),
        (
            true,
            "for with block",
            "x=1;for (i=0;i<10;i=i+1) {x = x + 1; 1 + 2;}",
            Some("(x[rbp-8] = 1); (for ((i[rbp-16] = 0); (i[rbp-16] < 10); (i[rbp-16] = (i[rbp-16] + 1))) { (x[rbp-8] = (x[rbp-8] + 1)); (1 + 2); }); "),
            None,
        ),
        (
            true,
            "block",
            "{x=1;y=2;z=3;}",
            Some("{ (x[rbp-8] = 1); (y[rbp-16] = 2); (z[rbp-24] = 3); }; "),
            None,
        ),
        (
            false,
            "unexpected token 1",
            "1+;",
            None,
            Some(ParserError::UnexpectedToken {
                expected: vec![Token::Num(0), Token::new_identifer("a"), Token::LeftParen],
                actual: vec![Token::Semicolon],
            }),
        ),
        (
            false,
            "unexpected token 2",
            "1+",
            None,
            Some(ParserError::UnexpectedToken {
                expected: vec![Token::Num(0), Token::new_identifer("a"), Token::LeftParen],
                actual: vec![Token::EOF],
            }),
        ),
    ];

    for t in tests {
        let mut c = CharStream::new(t.2);
        let tokens = tokenize(&mut c).unwrap();
        let mut parser = Parser::new(tokens);
        match parser.parse() {
            Ok(nodes) if t.0 => {
                assert_eq!(nodes.to_string(), t.3.unwrap());
            }
            Ok(nodes) if !t.0 => {
                assert_ne!(nodes.to_string(), t.3.unwrap());
            }
            Err(e) if t.0 => {
                panic!("{}: unexpected error: {:?}", t.1, e);
            }
            Err(e) if !t.0 => {
                assert_eq!(e, t.4.unwrap());
            }
            other => {
                panic!("{}: unexpected error: {:?}", t.1, other);
            }
        }
    }
}

#[test]
fn subtraction_groups_from_the_left() {
    assert_eq!(parse("1-2-3;").unwrap().to_string(), "((1 - 2) - 3); ");
    assert_eq!(parse("8/4/2;").unwrap().to_string(), "((8 / 4) / 2); ");
    assert_eq!(parse("1<2<3;").unwrap().to_string(), "((1 < 2) < 3); ");
    assert_eq!(parse("1==2!=3;").unwrap().to_string(), "((1 == 2) != 3); ");
}

#[test]
fn assignment_groups_from_the_right() {
    assert_eq!(
        parse("a=b=3;").unwrap().to_string(),
        "(a[rbp-8] = (b[rbp-16] = 3)); "
    );
}

#[test]
fn greater_than_is_less_than_with_the_operands_swapped() {
    assert_eq!(parse("1>2;").unwrap(), parse("2<1;").unwrap());
    assert_eq!(parse("1>=2;").unwrap(), parse("2<=1;").unwrap());
    assert_eq!(parse("1>2;").unwrap().to_string(), "(2 < 1); ");
    assert_eq!(parse("1>=2;").unwrap().to_string(), "(2 <= 1); ");
    assert_eq!(parse("1>2>3;").unwrap().to_string(), "(3 < (2 < 1)); ");
}

#[test]
fn the_right_operand_of_greater_than_is_read_second() {
    assert_eq!(
        parse("x>y;").unwrap().to_string(),
        "(y[rbp-16] < x[rbp-8]); "
    );
}

#[test]
fn unary_minus_is_zero_minus_the_operand() {
    assert_eq!(parse("-x;").unwrap().to_string(), "(0 - x[rbp-8]); ");
    assert_eq!(parse("-(1+2)*3;").unwrap().to_string(), "((0 - (1 + 2)) * 3); ");
    assert_eq!(parse("1 - -2;").unwrap().to_string(), "(1 - (0 - 2)); ");
    assert_eq!(parse("1 - +2;").unwrap().to_string(), "(1 - 2); ");
}

#[test]
fn a_sign_takes_no_second_sign() {
    assert_eq!(
        parse("--1;"),
        Err(unexpected(primary_starts(), Token::Minus))
    );
}

#[test]
fn offsets_follow_first_appearance() {
    let nodes = parse("hoge=1;huga=2;piyo=3;hoge=huga+piyo;huga;").unwrap();
    assert_eq!(
        nodes.to_string(),
        "(hoge[rbp-8] = 1); (huga[rbp-16] = 2); (piyo[rbp-24] = 3); \
         (hoge[rbp-8] = (huga[rbp-16] + piyo[rbp-24])); huga[rbp-16]; "
    );
    match &*nodes.0[4] {
        Node::Lvar(LocalVar { offset, ident }) => {
            assert_eq!(*offset, 16);
            assert_eq!(ident.as_str(), "huga");
        }
        other => panic!("unexpected node: {:?}", other),
    }
}

#[test]
fn a_variable_met_in_a_failed_statement_keeps_its_slot() {
    let mut c = CharStream::new("a+;");
    let tokens = tokenize(&mut c).unwrap();
    let mut parser = Parser::new(tokens);
    assert_eq!(
        parser.parse(),
        Err(unexpected(primary_starts(), Token::Semicolon))
    );
}

#[test]
fn the_twenty_seventh_variable_lies_below_the_frame() {
    let source = "a;b;c;d;e;f;g;h;i;j;k;l;m;n;o;p;q;r;s;t;u;v;w;x;y;z;aa;";
    let text = parse(source).unwrap().to_string();
    assert!(text.ends_with("z[rbp-208]; aa[rbp-216]; "));
}

#[test]
fn parsing_is_deterministic() {
    let source = "x=1;for(i=0;i<5;i=i+1){x=x+i;} if (x>3) return x; else return 0;";
    let first = parse(source).unwrap();
    let second = parse(source).unwrap();
    assert_eq!(first, second);
    assert_eq!(first.to_string(), second.to_string());
}

#[test]
fn the_empty_program() {
    let nodes = parse("").unwrap();
    assert_eq!(nodes.0.len(), 0);
    assert_eq!(nodes.to_string(), "");
}

#[test]
fn tokens_behind_the_end_marker_are_not_read() {
    let tokens = vec![
        Token::Num(1),
        Token::Semicolon,
        Token::EOF,
        Token::Plus,
        Token::Plus,
    ];
    let mut parser = Parser::new(tokens);
    assert_eq!(parser.parse().unwrap().to_string(), "1; ");
}

#[test]
fn tokens_without_an_end_marker_are_not_enough() {
    let mut parser = Parser::new(vec![Token::Num(1), Token::Plus, Token::Num(2)]);
    assert_eq!(parser.parse(), Err(ParserError::NotEnoughTokens));
    let mut parser = Parser::new(vec![Token::Num(1), Token::Semicolon]);
    assert_eq!(parser.parse(), Err(ParserError::NotEnoughTokens));
    let mut parser = Parser::new(vec![]);
    assert_eq!(parser.parse(), Err(ParserError::NotEnoughTokens));
    let mut parser = Parser::new(vec![Token::Num(1), Token::Plus]);
    assert_eq!(parser.parse(), Err(ParserError::NotEnoughTokens));
}

#[test]
fn a_missing_semicolon_is_reported() {
    assert_eq!(
        parse("1 2;"),
        Err(unexpected(vec![Token::Semicolon], Token::Num(2)))
    );
    assert_eq!(
        parse("return 1"),
        Err(unexpected(vec![Token::Semicolon], Token::EOF))
    );
}

#[test]
fn a_missing_parenthesis_is_reported() {
    assert_eq!(
        parse("(1+2;"),
        Err(unexpected(vec![Token::RightParen], Token::Semicolon))
    );
    assert_eq!(
        parse("if 1) 2;"),
        Err(unexpected(vec![Token::LeftParen], Token::Num(1)))
    );
    assert_eq!(
        parse("while (1 2;"),
        Err(unexpected(vec![Token::RightParen], Token::Num(2)))
    );
    assert_eq!(
        parse("for i=0;;) 1;"),
        Err(unexpected(vec![Token::LeftParen], Token::new_identifer("i")))
    );
}

#[test]
fn a_block_that_is_not_closed_is_reported() {
    assert_eq!(
        parse("{ 1; "),
        Err(unexpected(primary_starts(), Token::EOF))
    );
}

#[test]
fn a_statement_word_is_no_expression() {
    assert_eq!(
        parse("1 + return;"),
        Err(unexpected(primary_starts(), Token::Return))
    );
    assert_eq!(
        parse("else 1;"),
        Err(unexpected(primary_starts(), Token::Else))
    );
    assert_eq!(
        parse("}"),
        Err(unexpected(primary_starts(), Token::RightBrace))
    );
}

#[test]
fn every_clause_of_for_may_be_absent() {
    assert_eq!(
        parse("for(;;) return 1;").unwrap().to_string(),
        "(for (; ; ) (return 1)); "
    );
    assert_eq!(
        parse("for(i=0;;) 1;").unwrap().to_string(),
        "(for ((i[rbp-8] = 0); ; ) 1); "
    );
    assert_eq!(
        parse("for(;i<3;) 1;").unwrap().to_string(),
        "(for (; (i[rbp-8] < 3); ) 1); "
    );
    assert_eq!(
        parse("for(;;i=i+1) 1;").unwrap().to_string(),
        "(for (; ; (i[rbp-8] = (i[rbp-8] + 1))) 1); "
    );
    match &*parse("for(;;) 1;").unwrap().0[0] {
        Node::For {
            init,
            cond,
            step,
            then,
        } => {
            assert_eq!(*init, None);
            assert_eq!(*cond, None);
            assert_eq!(*step, None);
            assert_eq!(**then, Node::Num(1));
        }
        other => panic!("unexpected node: {:?}", other),
    }
}

#[test]
fn else_belongs_to_the_nearest_if() {
    assert_eq!(
        parse("if (1) if (2) 3; else 4;").unwrap().to_string(),
        "(if (1) (if (2) 3 else 4)); "
    );
}

#[test]
fn blocks_nest() {
    assert_eq!(
        parse("{ {} { 1; { 2; } } }").unwrap().to_string(),
        "{ { }; { 1; { 2; }; }; }; "
    );
}

#[test]
fn the_left_side_of_an_assignment_may_be_any_expression() {
    assert_eq!(parse("1=2;").unwrap().to_string(), "(1 = 2); ");
    assert_eq!(
        parse("a+1=2;").unwrap().to_string(),
        "((a[rbp-8] + 1) = 2); "
    );
}

#[test]
fn the_text_of_an_expression_parses_to_the_same_text() {
    let sources = vec![
        "1+2*3-4/2;",
        "(1+2)*(3-4)/2;",
        "-1+2;",
        "1 > 2 == 3 < (4 != 5);",
        "1 >= 2 == 3 <= (4 != 5);",
        "4294967295 - 0;",
        "7;",
        "1; 2; (3);",
        "(1 = 2) = 3 = 4;",
    ];
    for source in sources {
        let printed = parse(source).unwrap().to_string();
        let reprinted = parse(&printed).unwrap().to_string();
        assert_eq!(printed, reprinted, "{}", source);
    }
}

#[test]
fn nodes_are_written_one_by_one() {
    let node = Node::Add {
        l: Box::new(Node::Num(1)),
        r: Box::new(Node::Lvar(LocalVar {
            offset: 24,
            ident: Box::new(String::from("v")),
        })),
    };
    assert_eq!(node.to_string(), "(1 + v[rbp-24])");
    let mut out = String::from("> ");
    node.write_to(&mut out);
    assert_eq!(out, "> (1 + v[rbp-24])");
    assert_eq!(Node::Num(0).to_string(), "0");
    assert_eq!(Node::Num(4294967295).to_string(), "4294967295");
    assert_eq!(
        Node::Block { stmts: vec![] }.to_string(),
        "{ }"
    );
}

#[test]
fn as_binary_gives_the_operator_and_the_operands() {
    let node = Node::Le {
        l: Box::new(Node::Num(1)),
        r: Box::new(Node::Num(2)),
    };
    assert_eq!(
        node.as_binary(),
        Some((BinOp::Le, &Node::Num(1), &Node::Num(2)))
    );
    let assign = Node::Assign {
        l: Box::new(Node::Num(1)),
        r: Box::new(Node::Num(2)),
    };
    assert_eq!(assign.as_binary(), None);
    assert_eq!(Node::Num(1).as_binary(), None);
    assert!(!node.is_statement());
    assert!(!assign.is_statement());
    assert!(Node::Block { stmts: vec![] }.is_statement());
    assert!(Node::Return {
        expr: Box::new(Node::Num(1))
    }
    .is_statement());
}

#[test]
fn ast_test_parser() {
    let tests: Vec<(bool, &str, &str, Option<&str>, Option<ParserError>)> = vec![
        (true, "add", "1+2;", Some("(1 + 2); "), None),
        (true, "sub", "1-2;", Some("(1 - 2); "), None),
        (true, "mul", "1*2;", Some("(1 * 2); "), None),
        (true, "div", "1/2;", Some("(1 / 2); "), None),
        (
            true,
            "four arithmetic operations",
            "1+2*3-4/2;",
            Some("((1 + (2 * 3)) - (4 / 2)); "),
            None,
        ),
        (
            true,
            "four arithmetic operations with parentheses",
            "(1+2)*(3-4)/2;",
            Some("(((1 + 2) * (3 - 4)) / 2); "),
            None,
        ),
        (true, "unary plus", "+1-2;", Some("(1 - 2); "), None),
        (true, "unary minus", "-1+2;", Some("((0 - 1) + 2); "), None),
        (
            true,
            "equality 1",
            "1 > 2 == 3 < (4 != 5);",
            Some("((2 < 1) == (3 < (4 != 5))); "),
            None,
        ),
        (
            true,
            "equality 2",
            "1 >= 2 == 3 <= (4 != 5);",
            Some("((2 <= 1) == (3 <= (4 != 5))); "),
            None,
        ),
        (
            true,
            "identifier",
            "a+z;",
            Some("(a[rbp-8] + z[rbp-16]); "),
            None,
        ),
        (true, "assignment", "a=1;", Some("(a[rbp-8] = 1); "), None),
        (
            true,
            "multi statements",
            "a=1;b=2;c=3;",
            Some("(a[rbp-8] = 1); (b[rbp-16] = 2); (c[rbp-24] = 3); "),
            None,
        ),
        (
            false,
            "unexpected token 1",
            "1+;",
            None,
            Some(ParserError::UnexpectedToken {
                expected: vec![Token::Num(0), Token::new_identifer("a"), Token::LeftParen],
                actual: vec![Token::Semicolon],
            }),
        ),
        (
            false,
            "unexpected token 2",
            "1+",
            None,
            Some(ParserError::UnexpectedToken {
                expected: vec![Token::Num(0), Token::new_identifer("a"), Token::LeftParen],
                actual: vec![Token::EOF],
            }),
        ),
    ];

    for t in tests {
        let mut c = CharStream::new(t.2);
        let tokens = tokenize(&mut c).unwrap();
        let mut parser = Parser::new(tokens);
        match parser.parse() {
            Ok(nodes) if t.0 => {
                assert_eq!(nodes.to_string(), t.3.unwrap());
            }
            Ok(nodes) if !t.0 => {
                assert_ne!(nodes.to_string(), t.3.unwrap());
            }
            Err(e) if t.0 => {
                panic!("{}: unexpected error: {:?}", t.1, e);
            }
            Err(e) if !t.0 => {
                assert_eq!(e, t.4.unwrap());
            }
            other => {
                panic!("{}: unexpected error: {:?}", t.1, other);
            }
        }
    }
}

#[test]
fn test_expr() {
    let tests: Vec<(&str, Vec<Token>, &str)> = vec![
        (
            "1 + 2",
            vec![Token::Num(1), Token::Plus, Token::Num(2)],
            "(1 + 2)",
        ),
        (
            "1 + 2 - 3",
            vec![
                Token::Num(1),
                Token::Plus,
                Token::Num(2),
                Token::Minus,
                Token::Num(3),
            ],
            "((1 + 2) - 3)",
        ),
        (
            "1 + 2 * 3 / 4",
            vec![
                Token::Num(1),
                Token::Plus,
                Token::Num(2),
                Token::Multiply,
                Token::Num(3),
                Token::Divide,
                Token::Num(4),
            ],
            "(1 + ((2 * 3) / 4))",
        ),
        (
            "(1 + 2) * (3 - 4) + 1",
            vec![
                Token::LeftParen,
                Token::Num(1),
                Token::Plus,
                Token::Num(2),
                Token::RightParen,
                Token::Multiply,
                Token::LeftParen,
                Token::Num(3),
                Token::Minus,
                Token::Num(4),
                Token::RightParen,
                Token::Plus,
                Token::Num(1),
            ],
            "(((1 + 2) * (3 - 4)) + 1)",
        ),
    ];

    for t in tests {
        let mut parser = Parser::new(t.1);
        assert_eq!(
            format!("{}", parser.expr().unwrap().to_string()),
            t.2,
            "Faild in the {}",
            t.0,
        );
    }
}

#[test]
fn an_expression_ends_where_the_tokens_end() {
    let mut parser = Parser::new(vec![
        Token::Num(1),
        Token::Plus,
        Token::Num(2),
        Token::Minus,
        Token::Num(3),
    ]);
    assert_eq!(parser.expr().unwrap().to_string(), "((1 + 2) - 3)");
    assert_eq!(parser.expr(), Err(ParserError::NotEnoughTokens));
    let mut parser = Parser::new(vec![Token::Num(7)]);
    assert_eq!(parser.expr().unwrap().to_string(), "7");
    assert_eq!(parser.parse(), Err(ParserError::NotEnoughTokens));
    let mut parser = Parser::new(vec![
        Token::new_identifer("a"),
        Token::Assign,
        Token::new_identifer("b"),
        Token::LessThan,
        Token::Num(2),
    ]);
    assert_eq!(
        parser.expr().unwrap().to_string(),
        "(a[rbp-8] = (b[rbp-16] < 2))"
    );
}

#[test]
fn an_expression_ends_before_a_token_that_goes_on_no_expression() {
    let mut parser = Parser::new(vec![
        Token::Num(1),
        Token::Plus,
        Token::Num(2),
        Token::RightBrace,
    ]);
    assert_eq!(parser.expr().unwrap().to_string(), "(1 + 2)");
    assert_eq!(
        parser.parse(),
        Err(unexpected(primary_starts(), Token::RightBrace))
    );
}

#[test]
fn an_operator_needs_its_right_operand() {
    let mut parser = Parser::new(vec![Token::Num(1), Token::Plus]);
    assert_eq!(parser.expr(), Err(ParserError::NotEnoughTokens));
    let mut parser = Parser::new(vec![Token::Num(1), Token::Assign]);
    assert_eq!(parser.expr(), Err(ParserError::NotEnoughTokens));
    let mut parser = Parser::new(vec![Token::LeftParen, Token::Num(1)]);
    assert_eq!(parser.expr(), Err(ParserError::NotEnoughTokens));
    let mut parser = Parser::new(vec![]);
    assert_eq!(parser.expr(), Err(ParserError::NotEnoughTokens));
}
