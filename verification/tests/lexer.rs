use rust9cc::lexer::{
    consume, expect_number, is_digit, str_to_u, tokenize, CharStream, LexError, Token, TokenStream,
};

#[test]
fn lexer_test_str_to_u() {
    let mut c = CharStream::new("1");
    assert_eq!(str_to_u(&mut c), Some(1_u32));

    let mut c = CharStream::new("12");
    assert_eq!(str_to_u(&mut c), Some(12_u32));

    let mut c = CharStream::new("12a");
    assert_eq!(str_to_u(&mut c), Some(12_u32));
    assert_eq!(c.next().unwrap(), 'a');

    let mut c = CharStream::new("a12");
    assert_eq!(str_to_u(&mut c), None);
}

#[test]
fn lib_test_str_to_u() {
    let mut c = CharStream::new("1");
    assert_eq!(str_to_u(&mut c), Some(1_u32));

    let mut c = CharStream::new("12");
    assert_eq!(str_to_u(&mut c), Some(12_u32));

    let mut c = CharStream::new("12a");
    assert_eq!(str_to_u(&mut c), Some(12_u32));
    assert_eq!(c.next().unwrap(), 'a');

    let mut c = CharStream::new("a12");
    assert_eq!(str_to_u(&mut c), None);
}

#[test]
fn lexer_test_tokenize() {
    let tests: Vec<(&str, &str, Vec<Token>)> = vec![
        ("1", "1", vec![Token::Num(1), Token::EOF]),
        (
            "1 + 2",
            "1 + 2",
            vec![Token::Num(1), Token::Plus, Token::Num(2), Token::EOF],
        ),
        (
            "1 + 2 - 3",
            "1 + 2 - 3",
            vec![
                Token::Num(1),
                Token::Plus,
                Token::Num(2),
                Token::Minus,
                Token::Num(3),
                Token::EOF,
            ],
        ),
        (
            "カッコ",
            "(1 + 2) - 3",
            vec![
                Token::LeftParen,
                Token::Num(1),
                Token::Plus,
                Token::Num(2),
                Token::RightParen,
                Token::Minus,
                Token::Num(3),
                Token::EOF,
            ],
        ),
        (
            "四則演算",
            "1 + 2 * (3 - 4) / 5",
            vec![
                Token::Num(1),
                Token::Plus,
                Token::Num(2),
                Token::Multiply,
                Token::LeftParen,
                Token::Num(3),
                Token::Minus,
                Token::Num(4),
                Token::RightParen,
                Token::Divide,
                Token::Num(5),
                Token::EOF,
            ],
        ),
        (
            "比較演算子",
            "1 < 2 <= 3 > 4 >= 5 == 6 != 7",
            vec![
                Token::Num(1),
                Token::LessThan,
                Token::Num(2),
                Token::LessThanOrEqual,
                Token::Num(3),
                Token::GreaterThan,
                Token::Num(4),
                Token::GreaterThanOrEqual,
                Token::Num(5),
                Token::Equal,
                Token::Num(6),
                Token::NotEqual,
                Token::Num(7),
                Token::EOF,
            ],
        ),
        (
            "変数",
            "abc+d123 - Aaa123bbb * あ",
            vec![
                Token::new_identifer("abc"),
                Token::Plus,
                Token::new_identifer("d123"),
                Token::Minus,
                Token::new_identifer("Aaa123bbb"),
                Token::Multiply,
                Token::new_identifer("あ"),
                Token::EOF,
            ],
        ),
        (
            "return1",
            "x return",
            vec![Token::new_identifer("x"), Token::Return, Token::EOF],
        ),
        (
            "return2",
            "returnx",
            vec![Token::new_identifer("returnx"), Token::EOF],
        ),
        (
            "return3",
            "xreturn",
            vec![Token::new_identifer("xreturn"), Token::EOF],
        ),
        (
            "if else",
            "if (x < 1) return 1; else return 2;",
            vec![
                Token::If,
                Token::LeftParen,
                Token::new_identifer("x"),
                Token::LessThan,
                Token::Num(1),
                Token::RightParen,
                Token::Return,
                Token::Num(1),
                Token::Semicolon,
                Token::Else,
                Token::Return,
                Token::Num(2),
                Token::Semicolon,
                Token::EOF,
            ],
        ),
        (
            "while",
            "while (x < 1) return 1;",
            vec![
                Token::While,
                Token::LeftParen,
                Token::new_identifer("x"),
                Token::LessThan,
                Token::Num(1),
                Token::RightParen,
                Token::Return,
                Token::Num(1),
                Token::Semicolon,
                Token::EOF,
            ],
        ),
        (
            "for",
            "for (i = 0; i < 10; i = i + 1) return i;",
            vec![
                Token::For,
                Token::LeftParen,
                Token::new_identifer("i"),
                Token::Assign,
                Token::Num(0),
                Token::Semicolon,
                Token::new_identifer("i"),
                Token::LessThan,
                Token::Num(10),
                Token::Semicolon,
                Token::new_identifer("i"),
                Token::Assign,
                Token::new_identifer("i"),
                Token::Plus,
                Token::Num(1),
                Token::RightParen,
                Token::Return,
                Token::new_identifer("i"),
                Token::Semicolon,
                Token::EOF,
            ],
        ),
        (
            "block",
            "{ x = 1; return x; }",
            vec![
                Token::LeftBrace,
                Token::new_identifer("x"),
                Token::Assign,
                Token::Num(1),
                Token::Semicolon,
                Token::Return,
                Token::new_identifer("x"),
                Token::Semicolon,
                Token::RightBrace,
                Token::EOF,
            ],
        ),
    ];

    for t in tests {
        let mut c = CharStream::new(t.1);
        assert_eq!(tokenize(&mut c).unwrap(), t.2, "Faild in the {}", t.0,);
    }
}

#[test]
fn lexer_test_expect_number() {
    let tokens = vec![Token::Num(1), Token::Plus, Token::Num(2)];
    let mut token_iter = TokenStream::new(tokens);

    assert_eq!(expect_number(&mut token_iter), Some(1_u32));
    assert_eq!(expect_number(&mut token_iter), None);
}

#[test]
fn lib_test_expect_number() {
    let tokens = vec![Token::Num(1), Token::Plus, Token::Num(2)];
    let mut token_iter = TokenStream::new(tokens);

    assert_eq!(expect_number(&mut token_iter), Some(1_u32));
    assert_eq!(expect_number(&mut token_iter), None);
}

#[test]
fn lexer_test_consume() {
    let tokens = vec![Token::LeftParen, Token::RightParen];
    let mut token_iter = TokenStream::new(tokens);

    assert_eq!(consume(&mut token_iter, Token::LeftParen), Some(()));
    assert_eq!(token_iter.peek(), Some(&Token::RightParen));

    assert_eq!(consume(&mut token_iter, Token::LeftParen), None);
    assert_eq!(token_iter.peek(), Some(&Token::RightParen));

    assert_eq!(consume(&mut token_iter, Token::RightParen), Some(()));
    assert_eq!(token_iter.peek(), None);
}

#[test]
fn lib_test_consume() {
    let tokens = vec![Token::LeftParen, Token::RightParen];
    let mut token_iter = TokenStream::new(tokens);

    assert_eq!(consume(&mut token_iter, Token::LeftParen), Some(()));
    assert_eq!(token_iter.peek(), Some(&Token::RightParen));

    assert_eq!(consume(&mut token_iter, Token::LeftParen), None);
    assert_eq!(token_iter.peek(), Some(&Token::RightParen));

    assert_eq!(consume(&mut token_iter, Token::RightParen), Some(()));
    assert_eq!(token_iter.peek(), None);
}

#[test]
fn expect_number_reads_the_third_token_too() {
    let tokens = vec![Token::Num(1), Token::Plus, Token::Num(2)];
    let mut token_iter = TokenStream::new(tokens);

    assert_eq!(expect_number(&mut token_iter), Some(1_u32));
    assert_eq!(expect_number(&mut token_iter), None);
    assert_eq!(expect_number(&mut token_iter), Some(2_u32));
    assert_eq!(expect_number(&mut token_iter), None);
    assert_eq!(token_iter.peek(), None);
}

#[test]
fn empty_source_is_just_the_end_marker() {
    let mut c = CharStream::new("");
    assert_eq!(tokenize(&mut c).unwrap(), vec![Token::EOF]);
    let mut c = CharStream::new(" \t\n\r ");
    assert_eq!(tokenize(&mut c).unwrap(), vec![Token::EOF]);
}

#[test]
fn whitespace_is_not_needed_between_tokens() {
    let mut c = CharStream::new("a<=b==c!=d=e<f>g>=h");
    assert_eq!(
        tokenize(&mut c).unwrap(),
        vec![
            Token::new_identifer("a"),
            Token::LessThanOrEqual,
            Token::new_identifer("b"),
            Token::Equal,
            Token::new_identifer("c"),
            Token::NotEqual,
            Token::new_identifer("d"),
            Token::Assign,
            Token::new_identifer("e"),
            Token::LessThan,
            Token::new_identifer("f"),
            Token::GreaterThan,
            Token::new_identifer("g"),
            Token::GreaterThanOrEqual,
            Token::new_identifer("h"),
            Token::EOF,
        ]
    );
}

#[test]
fn three_equal_signs_are_equal_then_assign() {
    let mut c = CharStream::new("===");
    assert_eq!(
        tokenize(&mut c).unwrap(),
        vec![Token::Equal, Token::Assign, Token::EOF]
    );
}

#[test]
fn reserved_words_and_their_neighbours() {
    let mut c = CharStream::new("return if else while for Return iff _x for_ x_1");
    assert_eq!(
        tokenize(&mut c),
        Err(LexError::UnexpectedChar { at: 36, found: '_' })
    );
    let mut c = CharStream::new("return if else while for Return iff for_ x_1");
    assert_eq!(
        tokenize(&mut c).unwrap(),
        vec![
            Token::Return,
            Token::If,
            Token::Else,
            Token::While,
            Token::For,
            Token::new_identifer("Return"),
            Token::new_identifer("iff"),
            Token::new_identifer("for_"),
            Token::new_identifer("x_1"),
            Token::EOF,
        ]
    );
}

#[test]
fn a_number_ends_where_a_letter_begins() {
    let mut c = CharStream::new("12ab");
    assert_eq!(
        tokenize(&mut c).unwrap(),
        vec![Token::Num(12), Token::new_identifer("ab"), Token::EOF]
    );
}

#[test]
fn the_largest_literal_fits() {
    let mut c = CharStream::new("4294967295");
    assert_eq!(
        tokenize(&mut c).unwrap(),
        vec![Token::Num(4294967295), Token::EOF]
    );
    let mut c = CharStream::new("0000000000004294967295");
    assert_eq!(
        tokenize(&mut c).unwrap(),
        vec![Token::Num(4294967295), Token::EOF]
    );
}

#[test]
fn a_literal_above_32_bits_is_an_error() {
    let mut c = CharStream::new("1 + 4294967296");
    assert_eq!(
        tokenize(&mut c),
        Err(LexError::LiteralTooLarge { at: 4 })
    );
    let mut c = CharStream::new("99999999999999999999999999");
    assert_eq!(
        tokenize(&mut c),
        Err(LexError::LiteralTooLarge { at: 0 })
    );
}

#[test]
fn str_to_u_reads_nothing_of_a_literal_that_is_too_large() {
    let mut c = CharStream::new("4294967296;");
    assert_eq!(str_to_u(&mut c), None);
    assert_eq!(c.next(), Some('4'));
}

#[test]
fn str_to_u_at_the_end_of_the_text() {
    let mut c = CharStream::new("");
    assert_eq!(str_to_u(&mut c), None);
    assert_eq!(c.next(), None);
}

#[test]
fn an_unknown_character_is_an_error() {
    let mut c = CharStream::new("1 $ 2");
    assert_eq!(
        tokenize(&mut c),
        Err(LexError::UnexpectedChar { at: 2, found: '$' })
    );
    assert_eq!(c.peek(), Some('$'));
}

#[test]
fn a_lone_exclamation_mark_is_an_error() {
    let mut c = CharStream::new("1 ! 2");
    assert_eq!(
        tokenize(&mut c),
        Err(LexError::UnexpectedChar { at: 2, found: '!' })
    );
    let mut c = CharStream::new("!");
    assert_eq!(
        tokenize(&mut c),
        Err(LexError::UnexpectedChar { at: 0, found: '!' })
    );
}

#[test]
fn an_error_index_counts_characters_not_bytes() {
    let mut c = CharStream::new("あ い #");
    assert_eq!(
        tokenize(&mut c),
        Err(LexError::UnexpectedChar { at: 4, found: '#' })
    );
}

#[test]
fn tokenize_goes_on_from_the_cursor() {
    let mut c = CharStream::new("12 34");
    assert_eq!(str_to_u(&mut c), Some(12));
    assert_eq!(
        tokenize(&mut c).unwrap(),
        vec![Token::Num(34), Token::EOF]
    );
    assert_eq!(c.peek(), None);
}

#[test]
fn is_digit_looks_at_the_next_character() {
    assert_eq!(is_digit(&CharStream::new("7x")), Some(true));
    assert_eq!(is_digit(&CharStream::new("x7")), Some(false));
    assert_eq!(is_digit(&CharStream::new("٣")), Some(false));
    assert_eq!(is_digit(&CharStream::new("")), None);
}

#[test]
fn is_almum_takes_letters_digits_and_underscore() {
    assert!(Token::is_almum('a'));
    assert!(Token::is_almum('Z'));
    assert!(Token::is_almum('é'));
    assert!(Token::is_almum('あ'));
    assert!(Token::is_almum('5'));
    assert!(Token::is_almum('_'));
    assert!(!Token::is_almum('-'));
    assert!(!Token::is_almum(' '));
    assert!(!Token::is_almum('$'));
}

#[test]
fn tokens_compare_by_tag_and_payload() {
    assert_eq!(Token::Num(1), Token::Num(1));
    assert_ne!(Token::Num(1), Token::Num(2));
    assert_eq!(Token::new_identifer("ab"), Token::new_identifer("ab"));
    assert_ne!(Token::new_identifer("ab"), Token::new_identifer("ba"));
    assert_ne!(Token::new_identifer("if"), Token::If);
    assert_ne!(Token::Plus, Token::Minus);
    assert_eq!(Token::new_identifer("x").clone(), Token::new_identifer("x"));
    assert_eq!(Token::GreaterThanOrEqual.clone(), Token::GreaterThanOrEqual);
}

#[test]
fn lib_test_tokenize() {
    let tests: Vec<(&str, &str, Vec<Token>)> = vec![
        ("1", "1", vec![Token::Num(1), Token::EOF]),
        (
            "1 + 2",
            "1 + 2",
            vec![Token::Num(1), Token::Plus, Token::Num(2), Token::EOF],
        ),
        (
            "1 + 2 - 3",
            "1 + 2 - 3",
            vec![
                Token::Num(1),
                Token::Plus,
                Token::Num(2),
                Token::Minus,
                Token::Num(3),
                Token::EOF,
            ],
        ),
        (
            "カッコ",
            "(1 + 2) - 3",
            vec![
                Token::LeftParen,
                Token::Num(1),
                Token::Plus,
                Token::Num(2),
                Token::RightParen,
                Token::Minus,
                Token::Num(3),
                Token::EOF,
            ],
        ),
        (
            "四則演算",
            "1 + 2 * (3 - 4) / 5",
            vec![
                Token::Num(1),
                Token::Plus,
                Token::Num(2),
                Token::Multiply,
                Token::LeftParen,
                Token::Num(3),
                Token::Minus,
                Token::Num(4),
                Token::RightParen,
                Token::Divide,
                Token::Num(5),
                Token::EOF,
            ],
        ),
    ];

    for t in tests {
        let mut c = CharStream::new(t.1);
        assert_eq!(tokenize(&mut c).unwrap(), t.2, "Faild in the {}", t.0,);
    }
}
