use lang_front::lexer::{tokenize, Lexer, TokenType};

fn kinds_and_texts(source: &str) -> Vec<(TokenType, String)> {
    tokenize(source)
        .iter()
        .map(|t| (t.token_type, String::from_utf8_lossy(t.contents).into_owned()))
        .collect()
}

#[test]
fn two_spaces_are_two_whitespace_tokens() {
    let tokens = tokenize("  ");
    assert_eq!(tokens.len(), 3);
    assert_eq!(tokens[0].token_type, TokenType::Whitespace);
    assert_eq!(tokens[0].contents, b" ");
    assert_eq!(tokens[1].token_type, TokenType::Whitespace);
    assert_eq!(tokens[1].contents, b" ");
    assert_eq!(tokens[2].token_type, TokenType::EndOfFile);
    assert_eq!(tokens[2].contents, b"");
}

#[test]
fn digits_then_dot_degrade_to_unknown_bytes() {
    let tokens = kinds_and_texts("12.");
    assert_eq!(
        tokens,
        vec![
            (TokenType::Unknown, "1".to_string()),
            (TokenType::Unknown, "2".to_string()),
            (TokenType::Unknown, ".".to_string()),
            (TokenType::EndOfFile, "".to_string()),
        ]
    );
}

#[test]
fn dot_without_fraction_digit_fails_the_number() {
    let tokens = kinds_and_texts("1.x");
    assert_eq!(tokens[0], (TokenType::Unknown, "1".to_string()));
    assert_eq!(tokens[1], (TokenType::Unknown, ".".to_string()));
    assert_eq!(tokens[2], (TokenType::Name, "x".to_string()));
}

#[test]
fn numbers_with_and_without_fraction() {
    let tokens = kinds_and_texts("12.5+7 3.14.1");
    assert_eq!(
        tokens,
        vec![
            (TokenType::Number, "12.5".to_string()),
            (TokenType::Plus, "+".to_string()),
            (TokenType::Number, "7".to_string()),
            (TokenType::Whitespace, " ".to_string()),
            (TokenType::Number, "3.14".to_string()),
            (TokenType::Unknown, ".".to_string()),
            (TokenType::Number, "1".to_string()),
            (TokenType::EndOfFile, "".to_string()),
        ]
    );
}

#[test]
fn every_category_is_recognized() {
    let tokens = kinds_and_texts("_a1=(),+-\t\n\r#9x");
    assert_eq!(
        tokens,
        vec![
            (TokenType::Name, "_a1".to_string()),
            (TokenType::Equal, "=".to_string()),
            (TokenType::LeftParenthesis, "(".to_string()),
            (TokenType::RightParenthesis, ")".to_string()),
            (TokenType::Comma, ",".to_string()),
            (TokenType::Plus, "+".to_string()),
            (TokenType::Minus, "-".to_string()),
            (TokenType::Whitespace, "\t".to_string()),
            (TokenType::Whitespace, "\n".to_string()),
            (TokenType::Whitespace, "\r".to_string()),
            (TokenType::Unknown, "#".to_string()),
            (TokenType::Number, "9".to_string()),
            (TokenType::Name, "x".to_string()),
            (TokenType::EndOfFile, "".to_string()),
        ]
    );
}

#[test]
fn non_ascii_bytes_are_single_unknown_tokens() {
    let tokens = tokenize("é");
    assert_eq!(tokens.len(), 3);
    assert_eq!(tokens[0].token_type, TokenType::Unknown);
    assert_eq!(tokens[0].contents, &[0xc3u8][..]);
    assert_eq!(tokens[1].token_type, TokenType::Unknown);
    assert_eq!(tokens[1].contents, &[0xa9u8][..]);
    assert_eq!(tokens[2].token_type, TokenType::EndOfFile);
}

#[test]
fn texts_concatenate_to_the_input() {
    let source = "local example = 1000 (f)(x, 2.5) ?é";
    let mut joined: Vec<u8> = Vec::new();
    for token in tokenize(source) {
        joined.extend_from_slice(token.contents);
    }
    assert_eq!(joined, source.as_bytes());
}

#[test]
fn end_of_file_repeats() {
    let mut lexer = Lexer::new("a");
    assert_eq!(lexer.next().token_type, TokenType::Name);
    for _ in 0..3 {
        let token = lexer.next();
        assert_eq!(token.token_type, TokenType::EndOfFile);
        assert_eq!(token.contents, b"");
    }
}

#[test]
fn peek_matches_sequential_next() {
    let source = "x = f(1, 2)";
    for k in 0u8..15 {
        let lexer = Lexer::new(source);
        let peeked = lexer.peek(k);
        let mut walker = Lexer::new(source);
        let mut last = walker.next();
        for _ in 0..k {
            last = walker.next();
        }
        assert_eq!(peeked.token_type, last.token_type);
        assert_eq!(peeked.contents, last.contents);
        let mut after = lexer;
        let first = after.next();
        assert_eq!(first.token_type, TokenType::Name);
        assert_eq!(first.contents, b"x");
    }
}

#[test]
fn next_if_skips_whitespace_and_keeps_unmatched() {
    let mut lexer = Lexer::new("  a b");
    assert_eq!(lexer.next_if(TokenType::Number), None);
    assert_eq!(lexer.peek(0).token_type, TokenType::Name);
    assert_eq!(lexer.next_if(TokenType::Name), Some(&b"a"[..]));
    lexer.skip_whitespace();
    assert_eq!(lexer.next().contents, b"b");
}
