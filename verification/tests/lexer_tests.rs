use easy_lang::LexError;
use easy_lang::LiteralType;
use easy_lang::ReservedWord;
use easy_lang::Symbol;
use easy_lang::Token;
use easy_lang::Tokenizer;
use easy_lang::TokenizerTrait;

fn lex(source: &str) -> Result<Vec<Token>, LexError> {
    assert!(!source.is_empty());
    let mut tokenizer = Tokenizer::new(source);
    tokenizer.create_token()?;
    Ok(tokenizer.token)
}

#[test]
fn integer_literal_value() {
    let tokens = lex("123").unwrap();
    assert_eq!(tokens, vec![Token::Literal(LiteralType::Int(123))]);
}

#[test]
fn integer_literal_single_digit() {
    let tokens = lex("7").unwrap();
    assert_eq!(tokens, vec![Token::Literal(LiteralType::Int(7))]);
}

#[test]
fn integer_literal_max_value() {
    let tokens = lex("9223372036854775807").unwrap();
    assert_eq!(tokens, vec![Token::Literal(LiteralType::Int(i64::MAX))]);
}

#[test]
fn integer_literal_overflow() {
    assert_eq!(lex("9223372036854775808"), Err(LexError::NumericOverflow));
    assert_eq!(lex("99999999999999999999"), Err(LexError::NumericOverflow));
}

#[test]
fn float_literal_spelling() {
    let tokens = lex("12.5").unwrap();
    assert_eq!(
        tokens,
        vec![Token::Literal(LiteralType::Float(String::from("12.5")))]
    );
}

#[test]
fn float_literal_empty_fraction() {
    let tokens = lex("5.").unwrap();
    assert_eq!(
        tokens,
        vec![Token::Literal(LiteralType::Float(String::from("5.")))]
    );
}

#[test]
fn whitespace_only_yields_no_tokens() {
    assert_eq!(lex(" ").unwrap(), vec![]);
    assert_eq!(lex(" \t\r\n ").unwrap(), vec![]);
}

#[test]
fn symbol_run_one_token_per_character() {
    let source = "+-*/%=!<>&|(){}[],.:;";
    let tokens = lex(source).unwrap();
    let expected = vec![
        Token::Symbol(Symbol::Plus),
        Token::Symbol(Symbol::Minus),
        Token::Symbol(Symbol::Asterisk),
        Token::Symbol(Symbol::Slash),
        Token::Symbol(Symbol::Percent),
        Token::Symbol(Symbol::Equal),
        Token::Symbol(Symbol::Not),
        Token::Symbol(Symbol::LessThan),
        Token::Symbol(Symbol::GreaterThan),
        Token::Symbol(Symbol::And),
        Token::Symbol(Symbol::Or),
        Token::Symbol(Symbol::LeftParen),
        Token::Symbol(Symbol::RightParen),
        Token::Symbol(Symbol::LeftBrace),
        Token::Symbol(Symbol::RightBrace),
        Token::Symbol(Symbol::LeftBracket),
        Token::Symbol(Symbol::RightBracket),
        Token::Symbol(Symbol::Comma),
        Token::Symbol(Symbol::Dot),
        Token::Symbol(Symbol::Colon),
        Token::Symbol(Symbol::Semicolon),
    ];
    assert_eq!(tokens, expected);
}

#[test]
fn two_character_operators_are_not_composed() {
    let tokens = lex("==").unwrap();
    assert_eq!(
        tokens,
        vec![Token::Symbol(Symbol::Equal), Token::Symbol(Symbol::Equal)]
    );
    let tokens = lex("!=").unwrap();
    assert_eq!(
        tokens,
        vec![Token::Symbol(Symbol::Not), Token::Symbol(Symbol::Equal)]
    );
}

#[test]
fn every_keyword_spelling_is_reserved() {
    let table = [
        ("if", ReservedWord::If),
        ("else", ReservedWord::Else),
        ("while", ReservedWord::While),
        ("for", ReservedWord::For),
        ("in", ReservedWord::In),
        ("fn", ReservedWord::Function),
        ("ret", ReservedWord::Return),
        ("break", ReservedWord::Break),
        ("continue", ReservedWord::Continue),
        ("true", ReservedWord::True),
        ("false", ReservedWord::False),
        ("null", ReservedWord::Null),
        ("var", ReservedWord::Var),
        ("let", ReservedWord::Let),
        ("const", ReservedWord::Const),
        ("p", ReservedWord::Print),
        ("pl", ReservedWord::Println),
        ("input", ReservedWord::Input),
        ("len", ReservedWord::Len),
        ("type", ReservedWord::Type),
        ("import", ReservedWord::Import),
        ("from", ReservedWord::From),
        ("as", ReservedWord::As),
        ("class", ReservedWord::Class),
        ("new", ReservedWord::New),
        ("this", ReservedWord::This),
        ("super", ReservedWord::Super),
    ];
    for (spelling, word) in table {
        let tokens = lex(spelling).unwrap();
        assert_eq!(tokens, vec![Token::Reserved(word)], "keyword {spelling}");
    }
}

#[test]
fn other_alphabetic_runs_are_identifiers() {
    let tokens = lex("ifx").unwrap();
    assert_eq!(tokens, vec![Token::Identifier(String::from("ifx"))]);
    let tokens = lex("hello").unwrap();
    assert_eq!(tokens, vec![Token::Identifier(String::from("hello"))]);
}

#[test]
fn string_literal_drops_delimiters() {
    let tokens = lex("\"hi there\"").unwrap();
    assert_eq!(
        tokens,
        vec![Token::Literal(LiteralType::Str(String::from("hi there")))]
    );
}

#[test]
fn empty_string_literal() {
    let tokens = lex("\"\"").unwrap();
    assert_eq!(tokens, vec![Token::Literal(LiteralType::Str(String::new()))]);
}

#[test]
fn unterminated_string_literal() {
    assert_eq!(lex("\"abc"), Err(LexError::UnterminatedString));
}

#[test]
fn unexpected_character() {
    assert_eq!(lex("@"), Err(LexError::UnexpectedCharacter));
    assert_eq!(lex("1 + #"), Err(LexError::UnexpectedCharacter));
}

#[test]
fn mixed_statement_tokens() {
    let tokens = lex("let x = 1;").unwrap();
    assert_eq!(
        tokens,
        vec![
            Token::Reserved(ReservedWord::Let),
            Token::Identifier(String::from("x")),
            Token::Symbol(Symbol::Equal),
            Token::Literal(LiteralType::Int(1)),
            Token::Symbol(Symbol::Semicolon),
        ]
    );
}

#[test]
fn identifier_stops_at_non_alphabetic() {
    let tokens = lex("abc1").unwrap();
    assert_eq!(
        tokens,
        vec![
            Token::Identifier(String::from("abc")),
            Token::Literal(LiteralType::Int(1)),
        ]
    );
}

#[test]
fn unicode_letters_and_spaces() {
    let tokens = lex("\u{5909}\u{6570}\u{3000}x").unwrap();
    assert_eq!(
        tokens,
        vec![
            Token::Identifier(String::from("\u{5909}\u{6570}")),
            Token::Identifier(String::from("x")),
        ]
    );
}

#[test]
fn error_messages_name_the_condition() {
    assert_eq!(
        LexError::NumericOverflow.message(),
        "integer literal out of range"
    );
    assert_eq!(
        LexError::UnterminatedString.message(),
        "unterminated string literal"
    );
    assert_eq!(LexError::UnexpectedCharacter.message(), "unexpected character");
}
