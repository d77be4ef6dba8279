use easy_lang::LexError;
use easy_lang::Token;
use easy_lang::Tokenizer;
use easy_lang::TokenizerTrait;
use easy_lang::parser::BinOperators;
use easy_lang::parser::BinaryExpr;
use easy_lang::parser::Expression;
use easy_lang::parser::Literal;
use easy_lang::parser::ParseError;
use easy_lang::parser::binary_expr_parse;

fn lex(source: &str) -> Result<Vec<Token>, LexError> {
    assert!(!source.is_empty());
    let mut tokenizer = Tokenizer::new(source);
    tokenizer.create_token()?;
    Ok(tokenizer.token)
}

fn int_lit(value: i64) -> Expression {
    Expression::Literal(Literal::Integer(value))
}

fn binary(left: Expression, right: Expression, operator: BinOperators) -> Expression {
    Expression::BinaryExpr(BinaryExpr {
        left: Box::new(left),
        right: Box::new(right),
        operator,
    })
}

#[test]
fn three_plus_four() {
    let tokens = lex("3 + 4").unwrap();
    let expr = binary_expr_parse(&tokens).unwrap();
    assert_eq!(expr, binary(int_lit(3), int_lit(4), BinOperators::Add));
}

#[test]
fn no_precedence_left_deep_tree() {
    let tokens = lex("10 - 2 * 3").unwrap();
    let expr = binary_expr_parse(&tokens).unwrap();
    assert_eq!(
        expr,
        binary(
            binary(int_lit(10), int_lit(2), BinOperators::Subtract),
            int_lit(3),
            BinOperators::Multiply,
        )
    );
}

#[test]
fn four_operand_chain_stays_left_associative() {
    let tokens = lex("1 + 2 / 3 - 4").unwrap();
    let expr = binary_expr_parse(&tokens).unwrap();
    assert_eq!(
        expr,
        binary(
            binary(
                binary(int_lit(1), int_lit(2), BinOperators::Add),
                int_lit(3),
                BinOperators::Divide,
            ),
            int_lit(4),
            BinOperators::Subtract,
        )
    );
}

#[test]
fn single_literal_parses_to_leaf() {
    let tokens = lex("42").unwrap();
    let expr = binary_expr_parse(&tokens).unwrap();
    assert_eq!(expr, int_lit(42));
}

#[test]
fn float_may_only_lead() {
    let tokens = lex("1.5 + 2").unwrap();
    let expr = binary_expr_parse(&tokens).unwrap();
    assert_eq!(
        expr,
        binary(
            Expression::Literal(Literal::Float(String::from("1.5"))),
            int_lit(2),
            BinOperators::Add,
        )
    );
    let tokens = lex("1 + 2.5").unwrap();
    assert_eq!(binary_expr_parse(&tokens), Err(ParseError::ExpectedNumber));
}

#[test]
fn leading_non_numeric_token_fails() {
    let tokens = lex("+").unwrap();
    assert_eq!(binary_expr_parse(&tokens), Err(ParseError::ExpectedNumber));
    let tokens = lex("x + 1").unwrap();
    assert_eq!(binary_expr_parse(&tokens), Err(ParseError::ExpectedNumber));
}

#[test]
fn empty_token_sequence_fails() {
    assert_eq!(binary_expr_parse(&[]), Err(ParseError::ExpectedNumber));
}

#[test]
fn trailing_operator_fails() {
    let tokens = lex("5 +").unwrap();
    assert_eq!(binary_expr_parse(&tokens), Err(ParseError::ExpectedNumber));
}

#[test]
fn unsupported_operator_fails() {
    let tokens = lex("5 % 3").unwrap();
    assert_eq!(
        binary_expr_parse(&tokens),
        Err(ParseError::UnsupportedOperator)
    );
    let tokens = lex("5 6").unwrap();
    assert_eq!(
        binary_expr_parse(&tokens),
        Err(ParseError::UnsupportedOperator)
    );
}

#[test]
fn parse_error_messages_name_the_condition() {
    assert_eq!(ParseError::ExpectedNumber.message(), "expected a numeric value");
    assert_eq!(
        ParseError::UnsupportedOperator.message(),
        "unsupported operator"
    );
}
