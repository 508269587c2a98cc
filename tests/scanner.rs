use ll1_parser::lexer::{Lexer, TokenTypes};
use ll1_parser::report::{decimal_string, token_report};

fn kinds(input: &str) -> Vec<TokenTypes> {
    Lexer::get_next_token(input).unwrap().into_iter().map(|t| t.token_type).collect()
}

#[test]
fn keywords_identifiers_and_numbers() {
    let toks = Lexer::get_next_token("def int f1(x) = 42;").unwrap();
    let types: Vec<TokenTypes> = toks.iter().map(|t| t.token_type.clone()).collect();
    assert_eq!(
        types,
        vec![
            TokenTypes::Def,
            TokenTypes::Type("int".to_string()),
            TokenTypes::Ident("f1".to_string()),
            TokenTypes::LParen,
            TokenTypes::Ident("x".to_string()),
            TokenTypes::RParen,
            TokenTypes::Assign,
            TokenTypes::IntegerLiteral(42),
            TokenTypes::Semicolon,
        ]
    );
    let lexemes: Vec<&str> = toks.iter().map(|t| t.lexeme.as_str()).collect();
    assert_eq!(lexemes, vec!["def", "int", "f1", "(", "x", ")", "=", "42", ";"]);
    let columns: Vec<usize> = toks.iter().map(|t| t.column_number).collect();
    assert_eq!(columns, vec![1, 2, 3, 4, 5, 6, 7, 8, 9]);
}

#[test]
fn lines_and_columns_restart_after_newline() {
    let toks = Lexer::get_next_token("if x\n  fi .").unwrap();
    let pos: Vec<(usize, usize)> = toks.iter().map(|t| (t.line_number, t.column_number)).collect();
    assert_eq!(pos, vec![(1, 1), (1, 2), (2, 1), (2, 2)]);
    assert_eq!(toks[3].token_type, TokenTypes::Eof);
}

#[test]
fn two_character_operators() {
    assert_eq!(
        kinds("== += -= *= /= %= >= != <>"),
        vec![
            TokenTypes::Equal,
            TokenTypes::PlusAssign,
            TokenTypes::MinusEqual,
            TokenTypes::AsteriskEqual,
            TokenTypes::DivideEqual,
            TokenTypes::ModuloEqual,
            TokenTypes::GreaterEqual,
            TokenTypes::NotEqual,
            TokenTypes::NotEqual,
        ]
    );
    assert_eq!(kinds("< > ! + - * / %"), vec![
        TokenTypes::Less,
        TokenTypes::Greater,
        TokenTypes::Not,
        TokenTypes::Plus,
        TokenTypes::Minus,
        TokenTypes::Asterisk,
        TokenTypes::Divide,
        TokenTypes::Modulo,
    ]);
}

#[test]
fn less_equal_is_followed_by_less() {
    let toks = Lexer::get_next_token("<=").unwrap();
    assert_eq!(toks.len(), 2);
    assert_eq!(toks[0].token_type, TokenTypes::LessEqual);
    assert_eq!(toks[0].lexeme, "<=");
    assert_eq!(toks[1].token_type, TokenTypes::Less);
    assert_eq!(toks[1].lexeme, "<");
}

#[test]
fn double_literal_keeps_its_text() {
    let toks = Lexer::get_next_token("3.50").unwrap();
    assert_eq!(toks.len(), 1);
    assert_eq!(toks[0].token_type, TokenTypes::DoubleLiteral("3.50".to_string()));
}

#[test]
fn letter_after_number_is_an_error_token() {
    let toks = Lexer::get_next_token("12ab").unwrap();
    let types: Vec<TokenTypes> = toks.iter().map(|t| t.token_type.clone()).collect();
    assert_eq!(
        types,
        vec![TokenTypes::IntegerLiteral(12), TokenTypes::Error, TokenTypes::Ident("ab".to_string())]
    );
    assert_eq!(toks[1].lexeme, "a");
    assert_eq!(toks[1].column_number, 2);
    assert_eq!(toks[2].column_number, 2);
}

#[test]
fn stray_character_is_an_error_token() {
    let toks = Lexer::get_next_token("x # y").unwrap();
    assert_eq!(toks[1].token_type, TokenTypes::Error);
    assert_eq!(toks[1].lexeme, "#");
}

#[test]
fn integer_literal_limits() {
    assert_eq!(kinds("2147483647"), vec![TokenTypes::IntegerLiteral(2147483647)]);
    assert!(Lexer::get_next_token("2147483648").is_err());
    assert!(Lexer::get_next_token("").unwrap().is_empty());
}

#[test]
fn token_descriptions() {
    assert_eq!(TokenTypes::Def.describe(), "Def");
    assert_eq!(TokenTypes::Ident("ab".to_string()).describe(), "Ident(ab)");
    assert_eq!(TokenTypes::IntegerLiteral(-305).describe(), "IntegerLiteral(-305)");
    assert_eq!(TokenTypes::DoubleLiteral("1.5".to_string()).describe(), "DoubleLiteral(1.5)");
    assert_eq!(decimal_string(0), "0");
    assert_eq!(decimal_string(9070), "9070");
}

#[test]
fn reports_split_valid_and_error_tokens() {
    let toks = Lexer::get_next_token("while x # od").unwrap();
    let valid = token_report(&toks, false);
    let errors = token_report(&toks, true);
    assert!(valid.contains("Token Type"));
    assert!(valid.contains("Ident(x)"));
    assert!(valid.contains("While"));
    assert!(!valid.contains("#"));
    assert!(errors.contains("Column Number"));
    assert!(errors.contains("Error"));
    assert!(errors.contains("#"));
    assert!(!errors.contains("While"));
}
