use texcore::category::{Category, CategoryTable};
use texcore::lexer::Lexer;
use texcore::parser::Parser;
use texcore::state::TeXState;
use texcore::token::Token;

#[test]
fn category_change_before_lexing_changes_token() {
    let mut state = TeXState::new();
    assert_eq!(state.get_category('z'), Category::Letter);
    state.set_category('z', Category::Other);
    assert_eq!(state.get_category('z'), Category::Other);
    assert_eq!(state.get_category('y'), Category::Letter);
    let mut parser = Parser::new(&["z%"], &state);
    assert_eq!(parser.lex_unexpanded_token(), Some(Token::Char('z', Category::Other)));
}

#[test]
fn category_change_after_lexing_keeps_earlier_tokens() {
    let mut table = CategoryTable::new();
    let mut lexer = Lexer::new(&["qq%"]);
    let first = lexer.next_token(&table);
    table.set_category('q', Category::Active);
    let second = lexer.next_token(&table);
    assert_eq!(first, Some(Token::Char('q', Category::Letter)));
    assert_eq!(second, Some(Token::Char('q', Category::Active)));
    assert_eq!(lexer.next_token(&table), None);
}

#[test]
fn spaces_collapse_and_line_end_is_a_space() {
    let table = CategoryTable::new();
    let mut lexer = Lexer::new(&["  a   b", "c"]);
    let mut got = Vec::new();
    while let Some(t) = lexer.next_token(&table) {
        got.push(t);
    }
    assert_eq!(
        got,
        vec![
            Token::Char('a', Category::Letter),
            Token::Char(' ', Category::Space),
            Token::Char('b', Category::Letter),
            Token::Char(' ', Category::Space),
            Token::Char('c', Category::Letter),
            Token::Char(' ', Category::Space),
        ]
    );
}

#[test]
fn control_words_and_symbols() {
    let table = CategoryTable::new();
    let mut lexer = Lexer::new(&["\\abc  \\$x% ignored"]);
    assert_eq!(lexer.next_token(&table), Some(Token::ControlSequence("abc".to_string())));
    assert_eq!(lexer.next_token(&table), Some(Token::ControlSequence("$".to_string())));
    assert_eq!(lexer.next_token(&table), Some(Token::Char('x', Category::Letter)));
    assert_eq!(lexer.next_token(&table), None);
}

#[test]
fn escape_at_line_end_names_the_line_end() {
    let table = CategoryTable::new();
    let mut lexer = Lexer::new(&["\\"]);
    assert_eq!(lexer.next_token(&table), Some(Token::ControlSequence("\r".to_string())));
    assert_eq!(lexer.next_token(&table), None);
}

#[test]
fn ignored_and_invalid_characters_are_dropped() {
    let table = CategoryTable::new();
    let mut lexer = Lexer::new(&["a\u{0}\u{7f}b%"]);
    assert_eq!(lexer.next_token(&table), Some(Token::Char('a', Category::Letter)));
    assert_eq!(lexer.next_token(&table), Some(Token::Char('b', Category::Letter)));
    assert_eq!(lexer.next_token(&table), None);
}

#[test]
fn peek_does_not_consume() {
    let state = TeXState::new();
    let mut parser = Parser::new(&["ab%"], &state);
    assert_eq!(parser.peek_unexpanded_token(), Some(Token::Char('a', Category::Letter)));
    assert_eq!(parser.peek_unexpanded_token(), Some(Token::Char('a', Category::Letter)));
    assert_eq!(parser.lex_unexpanded_token(), Some(Token::Char('a', Category::Letter)));
    assert_eq!(parser.lex_unexpanded_token(), Some(Token::Char('b', Category::Letter)));
    assert_eq!(parser.lex_unexpanded_token(), None);
}

#[test]
fn parser_category_change_applies_to_unread_input() {
    let state = TeXState::new();
    let mut parser = Parser::new(&["ab%"], &state);
    assert_eq!(parser.lex_unexpanded_token(), Some(Token::Char('a', Category::Letter)));
    parser.set_category('b', Category::Other);
    assert_eq!(parser.lex_unexpanded_token(), Some(Token::Char('b', Category::Other)));
    assert_eq!(parser.lex_unexpanded_token(), None);
    assert_eq!(state.get_category('b'), Category::Letter);
}

#[test]
fn parser_category_change_keeps_peeked_token() {
    let state = TeXState::new();
    let mut parser = Parser::new(&["\\iftrue x%"], &state);
    assert_eq!(parser.is_conditional_head(), true);
    parser.set_category('\\', Category::Other);
    assert_eq!(parser.is_conditional_head(), true);
    assert_eq!(
        parser.lex_unexpanded_token(),
        Some(Token::ControlSequence("iftrue".to_string()))
    );
}
