use std::rc::Rc;

use texcore::category::Category;
use texcore::makro::{Macro, MacroListElem};
use texcore::parser::Parser;
use texcore::state::TeXState;
use texcore::token::Token;

#[test]
fn it_parses_single_body_iftrue() {
    let state = TeXState::new();
    let mut parser = Parser::new(&["\\iftrue x\\fi%"], &state);

    assert_eq!(parser.is_conditional_head(), true);
    parser.expand_conditional();
    assert_eq!(
        parser.lex_unexpanded_token(),
        Some(Token::Char('x', Category::Letter))
    );
    assert_eq!(parser.is_conditional_head(), true);
    parser.expand_conditional();
    assert_eq!(parser.lex_unexpanded_token(), None);
}

#[test]
fn it_parses_iftrue_with_else() {
    let state = TeXState::new();
    let mut parser = Parser::new(&["\\iftrue x\\else y\\fi%"], &state);

    assert_eq!(parser.is_conditional_head(), true);
    parser.expand_conditional();
    assert_eq!(
        parser.lex_unexpanded_token(),
        Some(Token::Char('x', Category::Letter))
    );
    assert_eq!(parser.is_conditional_head(), true);
    parser.expand_conditional();
    assert_eq!(parser.lex_unexpanded_token(), None);
}

#[test]
fn it_parses_single_body_iffalse() {
    let state = TeXState::new();
    let mut parser = Parser::new(&["\\iffalse x\\fi%"], &state);

    assert_eq!(parser.is_conditional_head(), true);
    parser.expand_conditional();
    assert_eq!(parser.lex_unexpanded_token(), None);
}

#[test]
fn it_parses_iffalse_with_else() {
    let state = TeXState::new();
    let mut parser = Parser::new(&["\\iffalse x\\else y\\fi%"], &state);

    assert_eq!(parser.is_conditional_head(), true);
    parser.expand_conditional();
    assert_eq!(
        parser.lex_unexpanded_token(),
        Some(Token::Char('y', Category::Letter))
    );
    assert_eq!(parser.is_conditional_head(), true);
    parser.expand_conditional();
    assert_eq!(parser.lex_unexpanded_token(), None);
}

#[test]
fn it_expand_macros_in_true_bodies_but_not_false_bodies() {
    let mut state = TeXState::new();
    state.set_macro(
        Token::ControlSequence("a".to_string()),
        Rc::new(Macro::new(
            vec![],
            vec![
                MacroListElem::Token(Token::Char('x', Category::Letter)),
                MacroListElem::Token(Token::ControlSequence("else".to_string())),
                MacroListElem::Token(Token::Char('y', Category::Letter)),
            ],
        )),
    );
    state.set_macro(
        Token::ControlSequence("b".to_string()),
        Rc::new(Macro::new(
            vec![],
            vec![
                MacroListElem::Token(Token::Char('z', Category::Letter)),
                MacroListElem::Token(Token::ControlSequence("fi".to_string())),
            ],
        )),
    );
    let mut parser = Parser::new(&["\\iftrue w\\a\\b\\fi%"], &state);

    assert_eq!(parser.is_conditional_head(), true);
    parser.expand_conditional();
    assert_eq!(
        parser.lex_expanded_token(),
        Some(Token::Char('w', Category::Letter))
    );
    assert_eq!(
        parser.lex_expanded_token(),
        Some(Token::Char('x', Category::Letter))
    );
    assert_eq!(parser.is_conditional_head(), true);
    parser.expand_conditional();
    assert_eq!(parser.lex_unexpanded_token(), None);
}
