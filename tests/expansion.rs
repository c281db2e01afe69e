use std::rc::Rc;

use texcore::category::Category;
use texcore::makro::{Macro, MacroListElem};
use texcore::parser::{ExpandError, Parser};
use texcore::state::TeXState;
use texcore::token::Token;

#[test]
fn iftrue_scenario_yields_body_then_end() {
    let state = TeXState::new();
    let mut parser = Parser::new(&["\\iftrue x\\fi%"], &state);
    assert_eq!(parser.lex_expanded_token(), Some(Token::Char('x', Category::Letter)));
    assert_eq!(parser.lex_expanded_token(), None);
    assert_eq!(parser.failure(), None);
    assert_eq!(parser.conditional_depth(), 0);
}

#[test]
fn iffalse_else_scenario_yields_alternative() {
    let state = TeXState::new();
    let mut parser = Parser::new(&["\\iffalse x\\else y\\fi%"], &state);
    assert_eq!(parser.lex_expanded_token(), Some(Token::Char('y', Category::Letter)));
    assert_eq!(parser.lex_expanded_token(), None);
    assert_eq!(parser.failure(), None);
    assert_eq!(parser.conditional_depth(), 0);
}

#[test]
fn else_from_macro_closes_true_branch() {
    let mut state = TeXState::new();
    state.set_macro(
        Token::ControlSequence("a".to_string()),
        Rc::new(Macro::new(
            vec![],
            vec![
                MacroListElem::Token(Token::Char('x', Category::Letter)),
                MacroListElem::Token(Token::ControlSequence("else".to_string())),
                MacroListElem::Token(Token::Char('y', Category::Letter)),
            ],
        )),
    );
    state.set_macro(
        Token::ControlSequence("b".to_string()),
        Rc::new(Macro::new(
            vec![],
            vec![
                MacroListElem::Token(Token::Char('z', Category::Letter)),
                MacroListElem::Token(Token::ControlSequence("fi".to_string())),
            ],
        )),
    );
    let mut parser = Parser::new(&["\\iftrue w\\a\\b\\fi%"], &state);
    assert_eq!(parser.lex_expanded_token(), Some(Token::Char('w', Category::Letter)));
    assert_eq!(parser.lex_expanded_token(), Some(Token::Char('x', Category::Letter)));
    assert_eq!(parser.lex_expanded_token(), None);
    assert_eq!(parser.failure(), None);
}

#[test]
fn false_branch_macros_are_not_invoked() {
    // \boom would need an argument ending in a period that never comes.
    let mut state = TeXState::new();
    state.set_macro(
        Token::ControlSequence("boom".to_string()),
        Rc::new(Macro::new(
            vec![MacroListElem::Parameter(1), MacroListElem::Token(Token::Char('.', Category::Other))],
            vec![MacroListElem::Parameter(1)],
        )),
    );
    let mut parser = Parser::new(&["\\iffalse \\boom\\fi q%"], &state);
    assert_eq!(parser.lex_expanded_token(), Some(Token::Char('q', Category::Letter)));
    assert_eq!(parser.lex_expanded_token(), None);
    assert_eq!(parser.failure(), None);

    let mut parser = Parser::new(&["\\boom q%"], &state);
    assert_eq!(parser.lex_expanded_token(), None);
    assert_eq!(parser.failure(), Some(ExpandError::RunawayArgument));
}

#[test]
fn iftrue_with_else_skips_alternative() {
    let state = TeXState::new();
    let mut parser = Parser::new(&["\\iftrue ab\\else \\undefined c\\fi d%"], &state);
    assert_eq!(parser.lex_expanded_token(), Some(Token::Char('a', Category::Letter)));
    assert_eq!(parser.lex_expanded_token(), Some(Token::Char('b', Category::Letter)));
    assert_eq!(parser.lex_expanded_token(), Some(Token::Char('d', Category::Letter)));
    assert_eq!(parser.lex_expanded_token(), None);
    assert_eq!(parser.conditional_depth(), 0);
}

#[test]
fn extra_fi_is_fatal() {
    let state = TeXState::new();
    let mut parser = Parser::new(&["a\\fi b%"], &state);
    assert_eq!(parser.lex_expanded_token(), Some(Token::Char('a', Category::Letter)));
    assert_eq!(parser.lex_expanded_token(), None);
    assert_eq!(parser.failure(), Some(ExpandError::ExtraFi));
}

#[test]
fn extra_else_is_fatal() {
    let state = TeXState::new();
    let mut parser = Parser::new(&["\\else b\\fi%"], &state);
    assert_eq!(parser.lex_expanded_token(), None);
    assert_eq!(parser.failure(), Some(ExpandError::ExtraElse));
}

#[test]
fn unterminated_false_branch_is_fatal() {
    let state = TeXState::new();
    let mut parser = Parser::new(&["\\iffalse a b"], &state);
    assert_eq!(parser.lex_expanded_token(), None);
    assert_eq!(parser.failure(), Some(ExpandError::IncompleteConditional));
}

#[test]
fn macro_with_one_parameter_round_trip() {
    let mut state = TeXState::new();
    state.set_macro(
        Token::ControlSequence("m".to_string()),
        Rc::new(Macro::new(
            vec![MacroListElem::Parameter(1)],
            vec![
                MacroListElem::Token(Token::Char('x', Category::Letter)),
                MacroListElem::Parameter(1),
                MacroListElem::Token(Token::Char('y', Category::Letter)),
            ],
        )),
    );
    let mut parser = Parser::new(&["\\m z%"], &state);
    assert_eq!(parser.lex_expanded_token(), Some(Token::Char('x', Category::Letter)));
    assert_eq!(parser.lex_expanded_token(), Some(Token::Char('z', Category::Letter)));
    assert_eq!(parser.lex_expanded_token(), Some(Token::Char('y', Category::Letter)));
    assert_eq!(parser.lex_expanded_token(), None);
    assert_eq!(parser.failure(), None);
}

#[test]
fn undelimited_parameter_takes_a_brace_group() {
    let mut state = TeXState::new();
    state.set_macro(
        Token::ControlSequence("m".to_string()),
        Rc::new(Macro::new(
            vec![MacroListElem::Parameter(1)],
            vec![MacroListElem::Parameter(1), MacroListElem::Parameter(1)],
        )),
    );
    let mut parser = Parser::new(&["\\m{ab}c%"], &state);
    let mut got = Vec::new();
    while let Some(t) = parser.lex_expanded_token() {
        got.push(t);
    }
    assert_eq!(
        got,
        vec![
            Token::Char('a', Category::Letter),
            Token::Char('b', Category::Letter),
            Token::Char('a', Category::Letter),
            Token::Char('b', Category::Letter),
            Token::Char('c', Category::Letter),
        ]
    );
}

#[test]
fn delimited_parameter_stops_at_delimiter() {
    let mut state = TeXState::new();
    state.set_macro(
        Token::ControlSequence("m".to_string()),
        Rc::new(Macro::new(
            vec![MacroListElem::Parameter(1), MacroListElem::Token(Token::Char('.', Category::Other))],
            vec![
                MacroListElem::Token(Token::Char('<', Category::Other)),
                MacroListElem::Parameter(1),
                MacroListElem::Token(Token::Char('>', Category::Other)),
            ],
        )),
    );
    let mut parser = Parser::new(&["\\m a{.}b.c%"], &state);
    let mut got = Vec::new();
    while let Some(t) = parser.lex_expanded_token() {
        got.push(t);
    }
    assert_eq!(
        got,
        vec![
            Token::Char('<', Category::Other),
            Token::Char('a', Category::Letter),
            Token::Char('{', Category::BeginGroup),
            Token::Char('.', Category::Other),
            Token::Char('}', Category::EndGroup),
            Token::Char('b', Category::Letter),
            Token::Char('>', Category::Other),
            Token::Char('c', Category::Letter),
        ]
    );
    assert_eq!(parser.failure(), None);
}

#[test]
fn literal_parameter_text_must_match() {
    let mut state = TeXState::new();
    state.set_macro(
        Token::ControlSequence("m".to_string()),
        Rc::new(Macro::new(
            vec![MacroListElem::Token(Token::Char('!', Category::Other))],
            vec![MacroListElem::Token(Token::Char('k', Category::Letter))],
        )),
    );
    let mut parser = Parser::new(&["\\m!\\m?%"], &state);
    assert_eq!(parser.lex_expanded_token(), Some(Token::Char('k', Category::Letter)));
    assert_eq!(parser.lex_expanded_token(), None);
    assert_eq!(parser.failure(), Some(ExpandError::UseDoesNotMatchDefinition));
}

#[test]
fn undefined_control_sequence_passes_through() {
    let state = TeXState::new();
    let mut parser = Parser::new(&["\\relax%"], &state);
    assert_eq!(parser.lex_expanded_token(), Some(Token::ControlSequence("relax".to_string())));
    assert_eq!(parser.lex_expanded_token(), None);
}

#[test]
fn redefinition_replaces_macro() {
    let mut state = TeXState::new();
    let name = Token::ControlSequence("m".to_string());
    state.set_macro(
        name.clone(),
        Rc::new(Macro::new(vec![], vec![MacroListElem::Token(Token::Char('1', Category::Other))])),
    );
    state.set_macro(
        name.clone(),
        Rc::new(Macro::new(vec![], vec![MacroListElem::Token(Token::Char('2', Category::Other))])),
    );
    let mut parser = Parser::new(&["\\m%"], &state);
    assert_eq!(parser.lex_expanded_token(), Some(Token::Char('2', Category::Other)));
}

#[test]
fn macro_with_argument_inside_true_branch() {
    let mut state = TeXState::new();
    state.set_macro(
        Token::ControlSequence("m".to_string()),
        Rc::new(Macro::new(
            vec![MacroListElem::Parameter(1)],
            vec![
                MacroListElem::Token(Token::Char('x', Category::Letter)),
                MacroListElem::Parameter(1),
                MacroListElem::Token(Token::Char('y', Category::Letter)),
            ],
        )),
    );
    let mut parser = Parser::new(&["\\iftrue\\m z\\fi%"], &state);
    assert_eq!(parser.is_conditional_head(), true);
    parser.expand_conditional();
    assert_eq!(parser.lex_expanded_token(), Some(Token::Char('x', Category::Letter)));
    assert_eq!(parser.lex_expanded_token(), Some(Token::Char('z', Category::Letter)));
    assert_eq!(parser.lex_expanded_token(), Some(Token::Char('y', Category::Letter)));
    assert_eq!(parser.is_conditional_head(), true);
    parser.expand_conditional();
    assert_eq!(parser.conditional_depth(), 0);
    assert_eq!(parser.lex_unexpanded_token(), None);
}
