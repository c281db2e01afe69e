use vstd::prelude::*;
use crate::category::Category;

verus! {

/// A token: a control sequence named by its letters, or a character with the
/// category it had when it was read.
#[derive(Clone, Debug)]
pub enum Token {
    ControlSequence(String),
    Char(char, Category),
}

/// The value of a token.
pub enum TokenModel {
    Cs(Seq<char>),
    Ch(char, Category),
}

impl View for Token {
    type V = TokenModel;

    open spec fn view(&self) -> TokenModel {
        match self {
            Token::ControlSequence(s) => TokenModel::Cs(s@),
            Token::Char(c, cat) => TokenModel::Ch(*c, *cat),
        }
    }
}

/// The value of an optional token.
pub open spec fn opt_view(t: Option<Token>) -> Option<TokenModel> {
    match t {
        Some(t) => Some(t@),
        None => None,
    }
}

/// The value of a control sequence with the given name.
pub open spec fn cs(name: Seq<char>) -> TokenModel {
    TokenModel::Cs(name)
}

impl Token {
    /// A copy of this token.
    pub fn duplicate(&self) -> (r: Token)
        ensures
            r@ == self@,
    {
        match self {
            Token::ControlSequence(s) => Token::ControlSequence(s.clone()),
            Token::Char(c, cat) => Token::Char(*c, *cat),
        }
    }

    /// Whether this token is the control sequence named `name`.
    pub fn is_control_sequence(&self, name: &str) -> (r: bool)
        ensures
            r == (self@ == cs(name@)),
    {
        match self {
            Token::ControlSequence(s) => {
                let n = name.to_owned();
                s.eq(&n)
            },
            Token::Char(_, _) => false,
        }
    }
}

impl PartialEq for Token {
    fn eq(&self, other: &Token) -> (r: bool) {
        match (self, other) {
            (Token::ControlSequence(a), Token::ControlSequence(b)) => a.eq(b),
            (Token::Char(a, x), Token::Char(b, y)) => *a == *b && *x == *y,
            _ => false,
        }
    }
}

impl vstd::std_specs::cmp::PartialEqSpecImpl for Token {
    open spec fn obeys_eq_spec() -> bool {
        true
    }

    open spec fn eq_spec(&self, other: &Token) -> bool {
        self@ == other@
    }
}

} // verus!
