use vstd::prelude::*;
use crate::token::{Token, TokenModel};

verus! {

/// One element of a macro's parameter text or replacement text: a literal
/// token, or a numbered parameter slot.
#[derive(Clone, Debug)]
pub enum MacroListElem {
    Token(Token),
    Parameter(usize),
}

/// The value of a macro list element.
pub enum ElemModel {
    Tok(TokenModel),
    Param(nat),
}

impl View for MacroListElem {
    type V = ElemModel;

    open spec fn view(&self) -> ElemModel {
        match self {
            MacroListElem::Token(t) => ElemModel::Tok(t@),
            MacroListElem::Parameter(n) => ElemModel::Param(*n as nat),
        }
    }
}

/// A macro: the parameter text that an invocation must match, and the
/// replacement text that it is rewritten to.
#[derive(Clone, Debug)]
pub struct Macro {
    parameter_list: Vec<MacroListElem>,
    replacement_list: Vec<MacroListElem>,
}

/// The replacement text with each slot `n` replaced by the `n`th argument
/// (slots with no such argument stand for nothing).
pub open spec fn substitute(body: Seq<ElemModel>, args: Seq<Seq<TokenModel>>) -> Seq<TokenModel>
    decreases body.len(),
{
    if body.len() == 0 {
        Seq::empty()
    } else {
        let rest = substitute(body.drop_last(), args);
        match body.last() {
            ElemModel::Tok(t) => rest.push(t),
            ElemModel::Param(n) => if 1 <= n <= args.len() {
                rest + args[n - 1]
            } else {
                rest
            },
        }
    }
}

impl Macro {
    pub closed spec fn params(&self) -> Seq<ElemModel> {
        self.parameter_list@.map_values(|e: MacroListElem| e@)
    }

    pub closed spec fn body(&self) -> Seq<ElemModel> {
        self.replacement_list@.map_values(|e: MacroListElem| e@)
    }

    pub fn new(parameter_list: Vec<MacroListElem>, replacement_list: Vec<MacroListElem>) -> (r: Macro)
        ensures
            r.params() == parameter_list@.map_values(|e: MacroListElem| e@),
            r.body() == replacement_list@.map_values(|e: MacroListElem| e@),
    {
        Macro { parameter_list, replacement_list }
    }

    pub fn parameter_list(&self) -> (r: &Vec<MacroListElem>)
        ensures
            r@.map_values(|e: MacroListElem| e@) == self.params(),
    {
        &self.parameter_list
    }

    pub fn replacement_list(&self) -> (r: &Vec<MacroListElem>)
        ensures
            r@.map_values(|e: MacroListElem| e@) == self.body(),
    {
        &self.replacement_list
    }
}

} // verus!
