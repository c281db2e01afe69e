use vstd::prelude::*;
use crate::category::{Category, CategoryTable};
use crate::lexer::{Cursor, Lexer, lex_next};
use crate::makro::{Macro, substitute};
use crate::parser::expand::{arguments_fail, arguments_read};
use crate::state::TeXState;
use crate::token::{Token, TokenModel, cs, opt_view};

pub mod conditional;
pub mod expand;

verus! {

/// The fatal conditions that stop expansion.
#[derive(Clone, Copy, Debug, PartialEq, Eq, Structural)]
pub enum ExpandError {
    /// A `\fi` with no open conditional.
    ExtraFi,
    /// An `\else` with no open conditional.
    ExtraElse,
    /// The input ended inside a skipped conditional branch.
    IncompleteConditional,
    /// The input ended before a macro's arguments were complete.
    RunawayArgument,
    /// A macro invocation does not match the macro's parameter text.
    UseDoesNotMatchDefinition,
    /// More conditionals are open than can be counted.
    ConditionalOverflow,
    /// The limit on the number of expansions was reached.
    ExpansionLimit,
}

/// How many expansions (of macros and of conditionals) one parser performs
/// at most.
pub const EXPANSION_LIMIT: u64 = 1000000000000;

/// The part of a parser that reading tokens changes.
pub struct ParserModel {
    pub cursor: Cursor,
    /// Tokens put back in front of the input; the last one comes first.
    pub pending: Seq<TokenModel>,
    pub depth: nat,
    pub failure: Option<ExpandError>,
}

/// One raw (unexpanded) read: the token, and the model after it. After a
/// failure nothing more is read.
pub open spec fn raw_step(lines: Seq<Seq<char>>, t: CategoryTable, m: ParserModel) -> (Option<TokenModel>, ParserModel) {
    if m.failure is Some {
        (None, m)
    } else if m.pending.len() > 0 {
        (Some(m.pending.last()), ParserModel { pending: m.pending.drop_last(), ..m })
    } else {
        let (tok, c) = lex_next(lines, t, m.cursor);
        (tok, ParserModel { cursor: c, ..m })
    }
}

/// Tokens already read and put back are read again as they were, whatever
/// categories the table gives their characters now.
pub proof fn lemma_read_tokens_keep_category(lines: Seq<Seq<char>>, t1: CategoryTable, t2: CategoryTable, m: ParserModel)
    requires
        m.pending.len() > 0,
    ensures
        raw_step(lines, t1, m) == raw_step(lines, t2, m),
{
}

/// The model after `k` raw reads.
pub open spec fn raw_iter(lines: Seq<Seq<char>>, t: CategoryTable, m: ParserModel, k: nat) -> ParserModel
    decreases k,
{
    if k == 0 {
        m
    } else {
        raw_step(lines, t, raw_iter(lines, t, m, (k - 1) as nat)).1
    }
}

/// The token that the `k`th raw read from `m` returns (counting from zero).
pub open spec fn raw_token_at(lines: Seq<Seq<char>>, t: CategoryTable, m: ParserModel, k: nat) -> Option<TokenModel> {
    raw_step(lines, t, raw_iter(lines, t, m, k)).0
}

pub open spec fn fi_cs() -> TokenModel {
    cs("fi"@)
}

pub open spec fn else_cs() -> TokenModel {
    cs("else"@)
}

pub open spec fn iftrue_cs() -> TokenModel {
    cs("iftrue"@)
}

pub open spec fn iffalse_cs() -> TokenModel {
    cs("iffalse"@)
}

/// Whether a token is one of the conditional primitives.
pub open spec fn is_conditional(t: TokenModel) -> bool {
    t == fi_cs() || t == else_cs() || t == iftrue_cs() || t == iffalse_cs()
}

/// The conditional primitives are four different control sequences.
pub proof fn lemma_conditionals_differ()
    ensures
        fi_cs() != else_cs(),
        fi_cs() != iftrue_cs(),
        fi_cs() != iffalse_cs(),
        else_cs() != iftrue_cs(),
        else_cs() != iffalse_cs(),
        iftrue_cs() != iffalse_cs(),
{
    reveal_strlit("fi");
    reveal_strlit("else");
    reveal_strlit("iftrue");
    reveal_strlit("iffalse");
    assert("fi"@.len() != "else"@.len());
    assert("iftrue"@[2] != "iffalse"@[2]);
    assert("fi"@.len() != "iftrue"@.len());
    assert("fi"@.len() != "iffalse"@.len());
    assert("else"@.len() != "iftrue"@.len());
    assert("else"@.len() != "iffalse"@.len());
}

/// The model with a fatal condition recorded.
pub open spec fn fail(m: ParserModel, e: ExpandError) -> ParserModel {
    ParserModel { failure: Some(e), ..m }
}

/// Whether a token ends a skipped branch: `\fi`, or `\else` where it counts.
pub open spec fn ends_skip(t: Option<TokenModel>, with_else: bool) -> bool {
    t == Some(fi_cs()) || (with_else && t == Some(else_cs()))
}

/// A skip of raw reads from `m` ends at read `k`: every earlier read gives a
/// token that does not end it, and read `k` ends it or finds no token.
pub open spec fn skip_ends_at(lines: Seq<Seq<char>>, t: CategoryTable, m: ParserModel, k: nat, with_else: bool) -> bool {
    &&& forall|j: nat| j < k ==> (#[trigger] raw_token_at(lines, t, m, j)) is Some && !ends_skip(raw_token_at(lines, t, m, j), with_else)
    &&& raw_token_at(lines, t, m, k) is None || ends_skip(raw_token_at(lines, t, m, k), with_else)
}

/// The model after a skip that ended at read `k`: the terminator is consumed,
/// or, where the input ran out, the conditional is reported incomplete.
pub open spec fn after_skip(lines: Seq<Seq<char>>, t: CategoryTable, m: ParserModel, k: nat) -> ParserModel {
    if raw_token_at(lines, t, m, k) is Some {
        raw_iter(lines, t, m, k + 1)
    } else {
        fail(raw_iter(lines, t, m, k + 1), ExpandError::IncompleteConditional)
    }
}

/// The model after leaving a live branch: one open conditional fewer.
pub open spec fn close_branch(m: ParserModel) -> ParserModel {
    ParserModel { depth: (m.depth - 1) as nat, ..m }
}

/// The model after entering a live branch: one more open conditional.
pub open spec fn open_branch(m: ParserModel) -> ParserModel {
    if m.depth < u64::MAX {
        ParserModel { depth: m.depth + 1, ..m }
    } else {
        fail(m, ExpandError::ConditionalOverflow)
    }
}

/// What acting on the conditional primitive that comes next in `m0` leads to:
/// `\fi` closes a live branch; `\else` closes one and skips to its `\fi`;
/// `\iftrue` opens one; `\iffalse` skips to the `\fi` or `\else`, opening
/// the branch after an `\else`. A `\fi` or `\else` with no open branch is
/// fatal.
pub open spec fn conditional_outcome(lines: Seq<Seq<char>>, table: CategoryTable, m0: ParserModel, fm: ParserModel) -> bool {
    let (t, m) = raw_step(lines, table, m0);
    if t == Some(fi_cs()) {
        fm == if m.depth == 0 {
            fail(m, ExpandError::ExtraFi)
        } else {
            close_branch(m)
        }
    } else if t == Some(else_cs()) {
        if m.depth == 0 {
            fm == fail(m, ExpandError::ExtraElse)
        } else {
            exists|k: nat|
                #[trigger] skip_ends_at(lines, table, close_branch(m), k, false)
                    && fm == after_skip(lines, table, close_branch(m), k)
        }
    } else if t == Some(iftrue_cs()) {
        fm == open_branch(m)
    } else {
        exists|k: nat|
            #[trigger] skip_ends_at(lines, table, m, k, true) && fm == if raw_token_at(lines, table, m, k) == Some(else_cs()) {
                open_branch(after_skip(lines, table, m, k))
            } else {
                after_skip(lines, table, m, k)
            }
    }
}

/// The model with `s` put in front of the input, its first token first.
pub open spec fn with_replacement(m: ParserModel, s: Seq<TokenModel>) -> ParserModel {
    ParserModel { pending: m.pending + s.reverse(), ..m }
}

/// After `n` raw reads from `m0` an invocation of `mac` ended in `fm`: the
/// input ran out before the parameter text was matched, or a read differed
/// from a literal token of it, either recorded as fatal; or the parameter text
/// was matched, giving the arguments, and the replacement text with them put
/// in was placed in front of the input.
pub open spec fn invocation_ended(
    lines: Seq<Seq<char>>,
    t: CategoryTable,
    m0: ParserModel,
    n: nat,
    mac: Macro,
    fm: ParserModel,
) -> bool {
    let m = raw_iter(lines, t, m0, n);
    ||| fm == fail(m, ExpandError::RunawayArgument) && arguments_fail(lines, t, m0, mac.params(), 0, 0, ExpandError::RunawayArgument, n)
    ||| fm == fail(m, ExpandError::UseDoesNotMatchDefinition) && arguments_fail(
        lines,
        t,
        m0,
        mac.params(),
        0,
        0,
        ExpandError::UseDoesNotMatchDefinition,
        n,
    )
    ||| exists|args: Seq<Seq<TokenModel>>|
        #[trigger] arguments_read(lines, t, m0, mac.params(), 0, 0, args, n) && fm == with_replacement(m, substitute(mac.body(), args))
}

/// One expansion step from `m` to `fm`: the next raw token is a conditional
/// primitive, acted on, or names a macro, which is invoked.
pub open spec fn expansion_step(lines: Seq<Seq<char>>, table: CategoryTable, env: TeXState, m: ParserModel, fm: ParserModel) -> bool {
    let (t, m1) = raw_step(lines, table, m);
    &&& t is Some
    &&& if is_conditional(t->Some_0) {
        conditional_outcome(lines, table, m, fm)
    } else {
        &&& env.spec_macro(t->Some_0) is Some
        &&& exists|n: nat| #[trigger] invocation_ended(lines, table, m1, n, env.spec_macro(t->Some_0)->Some_0, fm)
    }
}

/// Each model of `ms` follows from the one before by an expansion step.
pub open spec fn expansion_chain(lines: Seq<Seq<char>>, table: CategoryTable, env: TeXState, ms: Seq<ParserModel>) -> bool {
    forall|i: int| #![trigger ms[i]] 0 <= i < ms.len() - 1 ==> expansion_step(lines, table, env, ms[i], ms[i + 1])
}

/// How a run of expansion steps that ended at `last` finished, leaving `fm`
/// with `budget` expansions left and returning `r`: the next raw token could
/// not be expanded (or none was left) and was read; or it could be, but no
/// expansion was left, and the expansion limit was recorded with the input
/// untouched.
pub open spec fn expansion_ended(
    lines: Seq<Seq<char>>,
    table: CategoryTable,
    env: TeXState,
    last: ParserModel,
    fm: ParserModel,
    budget: nat,
    r: Option<TokenModel>,
) -> bool {
    let (t, m) = raw_step(lines, table, last);
    ||| (t is None || is_unexpandable(env, t->Some_0)) && r == t && fm == m
    ||| {
        &&& budget == 0
        &&& r is None
        &&& t is Some
        &&& !is_unexpandable(env, t->Some_0)
        &&& fm.failure == Some(ExpandError::ExpansionLimit)
        &&& raw_step(lines, table, ParserModel { failure: None, ..fm }) == (t, m)
    }
}

/// Whether a token is read as it is: it is no conditional and names no macro.
pub open spec fn is_unexpandable(env: TeXState, t: TokenModel) -> bool {
    !is_conditional(t) && env.spec_macro(t) is None
}

/// A parser: the lexer, the tokens put back in front of it, and the
/// expansion state. It reads macros from a shared engine state and
/// characters under a category table of its own, copied from that state
/// when the parser is made and changed by `set_category`.
pub struct Parser<'a> {
    state: &'a TeXState,
    categories: CategoryTable,
    lexer: Lexer,
    pending: Vec<Token>,
    conditional_depth: u64,
    failure: Option<ExpandError>,
    budget: u64,
}

impl<'a> Parser<'a> {
    pub closed spec fn model(&self) -> ParserModel {
        ParserModel {
            cursor: self.lexer.cursor(),
            pending: self.pending@.map_values(|t: Token| t@),
            depth: self.conditional_depth as nat,
            failure: self.failure,
        }
    }

    /// The input lines, each followed by the end-of-line character.
    pub closed spec fn lines(&self) -> Seq<Seq<char>> {
        self.lexer.lines()
    }

    /// How many more expansions the parser may perform.
    pub closed spec fn budget(&self) -> nat {
        self.budget as nat
    }

    /// The engine state that the parser reads under.
    pub closed spec fn env(&self) -> TeXState {
        *self.state
    }

    /// The category table that the parser reads under.
    pub closed spec fn table(&self) -> CategoryTable {
        self.categories
    }

    pub open spec fn wf(&self) -> bool {
        crate::lexer::cursor_in(self.lines(), self.model().cursor)
    }

    /// The next raw read from this parser.
    pub open spec fn raw_next(&self) -> (Option<TokenModel>, ParserModel) {
        raw_step(self.lines(), self.table(), self.model())
    }

    /// Whether `other` reads the same input under the same engine state.
    pub open spec fn same_source(&self, other: &Parser) -> bool {
        &&& self.wf()
        &&& self.lines() == other.lines()
        &&& self.env() == other.env()
        &&& self.table() == other.table()
    }

    /// Whether `other` reads the same input under the same engine state, with
    /// the same expansion budget.
    pub open spec fn same_input(&self, other: &Parser) -> bool {
        &&& self.same_source(other)
        &&& self.budget() == other.budget()
    }

    pub fn new(lines: &[&str], state: &'a TeXState) -> (r: Parser<'a>)
        ensures
            r.wf(),
            r.env() == *state,
            r.table().assignments() == state.table().assignments(),
            forall|c: char| #[trigger] r.table().spec_category(c) == state.spec_category(c),
            r.lines().len() == lines@.len(),
            forall|i: int| 0 <= i < lines@.len() ==> #[trigger] r.lines()[i] == crate::lexer::effective_line(lines@[i]@),
            r.model() == (ParserModel {
                cursor: Cursor { line: 0, pos: 0, state: crate::lexer::LineState::NewLine },
                pending: Seq::empty(),
                depth: 0,
                failure: None,
            }),
            r.budget() == EXPANSION_LIMIT,
    {
        let r = Parser {
            state,
            categories: state.table_ref().duplicate(),
            lexer: Lexer::new(lines),
            pending: Vec::new(),
            conditional_depth: 0,
            failure: None,
            budget: EXPANSION_LIMIT,
        };
        proof {
            assert(r.model().pending =~= Seq::<TokenModel>::empty());
        }
        r
    }

    /// The fatal condition that stopped this parser, if any.
    pub fn failure(&self) -> (r: Option<ExpandError>)
        ensures
            r == self.model().failure,
    {
        self.failure
    }

    /// The number of open conditionals whose true branch is being read.
    pub fn conditional_depth(&self) -> (r: u64)
        ensures
            r as nat == self.model().depth,
    {
        self.conditional_depth
    }

    /// Assigns category `cat` to `c` for the rest of the parse: characters
    /// not yet read are read under the new table; tokens already read and put
    /// back keep the category they were read with.
    pub fn set_category(&mut self, c: char, cat: Category)
        requires
            old(self).wf(),
        ensures
            final(self).wf(),
            final(self).lines() == old(self).lines(),
            final(self).env() == old(self).env(),
            final(self).budget() == old(self).budget(),
            final(self).model() == old(self).model(),
            final(self).table().spec_category(c) == cat,
            forall|d: char| d != c ==> #[trigger] final(self).table().spec_category(d) == old(self).table().spec_category(d),
            old(self).model().pending.len() > 0 ==> final(self).raw_next() == old(self).raw_next(),
    {
        self.categories.set_category(c, cat);
        proof {
            if old(self).model().pending.len() > 0 {
                lemma_read_tokens_keep_category(self.lines(), old(self).table(), self.table(), self.model());
            }
        }
    }

    /// Reads and consumes the next token without expanding it.
    pub fn lex_unexpanded_token(&mut self) -> (r: Option<Token>)
        requires
            old(self).wf(),
        ensures
            final(self).same_input(old(self)),
            (opt_view(r), final(self).model()) == old(self).raw_next(),
    {
        if self.failure.is_some() {
            return None;
        }
        let ghost before = self.pending@.map_values(|t: Token| t@);
        match self.pending.pop() {
            Some(t) => {
                proof {
                    assert(self.pending@.map_values(|t: Token| t@) =~= before.drop_last());
                }
                Some(t)
            },
            None => self.lexer.next_token(&self.categories),
        }
    }

    /// The next token, not expanded and not consumed: the next raw read is
    /// the same after this call as before it.
    pub fn peek_unexpanded_token(&mut self) -> (r: Option<Token>)
        requires
            old(self).wf(),
        ensures
            final(self).same_input(old(self)),
            opt_view(r) == old(self).raw_next().0,
            final(self).raw_next() == old(self).raw_next(),
    {
        let r = self.lex_unexpanded_token();
        let ghost mid = self.model();
        if let Some(t) = &r {
            let u = t.duplicate();
            self.pending.push(u);
            proof {
                assert(self.model().pending.drop_last() =~= mid.pending);
                assert(self.raw_next().1 == mid);
            }
        } else {
            proof {
                crate::lexer::lemma_lex_progress(self.lines(), self.table(), old(self).model().cursor);
            }
        }
        r
    }
}

} // verus!
