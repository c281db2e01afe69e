use vstd::prelude::*;
use crate::category::Category;
use crate::lexer::lemma_lex_progress;
use crate::makro::{ElemModel, Macro, MacroListElem, substitute};
use crate::parser::{
    ExpandError, Parser, ParserModel, conditional_outcome, expansion_chain, expansion_ended, expansion_step, fail,
    invocation_ended, is_unexpandable, raw_iter, raw_step, raw_token_at,
    with_replacement,
};
use crate::state::TeXState;
use crate::token::{Token, TokenModel, opt_view};
use crate::category::CategoryTable;

verus! {

/// Reading `a` raw tokens and then `b` more is reading `a + b`.
pub proof fn lemma_raw_iter_add(lines: Seq<Seq<char>>, t: CategoryTable, m: ParserModel, a: nat, b: nat)
    ensures
        raw_iter(lines, t, raw_iter(lines, t, m, a), b) == raw_iter(lines, t, m, a + b),
    decreases b,
{
    if b > 0 {
        lemma_raw_iter_add(lines, t, m, a, (b - 1) as nat);
    }
}

/// The outcome of reading an argument from `m0`: some raw reads, or some raw
/// reads and then a runaway argument.
pub open spec fn read_outcome(lines: Seq<Seq<char>>, t: CategoryTable, m0: ParserModel, fm: ParserModel, ok: bool) -> bool {
    if ok {
        fm.failure is None && exists|n: nat| fm == #[trigger] raw_iter(lines, t, m0, n)
    } else {
        exists|n: nat| fm == fail(#[trigger] raw_iter(lines, t, m0, n), ExpandError::RunawayArgument)
    }
}

/// Whether a token opens a brace group.
pub open spec fn is_open(t: Option<TokenModel>) -> bool {
    t matches Some(TokenModel::Ch(_, Category::BeginGroup))
}

/// Whether a token closes a brace group.
pub open spec fn is_close(t: Option<TokenModel>) -> bool {
    t matches Some(TokenModel::Ch(_, Category::EndGroup))
}

/// The tokens of raw reads `a..b` from `m`.
pub open spec fn reads(lines: Seq<Seq<char>>, t: CategoryTable, m: ParserModel, a: nat, b: nat) -> Seq<TokenModel>
    decreases b,
{
    if b <= a {
        Seq::empty()
    } else {
        reads(lines, t, m, a, (b - 1) as nat).push(raw_token_at(lines, t, m, (b - 1) as nat)->Some_0)
    }
}

/// The brace depth after `q` raw reads from `m`, inside a group whose
/// opening brace has been read.
pub open spec fn group_depth(lines: Seq<Seq<char>>, t: CategoryTable, m: ParserModel, q: nat) -> int
    decreases q,
{
    if q == 0 {
        1
    } else {
        let tok = raw_token_at(lines, t, m, (q - 1) as nat);
        group_depth(lines, t, m, (q - 1) as nat) + if is_open(tok) {
            1int
        } else if is_close(tok) {
            -1int
        } else {
            0int
        }
    }
}

/// A group whose opening brace has been read closes at raw read `e` from `m`.
pub open spec fn group_closes_at(lines: Seq<Seq<char>>, t: CategoryTable, m: ParserModel, e: nat) -> bool {
    &&& forall|j: nat| j <= e ==> (#[trigger] raw_token_at(lines, t, m, j)) is Some
    &&& group_depth(lines, t, m, e + 1) == 0
    &&& forall|q: nat| 1 <= q <= e ==> #[trigger] group_depth(lines, t, m, q) > 0
}

proof fn lemma_reads_index(lines: Seq<Seq<char>>, t: CategoryTable, m: ParserModel, a: nat, b: nat)
    requires
        a <= b,
    ensures
        reads(lines, t, m, a, b).len() == b - a,
        forall|i: int| 0 <= i < b - a ==> #[trigger] reads(lines, t, m, a, b)[i] == raw_token_at(lines, t, m, (a + i) as nat)->Some_0,
    decreases b,
{
    if b > a {
        lemma_reads_index(lines, t, m, a, (b - 1) as nat);
    }
}

/// The brace depth after `q` raw reads from `m` while scanning for a
/// delimiter; a closing brace at depth zero leaves it at zero.
pub open spec fn scan_depth(lines: Seq<Seq<char>>, t: CategoryTable, m: ParserModel, q: nat) -> nat
    decreases q,
{
    if q == 0 {
        0
    } else {
        let d = scan_depth(lines, t, m, (q - 1) as nat);
        let tok = raw_token_at(lines, t, m, (q - 1) as nat);
        if is_open(tok) {
            d + 1
        } else if is_close(tok) {
            if d > 0 {
                (d - 1) as nat
            } else {
                0
            }
        } else {
            d
        }
    }
}

/// After `q` raw reads from `m`, outside braces, the tokens read end with
/// `delim`.
pub open spec fn delimiter_found(lines: Seq<Seq<char>>, t: CategoryTable, m: ParserModel, delim: Seq<TokenModel>, q: nat) -> bool {
    &&& scan_depth(lines, t, m, q) == 0
    &&& delim.len() <= q
    &&& reads(lines, t, m, (q - delim.len()) as nat, q) == delim
}

/// The scan for `delim` from `m` stops after `n` raw reads: the first
/// point after one read or more at which the delimiter has been found.
pub open spec fn delimited_at(lines: Seq<Seq<char>>, t: CategoryTable, m: ParserModel, delim: Seq<TokenModel>, n: nat) -> bool {
    &&& n >= 1
    &&& forall|j: nat| j < n ==> (#[trigger] raw_token_at(lines, t, m, j)) is Some
    &&& delimiter_found(lines, t, m, delim, n)
    &&& forall|q: nat| 1 <= q < n ==> !#[trigger] delimiter_found(lines, t, m, delim, q)
}

/// The index after the run of literal tokens that starts at `j` in a
/// parameter text.
pub open spec fn delimiter_end(params: Seq<ElemModel>, j: int) -> int
    decreases params.len() - j,
{
    if j < 0 || j >= params.len() || params[j] is Param {
        j
    } else {
        delimiter_end(params, j + 1)
    }
}

/// The tokens of a run of literal elements.
pub open spec fn literal_tokens(elems: Seq<ElemModel>) -> Seq<TokenModel> {
    elems.map_values(|e: ElemModel| e->Tok_0)
}

/// The argument for a parameter followed by the literal tokens `delim`, read
/// from raw read `p` of `m` on, is `arg`, and reading it ends before read `q`:
/// with no delimiter it is the next token, or the contents of the brace
/// group that the next token opens; else it is all up to the first
/// occurrence of the delimiter outside braces.
pub open spec fn argument_read(
    lines: Seq<Seq<char>>,
    t: CategoryTable,
    m: ParserModel,
    p: nat,
    delim: Seq<TokenModel>,
    arg: Seq<TokenModel>,
    q: nat,
) -> bool {
    if delim.len() == 0 {
        let tok = raw_token_at(lines, t, m, p);
        &&& tok is Some
        &&& if is_open(tok) {
            exists|e: nat|
                #[trigger] group_closes_at(lines, t, raw_iter(lines, t, m, p + 1), e) && q == p + 1 + e + 1 && arg == reads(
                    lines,
                    t,
                    raw_iter(lines, t, m, p + 1),
                    0,
                    e,
                )
        } else {
            q == p + 1 && arg == seq![tok->Some_0]
        }
    } else {
        exists|n: nat|
            #[trigger] delimited_at(lines, t, raw_iter(lines, t, m, p), delim, n) && q == p + n && arg == reads(
                lines,
                t,
                raw_iter(lines, t, m, p),
                0,
                (n - delim.len()) as nat,
            )
    }
}

/// A group whose opening brace has been read is left open at raw read `k`
/// from `m`: the input has run out there, or another opening brace comes at
/// a depth that cannot be counted further.
pub open spec fn group_runs_out(lines: Seq<Seq<char>>, t: CategoryTable, m: ParserModel, k: nat) -> bool {
    &&& forall|j: nat| j < k ==> (#[trigger] raw_token_at(lines, t, m, j)) is Some
    &&& forall|q: nat| 1 <= q <= k ==> #[trigger] group_depth(lines, t, m, q) > 0
    &&& raw_token_at(lines, t, m, k) is None || (is_open(raw_token_at(lines, t, m, k)) && group_depth(lines, t, m, k) == u64::MAX)
}

/// The scan for `delim` from `m` is left unfinished at raw read `k`: the
/// input has run out there, or an opening brace comes at a depth that cannot
/// be counted further.
pub open spec fn scan_runs_out(lines: Seq<Seq<char>>, t: CategoryTable, m: ParserModel, delim: Seq<TokenModel>, k: nat) -> bool {
    &&& forall|j: nat| j < k ==> (#[trigger] raw_token_at(lines, t, m, j)) is Some
    &&& forall|q: nat| 1 <= q <= k ==> !#[trigger] delimiter_found(lines, t, m, delim, q)
    &&& raw_token_at(lines, t, m, k) is None || (is_open(raw_token_at(lines, t, m, k)) && scan_depth(lines, t, m, k) == u64::MAX)
}

/// Reading the argument for a parameter followed by `delim`, from raw read
/// `p` of `m` on, cannot be completed, and reading stops before read `n`.
pub open spec fn argument_runs_out(lines: Seq<Seq<char>>, t: CategoryTable, m: ParserModel, p: nat, delim: Seq<TokenModel>, n: nat) -> bool {
    if delim.len() == 0 {
        let tok = raw_token_at(lines, t, m, p);
        ||| tok is None && n == p + 1
        ||| is_open(tok) && exists|k: nat| #[trigger] group_runs_out(lines, t, raw_iter(lines, t, m, p + 1), k) && n == p + 1 + k + 1
    } else {
        exists|k: nat| #[trigger] scan_runs_out(lines, t, raw_iter(lines, t, m, p), delim, k) && n == p + k + 1
    }
}

/// Matching the parameter text from element `i` on against the raw reads
/// from read `p` of `m` on fails with `e`, and reading stops before read
/// `n`: `RunawayArgument` where the input runs out first,
/// `UseDoesNotMatchDefinition` where a read differs from the literal token
/// expected there.
pub open spec fn arguments_fail(
    lines: Seq<Seq<char>>,
    t: CategoryTable,
    m: ParserModel,
    params: Seq<ElemModel>,
    i: int,
    p: nat,
    e: ExpandError,
    n: nat,
) -> bool
    decreases params.len() - i,
{
    if i < 0 || i >= params.len() {
        false
    } else {
        match params[i] {
            ElemModel::Tok(x) => {
                let tok = raw_token_at(lines, t, m, p);
                if tok is None {
                    e == ExpandError::RunawayArgument && n == p + 1
                } else if tok != Some(x) {
                    e == ExpandError::UseDoesNotMatchDefinition && n == p + 1
                } else {
                    arguments_fail(lines, t, m, params, i + 1, p + 1, e, n)
                }
            },
            ElemModel::Param(_) => {
                let j = delimiter_end(params, i + 1);
                if i < j <= params.len() {
                    let delim = literal_tokens(params.subrange(i + 1, j));
                    ||| e == ExpandError::RunawayArgument && argument_runs_out(lines, t, m, p, delim, n)
                    ||| exists|q: nat, arg: Seq<TokenModel>|
                        #[trigger] argument_read(lines, t, m, p, delim, arg, q) && arguments_fail(lines, t, m, params, j, q, e, n)
                } else {
                    false
                }
            },
        }
    }
}

/// Matching the parameter text from element `i` on against the raw reads
/// from read `p` of `m` on gives the arguments `args` and ends before read
/// `n`: literal tokens must come as written, each parameter takes its
/// argument.
pub open spec fn arguments_read(
    lines: Seq<Seq<char>>,
    t: CategoryTable,
    m: ParserModel,
    params: Seq<ElemModel>,
    i: int,
    p: nat,
    args: Seq<Seq<TokenModel>>,
    n: nat,
) -> bool
    decreases params.len() - i,
{
    if i < 0 || i >= params.len() {
        args.len() == 0 && n == p
    } else {
        match params[i] {
            ElemModel::Tok(x) => raw_token_at(lines, t, m, p) == Some(x) && arguments_read(lines, t, m, params, i + 1, p + 1, args, n),
            ElemModel::Param(_) => {
                let j = delimiter_end(params, i + 1);
                if i < j <= params.len() {
                    &&& args.len() >= 1
                    &&& exists|q: nat|
                        #[trigger] argument_read(lines, t, m, p, literal_tokens(params.subrange(i + 1, j)), args[0], q)
                            && arguments_read(lines, t, m, params, j, q, args.drop_first(), n)
                } else {
                    false
                }
            },
        }
    }
}

/// Whether `arg` ends with the tokens of `delim`.
fn ends_with(arg: &Vec<Token>, delim: &Vec<Token>) -> (r: bool)
    ensures
        r == (delim@.len() <= arg@.len() && forall|i: int| 0 <= i < delim@.len() ==>
            #[trigger] delim@[i]@ == arg@[arg@.len() - delim@.len() + i]@),
{
    if delim.len() > arg.len() {
        return false;
    }
    let off = arg.len() - delim.len();
    let mut i: usize = 0;
    while i < delim.len()
        invariant
            i <= delim@.len(),
            off == arg@.len() - delim@.len(),
            delim@.len() <= arg@.len() <= usize::MAX,
            forall|k: int| 0 <= k < i ==> #[trigger] delim@[k]@ == arg@[off + k]@,
        decreases delim@.len() - i,
    {
        let j: usize = off + i;
        if !(delim[i] == arg[j]) {
            return false;
        }
        i = i + 1;
    }
    true
}

/// The value of a list of arguments.
pub open spec fn args_view(args: Seq<Vec<Token>>) -> Seq<Seq<TokenModel>> {
    args.map_values(|a: Vec<Token>| a@.map_values(|t: Token| t@))
}

/// The value of a list of tokens.
pub open spec fn tokens_view(ts: Seq<Token>) -> Seq<TokenModel> {
    ts.map_values(|t: Token| t@)
}

/// The literal tokens that follow the parameter at `i`, up to the next
/// parameter or the end, and the index after them.
fn delimiter_after(params: &Vec<MacroListElem>, i: usize) -> (r: (Vec<Token>, usize))
    requires
        i < params@.len(),
    ensures
        i < r.1 <= params@.len(),
        r.1 == delimiter_end(params@.map_values(|e: MacroListElem| e@), i + 1),
        tokens_view(r.0@) == literal_tokens(params@.map_values(|e: MacroListElem| e@).subrange(i + 1, r.1 as int)),
{
    let ghost pv = params@.map_values(|e: MacroListElem| e@);
    let len = params.len();
    let mut delim: Vec<Token> = Vec::new();
    let mut j: usize = i + 1;
    while j < len
        invariant
            i < j <= params@.len(),
            len == params@.len(),
            pv == params@.map_values(|e: MacroListElem| e@),
            delimiter_end(pv, i + 1) == delimiter_end(pv, j as int),
            tokens_view(delim@) == literal_tokens(pv.subrange(i + 1, j as int)),
        decreases params@.len() - j,
    {
        match &params[j] {
            MacroListElem::Token(t) => {
                let ghost before = tokens_view(delim@);
                delim.push(t.duplicate());
                proof {
                    assert(tokens_view(delim@) =~= before.push(t@));
                    assert(literal_tokens(pv.subrange(i + 1, j + 1)) =~= literal_tokens(pv.subrange(i + 1, j as int)).push(t@));
                }
            },
            MacroListElem::Parameter(_) => {
                return (delim, j);
            },
        }
        j = j + 1;
    }
    (delim, j)
}

/// The replacement text with the arguments put in for the parameter slots.
fn replacement(body: &Vec<MacroListElem>, args: &Vec<Vec<Token>>) -> (out: Vec<Token>)
    ensures
        tokens_view(out@) == substitute(body@.map_values(|e: MacroListElem| e@), args_view(args@)),
{
    let ghost bv = body@.map_values(|e: MacroListElem| e@);
    let ghost av = args_view(args@);
    let mut out: Vec<Token> = Vec::new();
    let mut i: usize = 0;
    while i < body.len()
        invariant
            i <= body@.len(),
            bv == body@.map_values(|e: MacroListElem| e@),
            av == args_view(args@),
            tokens_view(out@) == substitute(bv.subrange(0, i as int), av),
        decreases body@.len() - i,
    {
        let ghost before = tokens_view(out@);
        proof {
            assert(bv.subrange(0, i + 1).drop_last() =~= bv.subrange(0, i as int));
        }
        match &body[i] {
            MacroListElem::Token(t) => {
                out.push(t.duplicate());
                proof {
                    assert(tokens_view(out@) =~= before.push(t@));
                }
            },
            MacroListElem::Parameter(k) => {
                let k = *k;
                if 1 <= k && k <= args.len() {
                    let arg = &args[k - 1];
                    let mut j: usize = 0;
                    while j < arg.len()
                        invariant
                            j <= arg@.len(),
                            tokens_view(out@) == before + tokens_view(arg@.subrange(0, j as int)),
                        decreases arg@.len() - j,
                    {
                        let ghost prev = tokens_view(out@);
                        out.push(arg[j].duplicate());
                        proof {
                            assert(tokens_view(out@) =~= prev.push(arg@[j as int]@));
                            assert(tokens_view(arg@.subrange(0, j + 1)) =~= tokens_view(arg@.subrange(0, j as int)).push(arg@[j as int]@));
                            assert(tokens_view(out@) =~= before + tokens_view(arg@.subrange(0, j + 1)));
                        }
                        j = j + 1;
                    }
                    proof {
                        assert(arg@.subrange(0, arg@.len() as int) =~= arg@);
                        assert(av[k - 1] == tokens_view(arg@));
                    }
                } else {
                    proof {
                        assert(tokens_view(out@) =~= before);
                    }
                }
            },
        }
        i = i + 1;
    }
    proof {
        assert(bv.subrange(0, body@.len() as int) =~= bv);
    }
    out
}

impl<'a> Parser<'a> {
    /// Reads the next raw token of an argument; where the input has run out
    /// the argument is reported runaway.
    fn read_arg_token(&mut self) -> (r: Option<Token>)
        requires
            old(self).wf(),
            old(self).model().failure is None,
        ensures
            final(self).same_input(old(self)),
            opt_view(r) == old(self).raw_next().0,
            r is Some ==> final(self).model() == old(self).raw_next().1,
            r is None ==> final(self).model() == fail(old(self).raw_next().1, ExpandError::RunawayArgument),
    {
        let r = self.lex_unexpanded_token();
        if r.is_none() {
            self.failure = Some(ExpandError::RunawayArgument);
        }
        r
    }

    /// Reads the rest of a brace group whose opening brace has been read,
    /// appending the tokens inside it to `arg`.
    fn read_group(&mut self, arg: &mut Vec<Token>) -> (ok: bool)
        requires
            old(self).wf(),
            old(self).model().failure is None,
        ensures
            final(self).same_input(old(self)),
            read_outcome(old(self).lines(), old(self).table(), old(self).model(), final(self).model(), ok),
            ok ==> exists|e: nat|
                #[trigger] group_closes_at(old(self).lines(), old(self).table(), old(self).model(), e)
                    && final(self).model() == raw_iter(old(self).lines(), old(self).table(), old(self).model(), e + 1)
                    && tokens_view(final(arg)@) == tokens_view(old(arg)@) + reads(old(self).lines(), old(self).table(), old(self).model(), 0, e),
            !ok ==> exists|k: nat|
                #[trigger] group_runs_out(old(self).lines(), old(self).table(), old(self).model(), k)
                    && final(self).model() == fail(raw_iter(old(self).lines(), old(self).table(), old(self).model(), k + 1), ExpandError::RunawayArgument),
    {
        let ghost lines = self.lines();
        let ghost table = self.table();
        let ghost m0 = self.model();
        let ghost mut n: nat = 0;
        let mut depth: u64 = 1;
        let ghost arg0 = tokens_view(arg@);
        loop
            invariant
                depth >= 1,
                depth as int == group_depth(lines, table, m0, n),
                forall|j: nat| j < n ==> (#[trigger] raw_token_at(lines, table, m0, j)) is Some,
                forall|q: nat| 1 <= q <= n ==> #[trigger] group_depth(lines, table, m0, q) > 0,
                arg0 == tokens_view(old(arg)@),
                tokens_view(arg@) == arg0 + reads(lines, table, m0, 0, n),
                self.same_input(old(self)),
                lines == self.lines(),
                table == self.table(),
                m0 == old(self).model(),
                self.model() == raw_iter(lines, table, m0, n),
                self.model().failure is None,
            decreases
                lines.len() - self.model().cursor.line,
                (if self.model().cursor.line < lines.len() { lines[self.model().cursor.line as int].len() - self.model().cursor.pos } else { 0 }),
                self.model().pending.len(),
        {
            proof {
                lemma_lex_progress(lines, table, self.model().cursor);
            }
            let t = self.read_arg_token();
            let ghost n0 = n;
            proof {
                assert(raw_iter(lines, table, m0, n + 1) == raw_step(lines, table, raw_iter(lines, table, m0, n)).1);
                n = n + 1;
            }
            match t {
                None => {
                    proof {
                        assert(group_runs_out(lines, table, m0, n0));
                        assert(group_runs_out(old(self).lines(), old(self).table(), old(self).model(), n0));
                    }
                    return false;
                },
                Some(t) => {
                    match t {
                        Token::Char(_, Category::BeginGroup) => {
                            if depth == u64::MAX {
                                self.failure = Some(ExpandError::RunawayArgument);
                                proof {
                                    assert(group_runs_out(lines, table, m0, n0));
                                    assert(group_runs_out(old(self).lines(), old(self).table(), old(self).model(), n0));
                                }
                                return false;
                            }
                            depth = depth + 1;
                        },
                        Token::Char(_, Category::EndGroup) => {
                            depth = depth - 1;
                            if depth == 0 {
                                proof {
                                    assert(group_closes_at(lines, table, m0, n0));
                                    assert(group_closes_at(old(self).lines(), old(self).table(), old(self).model(), n0));
                                }
                                return true;
                            }
                        },
                        _ => {},
                    }
                    let ghost before = tokens_view(arg@);
                    arg.push(t);
                    proof {
                        assert(tokens_view(arg@) =~= before.push(t@));
                        assert(reads(lines, table, m0, 0, n) == reads(lines, table, m0, 0, n0).push(t@));
                    }
                },
            }
        }
    }

    /// Reads tokens up to the first occurrence of `delim` outside braces;
    /// what comes before it is appended to `arg`, the delimiter is consumed.
    fn read_delimited(&mut self, delim: &Vec<Token>, arg: &mut Vec<Token>) -> (ok: bool)
        requires
            old(self).wf(),
            old(self).model().failure is None,
        ensures
            final(self).same_input(old(self)),
            read_outcome(old(self).lines(), old(self).table(), old(self).model(), final(self).model(), ok),
            ok ==> exists|n: nat|
                #[trigger] delimited_at(old(self).lines(), old(self).table(), old(self).model(), tokens_view(delim@), n)
                    && final(self).model() == raw_iter(old(self).lines(), old(self).table(), old(self).model(), n)
                    && tokens_view(final(arg)@) == tokens_view(old(arg)@) + reads(
                    old(self).lines(),
                    old(self).table(),
                    old(self).model(),
                    0,
                    (n - delim@.len()) as nat,
                ),
            !ok ==> exists|k: nat|
                #[trigger] scan_runs_out(old(self).lines(), old(self).table(), old(self).model(), tokens_view(delim@), k)
                    && final(self).model() == fail(raw_iter(old(self).lines(), old(self).table(), old(self).model(), k + 1), ExpandError::RunawayArgument),
    {
        let ghost lines = self.lines();
        let ghost table = self.table();
        let ghost m0 = self.model();
        let ghost mut n: nat = 0;
        let mut depth: u64 = 0;
        let mut read: Vec<Token> = Vec::new();
        let ghost dv = tokens_view(delim@);
        let ghost arg0 = tokens_view(arg@);
        loop
            invariant
                depth as nat == scan_depth(lines, table, m0, n),
                forall|j: nat| j < n ==> (#[trigger] raw_token_at(lines, table, m0, j)) is Some,
                forall|q: nat| 1 <= q <= n ==> !#[trigger] delimiter_found(lines, table, m0, dv, q),
                dv == tokens_view(delim@),
                arg0 == tokens_view(old(arg)@),
                arg0 == tokens_view(arg@),
                tokens_view(read@) == reads(lines, table, m0, 0, n),
                self.same_input(old(self)),
                lines == self.lines(),
                table == self.table(),
                m0 == old(self).model(),
                self.model() == raw_iter(lines, table, m0, n),
                self.model().failure is None,
            decreases
                lines.len() - self.model().cursor.line,
                (if self.model().cursor.line < lines.len() { lines[self.model().cursor.line as int].len() - self.model().cursor.pos } else { 0 }),
                self.model().pending.len(),
        {
            proof {
                lemma_lex_progress(lines, table, self.model().cursor);
            }
            let t = self.read_arg_token();
            let ghost n0 = n;
            proof {
                assert(raw_iter(lines, table, m0, n + 1) == raw_step(lines, table, raw_iter(lines, table, m0, n)).1);
                n = n + 1;
            }
            match t {
                None => {
                    proof {
                        assert(scan_runs_out(lines, table, m0, dv, n0));
                        assert(scan_runs_out(old(self).lines(), old(self).table(), old(self).model(), tokens_view(delim@), n0));
                    }
                    return false;
                },
                Some(t) => {
                    match t {
                        Token::Char(_, Category::BeginGroup) => {
                            if depth == u64::MAX {
                                self.failure = Some(ExpandError::RunawayArgument);
                                proof {
                                    assert(scan_runs_out(lines, table, m0, dv, n0));
                                    assert(scan_runs_out(old(self).lines(), old(self).table(), old(self).model(), tokens_view(delim@), n0));
                                }
                                return false;
                            }
                            depth = depth + 1;
                        },
                        Token::Char(_, Category::EndGroup) => {
                            if depth > 0 {
                                depth = depth - 1;
                            }
                        },
                        _ => {},
                    }
                    let ghost before = tokens_view(read@);
                    let ghost tv = t@;
                    read.push(t);
                    proof {
                        assert(tokens_view(read@) =~= before.push(tv));
                        assert(reads(lines, table, m0, 0, n) == reads(lines, table, m0, 0, n0).push(tv));
                        lemma_reads_index(lines, table, m0, 0, n);
                        if delim@.len() <= n {
                            lemma_reads_index(lines, table, m0, (n - delim@.len()) as nat, n);
                        }
                    }
                    let found = depth == 0 && ends_with(&read, delim);
                    proof {
                        if found {
                            let dl = delim@.len();
                            assert forall|i: int| 0 <= i < dl implies #[trigger] reads(lines, table, m0, (n - dl) as nat, n)[i] == dv[i] by {
                                assert(reads(lines, table, m0, (n - dl) as nat, n)[i] == raw_token_at(lines, table, m0, (n - dl + i) as nat)->Some_0);
                                assert(reads(lines, table, m0, 0, n)[n - dl + i] == raw_token_at(lines, table, m0, (n - dl + i) as nat)->Some_0);
                                assert(tokens_view(read@)[read@.len() - dl + i] == read@[read@.len() - dl + i]@);
                                assert(delim@[i]@ == read@[read@.len() - dl + i]@);
                            }
                            assert(reads(lines, table, m0, (n - delim@.len()) as nat, n) =~= dv);
                        } else if depth == 0 && delim@.len() <= n {
                            if reads(lines, table, m0, (n - delim@.len()) as nat, n) == dv {
                                assert forall|i: int| 0 <= i < delim@.len() implies #[trigger] delim@[i]@ == read@[read@.len() - delim@.len() + i]@ by {
                                    assert(dv[i] == delim@[i]@);
                                    assert(reads(lines, table, m0, 0, n)[n - delim@.len() + i] == raw_token_at(lines, table, m0, (n - delim@.len() + i) as nat)->Some_0);
                                    assert(tokens_view(read@)[read@.len() - delim@.len() + i] == read@[read@.len() - delim@.len() + i]@);
                                }
                            }
                        }
                    }
                    if found {
                        let keep = read.len() - delim.len();
                        let mut i: usize = 0;
                        while i < keep
                            invariant
                                keep <= read@.len(),
                                keep == n - delim@.len(),
                                tokens_view(read@) == reads(lines, table, m0, 0, n),
                                i <= keep,
                                tokens_view(arg@) == arg0 + tokens_view(read@.subrange(0, i as int)),
                            decreases keep - i,
                        {
                            let ghost prev = tokens_view(arg@);
                            arg.push(read[i].duplicate());
                            proof {
                                assert(tokens_view(arg@) =~= prev.push(read@[i as int]@));
                                assert(tokens_view(read@.subrange(0, i + 1)) =~= tokens_view(read@.subrange(0, i as int)).push(read@[i as int]@));
                            }
                            i = i + 1;
                        }
                        proof {
                            lemma_reads_index(lines, table, m0, 0, keep as nat);
                            lemma_reads_index(lines, table, m0, 0, n);
                            assert forall|i: int| 0 <= i < keep implies #[trigger] tokens_view(read@.subrange(0, keep as int))[i] == reads(lines, table, m0, 0, keep as nat)[i] by {
                                assert(tokens_view(read@)[i] == read@[i]@);
                                assert(reads(lines, table, m0, 0, n)[i] == raw_token_at(lines, table, m0, i as nat)->Some_0);
                            }
                            assert(tokens_view(read@.subrange(0, keep as int)) =~= reads(lines, table, m0, 0, keep as nat));
                            assert(delimited_at(lines, table, m0, dv, n));
                            assert(delimited_at(old(self).lines(), old(self).table(), old(self).model(), tokens_view(delim@), n));
                        }
                        return true;
                    }
                },
            }
        }
    }

    /// Puts `toks` in front of the input, the first of them first.
    fn push_front(&mut self, toks: &Vec<Token>)
        requires
            old(self).wf(),
        ensures
            final(self).same_input(old(self)),
            final(self).model() == with_replacement(old(self).model(), tokens_view(toks@)),
    {
        let ghost p0 = self.model().pending;
        let mut j: usize = toks.len();
        while j > 0
            invariant
                j <= toks@.len(),
                self.same_input(old(self)),
                self.model() == (ParserModel { pending: p0 + tokens_view(toks@.subrange(j as int, toks@.len() as int)).reverse(), ..old(self).model() }),
                p0 == old(self).model().pending,
            decreases j,
        {
            let ghost before = self.model().pending;
            j = j - 1;
            self.pending.push(toks[j].duplicate());
            proof {
                assert(tokens_view(toks@.subrange(j as int, toks@.len() as int)).reverse()
                    =~= tokens_view(toks@.subrange(j + 1, toks@.len() as int)).reverse().push(toks@[j as int]@));
                assert(self.model().pending =~= before.push(toks@[j as int]@));
            }
        }
        proof {
            assert(toks@.subrange(0, toks@.len() as int) =~= toks@);
        }
    }

    /// Invokes the macro `m`, whose name has just been read: reads its
    /// arguments as its parameter text says and puts its replacement text,
    /// with the arguments put in, in front of the input.
    #[verifier::rlimit(40)]
    pub fn expand_macro(&mut self, m: &Macro)
        requires
            old(self).wf(),
            old(self).model().failure is None,
        ensures
            final(self).same_input(old(self)),
            exists|n: nat| #[trigger] invocation_ended(old(self).lines(), old(self).table(), old(self).model(), n, *m, final(self).model()),
            m.params().len() == 0 ==> final(self).model() == with_replacement(old(self).model(), substitute(m.body(), Seq::empty())),
    {
        let ghost lines = self.lines();
        let ghost table = self.table();
        let ghost m0 = self.model();
        let ghost pv = m.params();
        let ghost mut n: nat = 0;
        let params = m.parameter_list();
        let mut args: Vec<Vec<Token>> = Vec::new();
        let mut i: usize = 0;
        proof {
            assert forall|rest: Seq<Seq<TokenModel>>, nn: nat| #[trigger] arguments_read(lines, table, m0, pv, 0, 0, rest, nn) implies arguments_read(lines, table, m0, pv, 0, 0, args_view(args@) + rest, nn) by {
                assert(args_view(args@) + rest =~= rest);
            }
        }
        while i < params.len()
            invariant
                i <= params@.len(),
                self.same_input(old(self)),
                lines == self.lines(),
                table == self.table(),
                m0 == old(self).model(),
                pv == m.params(),
                params@.map_values(|e: MacroListElem| e@) == pv,
                self.model() == raw_iter(lines, table, m0, n),
                self.model().failure is None,
                params@.len() == 0 ==> n == 0 && args@.len() == 0,
                forall|rest: Seq<Seq<TokenModel>>, nn: nat| #[trigger] arguments_read(lines, table, m0, pv, i as int, n, rest, nn) ==> arguments_read(lines, table, m0, pv, 0, 0, args_view(args@) + rest, nn),
                forall|e: ExpandError, nn: nat| #[trigger] arguments_fail(lines, table, m0, pv, i as int, n, e, nn) ==> arguments_fail(lines, table, m0, pv, 0, 0, e, nn),
            decreases params@.len() - i,
        {
            let ghost i0 = i as int;
            let ghost n0 = n;
            let ghost av0 = args_view(args@);
            proof {
                assert(pv[i0] == params@[i0]@);
            }
            match &params[i] {
                MacroListElem::Token(t) => {
                    let u = self.read_arg_token();
                    proof {
                        assert(raw_iter(lines, table, m0, n + 1) == raw_step(lines, table, raw_iter(lines, table, m0, n)).1);
                        n = n + 1;
                    }
                    match u {
                        None => {
                            proof {
                                assert(arguments_fail(lines, table, m0, pv, i0, n0, ExpandError::RunawayArgument, n));
                                assert(invocation_ended(old(self).lines(), old(self).table(), old(self).model(), n, *m, self.model()));
                            }
                            return;
                        },
                        Some(u) => {
                            if !(u == *t) {
                                self.failure = Some(ExpandError::UseDoesNotMatchDefinition);
                                proof {
                                    assert(arguments_fail(lines, table, m0, pv, i0, n0, ExpandError::UseDoesNotMatchDefinition, n));
                                    assert(invocation_ended(old(self).lines(), old(self).table(), old(self).model(), n, *m, self.model()));
                                }
                                return;
                            }
                            proof {
                                assert forall|rest: Seq<Seq<TokenModel>>, nn: nat| #[trigger] arguments_read(lines, table, m0, pv, i0 + 1, n, rest, nn) implies arguments_read(lines, table, m0, pv, 0, 0, av0 + rest, nn) by {
                                    assert(arguments_read(lines, table, m0, pv, i0, n0, rest, nn));
                                }
                                assert forall|e: ExpandError, nn: nat| #[trigger] arguments_fail(lines, table, m0, pv, i0 + 1, n, e, nn) implies arguments_fail(lines, table, m0, pv, 0, 0, e, nn) by {
                                    assert(arguments_fail(lines, table, m0, pv, i0, n0, e, nn));
                                }
                            }
                        },
                    }
                    i = i + 1;
                },
                MacroListElem::Parameter(_) => {
                    let (delim, j) = delimiter_after(params, i);
                    let ghost dv = tokens_view(delim@);
                    let mut arg: Vec<Token> = Vec::new();
                    let ok;
                    if delim.len() == 0 {
                        let u = self.read_arg_token();
                        proof {
                            assert(raw_iter(lines, table, m0, n + 1) == raw_step(lines, table, raw_iter(lines, table, m0, n)).1);
                            n = n + 1;
                        }
                        match u {
                            None => {
                                proof {
                                    assert(argument_runs_out(lines, table, m0, n0, dv, n));
                                    assert(arguments_fail(lines, table, m0, pv, i0, n0, ExpandError::RunawayArgument, n));
                                    assert(invocation_ended(old(self).lines(), old(self).table(), old(self).model(), n, *m, self.model()));
                                }
                                return;
                            },
                            Some(u) => {
                                match u {
                                    Token::Char(_, Category::BeginGroup) => {
                                        let ghost mid = self.model();
                                        ok = self.read_group(&mut arg);
                                        proof {
                                            if ok {
                                                let e = choose|e: nat|
                                                    #[trigger] group_closes_at(lines, table, mid, e) && self.model() == raw_iter(lines, table, mid, e + 1)
                                                        && tokens_view(arg@) == Seq::<TokenModel>::empty() + reads(lines, table, mid, 0, e);
                                                lemma_raw_iter_add(lines, table, m0, n, e + 1);
                                                n = n + e + 1;
                                                assert(tokens_view(arg@) =~= reads(lines, table, mid, 0, e));
                                                assert(argument_read(lines, table, m0, n0, dv, tokens_view(arg@), n));
                                            } else {
                                                let k = choose|k: nat|
                                                    #[trigger] group_runs_out(lines, table, mid, k) && self.model() == fail(raw_iter(lines, table, mid, k + 1), ExpandError::RunawayArgument);
                                                lemma_raw_iter_add(lines, table, m0, n, k + 1);
                                                n = n + k + 1;
                                                assert(argument_runs_out(lines, table, m0, n0, dv, n));
                                            }
                                        }
                                    },
                                    _ => {
                                        let ghost uv = u@;
                                        arg.push(u);
                                        ok = true;
                                        proof {
                                            assert(tokens_view(arg@) =~= seq![uv]);
                                            assert(argument_read(lines, table, m0, n0, dv, tokens_view(arg@), n));
                                        }
                                    },
                                }
                            },
                        }
                    } else {
                        let ghost mid = self.model();
                        ok = self.read_delimited(&delim, &mut arg);
                        proof {
                            if ok {
                                let k = choose|k: nat|
                                    #[trigger] delimited_at(lines, table, mid, dv, k) && self.model() == raw_iter(lines, table, mid, k)
                                        && tokens_view(arg@) == Seq::<TokenModel>::empty() + reads(lines, table, mid, 0, (k - delim@.len()) as nat);
                                lemma_raw_iter_add(lines, table, m0, n, k);
                                n = n + k;
                                assert(tokens_view(arg@) =~= reads(lines, table, mid, 0, (k - delim@.len()) as nat));
                                assert(argument_read(lines, table, m0, n0, dv, tokens_view(arg@), n));
                            } else {
                                let k = choose|k: nat|
                                    #[trigger] scan_runs_out(lines, table, mid, dv, k) && self.model() == fail(raw_iter(lines, table, mid, k + 1), ExpandError::RunawayArgument);
                                lemma_raw_iter_add(lines, table, m0, n, k + 1);
                                n = n + k + 1;
                                assert(argument_runs_out(lines, table, m0, n0, dv, n));
                            }
                        }
                    }
                    if !ok {
                        proof {
                            assert(arguments_fail(lines, table, m0, pv, i0, n0, ExpandError::RunawayArgument, n));
                            assert(invocation_ended(old(self).lines(), old(self).table(), old(self).model(), n, *m, self.model()));
                        }
                        return;
                    }
                    let ghost argv = tokens_view(arg@);
                    args.push(arg);
                    proof {
                        assert(args_view(args@) =~= av0.push(argv));
                        assert forall|rest: Seq<Seq<TokenModel>>, nn: nat| #[trigger] arguments_read(lines, table, m0, pv, j as int, n, rest, nn) implies arguments_read(lines, table, m0, pv, 0, 0, args_view(args@) + rest, nn) by {
                            let all = seq![argv] + rest;
                            assert(all[0] == argv);
                            assert(all.drop_first() =~= rest);
                            assert(argument_read(lines, table, m0, n0, literal_tokens(pv.subrange(i0 + 1, j as int)), all[0], n));
                            assert(arguments_read(lines, table, m0, pv, i0, n0, all, nn));
                            assert(av0 + all =~= args_view(args@) + rest);
                        }
                        assert forall|e: ExpandError, nn: nat| #[trigger] arguments_fail(lines, table, m0, pv, j as int, n, e, nn) implies arguments_fail(lines, table, m0, pv, 0, 0, e, nn) by {
                            assert(argument_read(lines, table, m0, n0, literal_tokens(pv.subrange(i0 + 1, j as int)), argv, n));
                            assert(arguments_fail(lines, table, m0, pv, i0, n0, e, nn));
                        }
                    }
                    i = j;
                },
            }
        }
        let out = replacement(m.replacement_list(), &args);
        self.push_front(&out);
        proof {
            assert(arguments_read(lines, table, m0, pv, i as int, n, Seq::empty(), n));
            assert(args_view(args@) + Seq::<Seq<TokenModel>>::empty() =~= args_view(args@));
            assert(arguments_read(lines, table, m0, pv, 0, 0, args_view(args@), n));
            assert(invocation_ended(lines, table, m0, n, *m, self.model()));
            assert(invocation_ended(old(self).lines(), old(self).table(), old(self).model(), n, *m, self.model()));
            if params@.len() == 0 {
                assert(args_view(args@) =~= Seq::<Seq<TokenModel>>::empty());
            }
        }
    }

    /// The next token after expansion: macros are invoked and conditionals
    /// acted on, one expansion step per unit of budget, until a token that
    /// neither names a macro nor is a conditional comes first; that token is
    /// read and returned. `None` once the input is exhausted or a fatal
    /// condition has been met, or when the budget is spent.
    #[verifier::rlimit(40)]
    pub fn lex_expanded_token(&mut self) -> (r: Option<Token>)
        requires
            old(self).wf(),
        ensures
            final(self).same_source(old(self)),
            final(self).budget() <= old(self).budget(),
            r is Some ==> final(self).model().failure is None && is_unexpandable(final(self).env(), r->Some_0@),
            r is None ==> final(self).model().failure is Some || final(self).raw_next().0 is None,
            exists|ms: Seq<ParserModel>|
                #![trigger expansion_chain(old(self).lines(), old(self).table(), old(self).env(), ms)]
                {
                    &&& ms.len() >= 1
                    &&& ms[0] == old(self).model()
                    &&& expansion_chain(old(self).lines(), old(self).table(), old(self).env(), ms)
                    &&& ms.len() - 1 == old(self).budget() - final(self).budget()
                    &&& expansion_ended(old(self).lines(), old(self).table(), old(self).env(), ms.last(), final(self).model(), final(self).budget(), opt_view(r))
                },
    {
        let ghost lines = self.lines();
        let ghost table = self.table();
        let ghost env = self.env();
        let ghost mut ms: Seq<ParserModel> = seq![self.model()];
        let st: &'a TeXState = self.state;
        loop
            invariant
                self.same_source(old(self)),
                self.budget() <= old(self).budget(),
                *st == self.env(),
                lines == self.lines(),
                table == self.table(),
                env == self.env(),
                ms.len() >= 1,
                ms[0] == old(self).model(),
                expansion_chain(lines, table, env, ms),
                ms.last() == self.model(),
                ms.len() - 1 == old(self).budget() - self.budget(),
            decreases self.budget(),
        {
            if self.failure.is_some() {
                proof {
                    assert(expansion_chain(old(self).lines(), old(self).table(), old(self).env(), ms));
                }
                return None;
            }
            let ghost before = self.model();
            if self.is_conditional_head() {
                if self.budget == 0 {
                    let ghost peeked = self.model();
                    self.failure = Some(ExpandError::ExpansionLimit);
                    proof {
                        assert(ParserModel { failure: None, ..self.model() } == peeked);
                        assert(expansion_ended(lines, table, env, ms.last(), self.model(), self.budget(), None));
                        assert(expansion_chain(old(self).lines(), old(self).table(), old(self).env(), ms));
                    }
                    return None;
                }
                self.budget = self.budget - 1;
                let ghost peeked = self.model();
                self.expand_conditional();
                proof {
                    assert(conditional_outcome(lines, table, before, self.model()));
                    assert(expansion_step(lines, table, env, before, self.model()));
                    let ms2 = ms.push(self.model());
                    assert forall|i: int| #![trigger ms2[i]] 0 <= i < ms2.len() - 1 implies expansion_step(lines, table, env, ms2[i], ms2[i + 1]) by {
                        if i < ms.len() - 1 {
                            assert(ms2[i] == ms[i] && ms2[i + 1] == ms[i + 1]);
                        }
                    }
                    ms = ms2;
                }
                continue;
            }
            proof {
                crate::lexer::lemma_lex_progress(self.lines(), self.table(), self.model().cursor);
            }
            let t = self.lex_unexpanded_token();
            match t {
                None => {
                    proof {
                        assert(expansion_chain(old(self).lines(), old(self).table(), old(self).env(), ms));
                    }
                    return None;
                },
                Some(t) => {
                    match st.get_macro(&t) {
                        Some(m) => {
                            if self.budget == 0 {
                                let ghost m1 = self.model();
                                let ghost tv = t@;
                                self.pending.push(t);
                                proof {
                                    assert(self.model().pending =~= m1.pending.push(tv));
                                    assert(self.model().pending.drop_last() =~= m1.pending);
                                }
                                self.failure = Some(ExpandError::ExpansionLimit);
                                proof {
                                    assert(raw_step(lines, table, ParserModel { failure: None, ..self.model() }) == (Some(tv), m1));
                                    assert(expansion_ended(lines, table, env, ms.last(), self.model(), self.budget(), None));
                                    assert(expansion_chain(old(self).lines(), old(self).table(), old(self).env(), ms));
                                }
                                return None;
                            }
                            self.budget = self.budget - 1;
                            let ghost m1 = self.model();
                            self.expand_macro(&**m);
                            proof {
                                let n = choose|n: nat| #[trigger] invocation_ended(lines, table, m1, n, **m, self.model());
                                assert(invocation_ended(lines, table, m1, n, env.spec_macro(t@)->Some_0, self.model()));
                                assert(expansion_step(lines, table, env, before, self.model()));
                                let ms2 = ms.push(self.model());
                                assert forall|i: int| #![trigger ms2[i]] 0 <= i < ms2.len() - 1 implies expansion_step(lines, table, env, ms2[i], ms2[i + 1]) by {
                                    if i < ms.len() - 1 {
                                        assert(ms2[i] == ms[i] && ms2[i + 1] == ms[i + 1]);
                                    }
                                }
                                ms = ms2;
                            }
                        },
                        None => {
                            proof {
                                assert(expansion_chain(old(self).lines(), old(self).table(), old(self).env(), ms));
                            }
                            return Some(t);
                        },
                    }
                },
            }
        }
    }
}

} // verus!
