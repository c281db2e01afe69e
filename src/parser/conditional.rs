use vstd::prelude::*;
use crate::category::CategoryTable;
use crate::state::TeXState;
use crate::lexer::lemma_lex_progress;
use crate::parser::expand::lemma_raw_iter_add;
use crate::parser::{
    ExpandError, Parser, ParserModel, expansion_step, after_skip, close_branch, ends_skip, iffalse_cs, iftrue_cs, else_cs, fail, fi_cs, is_conditional, open_branch,
    raw_iter, raw_step, raw_token_at, skip_ends_at, lemma_conditionals_differ, conditional_outcome,
};

verus! {

proof fn lemma_raw_iter_keeps_depth(lines: Seq<Seq<char>>, t: CategoryTable, m: ParserModel, k: nat)
    ensures
        raw_iter(lines, t, m, k).depth == m.depth,
    decreases k,
{
    if k > 0 {
        lemma_raw_iter_keeps_depth(lines, t, m, (k - 1) as nat);
    }
}

/// Reads from the model after the first read are the later reads from `m`.
proof fn lemma_shift(lines: Seq<Seq<char>>, t: CategoryTable, m: ParserModel, j: nat)
    ensures
        raw_iter(lines, t, raw_iter(lines, t, m, 1), j) == raw_iter(lines, t, m, j + 1),
        raw_token_at(lines, t, raw_iter(lines, t, m, 1), j) == raw_token_at(lines, t, m, j + 1),
{
    lemma_raw_iter_add(lines, t, m, 1, j);
}

/// Changing the count of open conditionals changes nothing that raw reads
/// return, and raw reads keep the count.
proof fn lemma_raw_iter_other_depth(lines: Seq<Seq<char>>, t: CategoryTable, m: ParserModel, d: nat, j: nat)
    ensures
        raw_iter(lines, t, ParserModel { depth: d, ..m }, j) == (ParserModel { depth: d, ..raw_iter(lines, t, m, j) }),
        raw_token_at(lines, t, ParserModel { depth: d, ..m }, j) == raw_token_at(lines, t, m, j),
    decreases j,
{
    if j > 0 {
        lemma_raw_iter_other_depth(lines, t, m, d, (j - 1) as nat);
    }
}

/// A skip from `s`, whose reads are the reads `1..` of `m`, where reads
/// `1..=k` of `m` do not end it and read `k + 1` does, ends at `k`.
proof fn lemma_skip_end(lines: Seq<Seq<char>>, t: CategoryTable, m: ParserModel, s: ParserModel, k: nat, k2: nat, with_else: bool)
    requires
        forall|j: nat| #[trigger] raw_token_at(lines, t, s, j) == raw_token_at(lines, t, m, j + 1),
        forall|j: nat| 1 <= j <= k ==> (#[trigger] raw_token_at(lines, t, m, j)) is Some && !ends_skip(raw_token_at(lines, t, m, j), with_else),
        raw_token_at(lines, t, m, k + 1) is Some,
        ends_skip(raw_token_at(lines, t, m, k + 1), with_else),
        skip_ends_at(lines, t, s, k2, with_else),
    ensures
        k2 == k,
{
    assert(raw_token_at(lines, t, s, k) == raw_token_at(lines, t, m, k + 1));
    assert(raw_token_at(lines, t, s, k2) == raw_token_at(lines, t, m, k2 + 1));
    if k2 < k {
        assert(raw_token_at(lines, t, m, k2 + 1) is Some);
    }
    if k2 > k {
        assert(raw_token_at(lines, t, s, k) is Some);
    }
}

/// `\iffalse A \fi`, with no `\fi` or `\else` in `A`, is read raw and leaves
/// nothing: no token of `A` is expanded, nothing is put in front of the
/// input, and as many conditionals are open as before.
pub proof fn lemma_iffalse_fi_reads_raw(lines: Seq<Seq<char>>, table: CategoryTable, m: ParserModel, k: nat, fm: ParserModel)
    requires
        m.failure is None,
        raw_token_at(lines, table, m, 0) == Some(iffalse_cs()),
        forall|j: nat| 1 <= j <= k ==> (#[trigger] raw_token_at(lines, table, m, j)) is Some && !ends_skip(raw_token_at(lines, table, m, j), true),
        raw_token_at(lines, table, m, k + 1) == Some(fi_cs()),
        conditional_outcome(lines, table, m, fm),
    ensures
        fm == raw_iter(lines, table, m, k + 2),
        fm.depth == m.depth,
        fm.failure is None,
{
    lemma_conditionals_differ();
    let m1 = raw_iter(lines, table, m, 1);
    assert(raw_step(lines, table, m).1 == m1);
    let k2 = choose|k2: nat| #[trigger] skip_ends_at(lines, table, m1, k2, true) && fm == if raw_token_at(lines, table, m1, k2) == Some(else_cs()) {
        open_branch(after_skip(lines, table, m1, k2))
    } else {
        after_skip(lines, table, m1, k2)
    };
    assert forall|j: nat| #[trigger] raw_token_at(lines, table, m1, j) == raw_token_at(lines, table, m, j + 1) by {
        lemma_shift(lines, table, m, j);
    }
    lemma_skip_end(lines, table, m, m1, k, k2, true);
    lemma_shift(lines, table, m, k);
    lemma_shift(lines, table, m, k + 1);
    lemma_raw_iter_keeps_depth(lines, table, m, k + 2);
}

/// `\iffalse A \else B \fi`, with no `\fi` or `\else` in `A`: `A` is read
/// raw and dropped, and the branch `B` is opened, to be expanded as input.
pub proof fn lemma_iffalse_else_opens_alternative(lines: Seq<Seq<char>>, table: CategoryTable, m: ParserModel, k: nat, fm: ParserModel)
    requires
        m.failure is None,
        m.depth < u64::MAX,
        raw_token_at(lines, table, m, 0) == Some(iffalse_cs()),
        forall|j: nat| 1 <= j <= k ==> (#[trigger] raw_token_at(lines, table, m, j)) is Some && !ends_skip(raw_token_at(lines, table, m, j), true),
        raw_token_at(lines, table, m, k + 1) == Some(else_cs()),
        conditional_outcome(lines, table, m, fm),
    ensures
        fm == (ParserModel { depth: m.depth + 1, ..raw_iter(lines, table, m, k + 2) }),
        fm.failure is None,
{
    lemma_conditionals_differ();
    let m1 = raw_iter(lines, table, m, 1);
    assert(raw_step(lines, table, m).1 == m1);
    let k2 = choose|k2: nat| #[trigger] skip_ends_at(lines, table, m1, k2, true) && fm == if raw_token_at(lines, table, m1, k2) == Some(else_cs()) {
        open_branch(after_skip(lines, table, m1, k2))
    } else {
        after_skip(lines, table, m1, k2)
    };
    assert forall|j: nat| #[trigger] raw_token_at(lines, table, m1, j) == raw_token_at(lines, table, m, j + 1) by {
        lemma_shift(lines, table, m, j);
    }
    lemma_skip_end(lines, table, m, m1, k, k2, true);
    lemma_shift(lines, table, m, k);
    lemma_shift(lines, table, m, k + 1);
    lemma_raw_iter_keeps_depth(lines, table, m, k + 2);
}

/// An `\else` reached inside a live branch closes it, and the alternative up
/// to its `\fi` is read raw and dropped: none of it is expanded.
pub proof fn lemma_else_skips_alternative(lines: Seq<Seq<char>>, table: CategoryTable, m: ParserModel, k: nat, fm: ParserModel)
    requires
        m.failure is None,
        m.depth > 0,
        raw_token_at(lines, table, m, 0) == Some(else_cs()),
        forall|j: nat| 1 <= j <= k ==> (#[trigger] raw_token_at(lines, table, m, j)) is Some && !ends_skip(raw_token_at(lines, table, m, j), false),
        raw_token_at(lines, table, m, k + 1) == Some(fi_cs()),
        conditional_outcome(lines, table, m, fm),
    ensures
        fm == (ParserModel { depth: (m.depth - 1) as nat, ..raw_iter(lines, table, m, k + 2) }),
        fm.failure is None,
{
    lemma_conditionals_differ();
    let m1 = raw_iter(lines, table, m, 1);
    assert(raw_step(lines, table, m).1 == m1);
    lemma_raw_iter_keeps_depth(lines, table, m, 1);
    let c1 = close_branch(m1);
    let k2 = choose|k2: nat| #[trigger] skip_ends_at(lines, table, c1, k2, false) && fm == after_skip(lines, table, c1, k2);
    assert forall|j: nat| #[trigger] raw_token_at(lines, table, c1, j) == raw_token_at(lines, table, m, j + 1) by {
        lemma_shift(lines, table, m, j);
        lemma_raw_iter_other_depth(lines, table, m1, c1.depth, j);
        assert(c1 == (ParserModel { depth: c1.depth, ..m1 }));
    }
    lemma_skip_end(lines, table, m, c1, k, k2, false);
    lemma_shift(lines, table, m, k);
    lemma_shift(lines, table, m, k + 1);
    lemma_raw_iter_other_depth(lines, table, m1, c1.depth, k + 1);
    assert(c1 == (ParserModel { depth: c1.depth, ..m1 }));
    lemma_raw_iter_keeps_depth(lines, table, m, k + 2);
}

/// `\iftrue` opens a branch and takes nothing else from the input; a `\fi`
/// met when the branch's contents have been expanded with the count of open
/// conditionals restored closes it, bringing the count back to what it was.
pub proof fn lemma_iftrue_fi_balanced(
    lines: Seq<Seq<char>>,
    table: CategoryTable,
    m: ParserModel,
    fm1: ParserModel,
    m2: ParserModel,
    fm2: ParserModel,
)
    requires
        m.failure is None,
        m.depth < u64::MAX,
        raw_token_at(lines, table, m, 0) == Some(iftrue_cs()),
        conditional_outcome(lines, table, m, fm1),
        m2.failure is None,
        m2.depth == fm1.depth,
        raw_token_at(lines, table, m2, 0) == Some(fi_cs()),
        conditional_outcome(lines, table, m2, fm2),
    ensures
        fm1 == (ParserModel { depth: m.depth + 1, ..raw_iter(lines, table, m, 1) }),
        fm2 == (ParserModel { depth: m.depth, ..raw_iter(lines, table, m2, 1) }),
        fm2.failure is None,
{
    lemma_conditionals_differ();
    lemma_raw_iter_keeps_depth(lines, table, m, 1);
    lemma_raw_iter_keeps_depth(lines, table, m2, 1);
}

/// A `\fi` or an `\else` met where no conditional is open is fatal: the
/// expansion step that reads it records the matching condition.
pub proof fn lemma_unmatched_terminator_fails(
    lines: Seq<Seq<char>>,
    table: CategoryTable,
    env: TeXState,
    m: ParserModel,
    fm: ParserModel,
)
    requires
        m.failure is None,
        m.depth == 0,
        raw_token_at(lines, table, m, 0) == Some(fi_cs()) || raw_token_at(lines, table, m, 0) == Some(else_cs()),
        expansion_step(lines, table, env, m, fm),
    ensures
        fm == fail(
            raw_iter(lines, table, m, 1),
            if raw_token_at(lines, table, m, 0) == Some(fi_cs()) {
                ExpandError::ExtraFi
            } else {
                ExpandError::ExtraElse
            },
        ),
{
    lemma_conditionals_differ();
    lemma_raw_iter_keeps_depth(lines, table, m, 1);
}

impl<'a> Parser<'a> {
    /// Whether the next raw token is `\else`, `\fi`, `\iftrue` or `\iffalse`;
    /// the token is not consumed.
    pub fn is_conditional_head(&mut self) -> (r: bool)
        requires
            old(self).wf(),
        ensures
            final(self).same_input(old(self)),
            final(self).raw_next() == old(self).raw_next(),
            r == (old(self).raw_next().0 is Some && is_conditional(old(self).raw_next().0->Some_0)),
    {
        match self.peek_unexpanded_token() {
            Some(t) => t.is_control_sequence("else") || t.is_control_sequence("fi") || t.is_control_sequence(
                "iftrue",
            ) || t.is_control_sequence("iffalse"),
            None => false,
        }
    }

    /// Consumes raw tokens, expanding none, up to and including the first
    /// `\fi` (or `\else` when `with_else`); returns whether it was `\else`.
    /// Where the input runs out first the conditional is reported incomplete.
    fn skip_until(&mut self, with_else: bool) -> (r: bool)
        requires
            old(self).wf(),
            old(self).model().failure is None,
        ensures
            final(self).same_input(old(self)),
            exists|k: nat|
                skip_ends_at(old(self).lines(), old(self).table(), old(self).model(), k, with_else)
                    && final(self).model() == after_skip(old(self).lines(), old(self).table(), old(self).model(), k)
                    && r == (raw_token_at(old(self).lines(), old(self).table(), old(self).model(), k) == Some(else_cs())),
    {
        let ghost lines = self.lines();
        let ghost table = self.table();
        let ghost m0 = self.model();
        let ghost mut k: nat = 0;
        loop
            invariant
                self.same_input(old(self)),
                lines == self.lines(),
                table == self.table(),
                m0 == old(self).model(),
                self.model() == raw_iter(lines, table, m0, k),
                self.model().failure is None,
                forall|j: nat| j < k ==> (#[trigger] raw_token_at(lines, table, m0, j)) is Some && !crate::parser::ends_skip(raw_token_at(lines, table, m0, j), with_else),
            decreases
                lines.len() - self.model().cursor.line,
                (if self.model().cursor.line < lines.len() { lines[self.model().cursor.line as int].len() - self.model().cursor.pos } else { 0 }),
                self.model().pending.len(),
        {
            let ghost before = self.model();
            proof {
                lemma_lex_progress(lines, table, before.cursor);
            }
            let t = self.lex_unexpanded_token();
            proof {
                assert(raw_iter(lines, table, m0, k + 1) == raw_step(lines, table, raw_iter(lines, table, m0, k)).1);
            }
            match t {
                None => {
                    self.failure = Some(ExpandError::IncompleteConditional);
                    proof {
                        assert(raw_token_at(lines, table, m0, k) is None);
                        assert(skip_ends_at(lines, table, m0, k, with_else));
                        assert(self.model() == after_skip(lines, table, m0, k));
                        assert(skip_ends_at(old(self).lines(), old(self).table(), old(self).model(), k, with_else));
                        assert(self.model() == after_skip(old(self).lines(), old(self).table(), old(self).model(), k));
                    }
                    return false;
                },
                Some(t) => {
                    if t.is_control_sequence("fi") {
                        proof {
                            lemma_conditionals_differ();
                            assert(raw_token_at(lines, table, m0, k) == Some(fi_cs()));
                            assert(skip_ends_at(lines, table, m0, k, with_else));
                            assert(self.model() == after_skip(lines, table, m0, k));
                            assert(skip_ends_at(old(self).lines(), old(self).table(), old(self).model(), k, with_else));
                            assert(self.model() == after_skip(old(self).lines(), old(self).table(), old(self).model(), k));
                            assert(!(raw_token_at(old(self).lines(), old(self).table(), old(self).model(), k) == Some(else_cs())));
                        }
                        return false;
                    }
                    if with_else && t.is_control_sequence("else") {
                        proof {
                            assert(skip_ends_at(lines, table, m0, k, with_else));
                        }
                        return true;
                    }
                    proof {
                        k = k + 1;
                    }
                },
            }
        }
    }

    /// Skips tokens, expanding none, until a `\fi` or `\else` is read.
    /// Returns true if the token found is `\else`, false if it is `\fi`.
    pub fn skip_to_fi_or_else(&mut self) -> (r: bool)
        requires
            old(self).wf(),
            old(self).model().failure is None,
        ensures
            final(self).same_input(old(self)),
            exists|k: nat|
                skip_ends_at(old(self).lines(), old(self).table(), old(self).model(), k, true)
                    && final(self).model() == after_skip(old(self).lines(), old(self).table(), old(self).model(), k)
                    && r == (raw_token_at(old(self).lines(), old(self).table(), old(self).model(), k) == Some(else_cs())),
    {
        self.skip_until(true)
    }

    /// Skips tokens, expanding none, until a `\fi` is read: the rest of a
    /// conditional whose true branch has just ended at an `\else`.
    pub fn skip_from_else(&mut self)
        requires
            old(self).wf(),
            old(self).model().failure is None,
        ensures
            final(self).same_input(old(self)),
            exists|k: nat|
                skip_ends_at(old(self).lines(), old(self).table(), old(self).model(), k, false)
                    && final(self).model() == after_skip(old(self).lines(), old(self).table(), old(self).model(), k),
    {
        self.skip_until(false);
    }

    /// Enters the true branch of a conditional.
    pub fn handle_true(&mut self)
        requires
            old(self).wf(),
        ensures
            final(self).same_input(old(self)),
            final(self).model() == open_branch(old(self).model()),
    {
        if self.conditional_depth < u64::MAX {
            self.conditional_depth = self.conditional_depth + 1;
        } else {
            self.failure = Some(ExpandError::ConditionalOverflow);
        }
    }

    /// Skips the false branch of a conditional; where it ends at an `\else`,
    /// the branch after it is entered.
    pub fn handle_false(&mut self)
        requires
            old(self).wf(),
            old(self).model().failure is None,
        ensures
            final(self).same_input(old(self)),
            exists|k: nat| {
                let m = after_skip(old(self).lines(), old(self).table(), old(self).model(), k);
                &&& #[trigger] skip_ends_at(old(self).lines(), old(self).table(), old(self).model(), k, true)
                &&& final(self).model() == if raw_token_at(old(self).lines(), old(self).table(), old(self).model(), k)
                    == Some(else_cs()) {
                    open_branch(m)
                } else {
                    m
                }
            },
    {
        if self.skip_to_fi_or_else() {
            // Only a skip that stopped at an \else leaves us inside the
            // conditional; one that reached the \fi has closed it.
            self.handle_true();
        }
    }

    /// Reads a conditional primitive and acts on it.
    pub fn expand_conditional(&mut self)
        requires
            old(self).wf(),
            old(self).model().failure is None,
            old(self).raw_next().0 is Some,
            is_conditional(old(self).raw_next().0->Some_0),
        ensures
            final(self).same_input(old(self)),
            conditional_outcome(old(self).lines(), old(self).table(), old(self).model(), final(self).model()),
    {
        let t = self.lex_unexpanded_token();
        match t {
            Some(t) => {
                if t.is_control_sequence("fi") {
                    if self.conditional_depth == 0 {
                        self.failure = Some(ExpandError::ExtraFi);
                    } else {
                        self.conditional_depth = self.conditional_depth - 1;
                    }
                } else if t.is_control_sequence("else") {
                    if self.conditional_depth == 0 {
                        self.failure = Some(ExpandError::ExtraElse);
                    } else {
                        self.conditional_depth = self.conditional_depth - 1;
                        self.skip_from_else();
                    }
                } else if t.is_control_sequence("iftrue") {
                    self.handle_true();
                } else {
                    self.handle_false();
                }
            },
            None => {},
        }
    }
}

} // verus!
