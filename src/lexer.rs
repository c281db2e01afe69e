use vstd::prelude::*;
use crate::category::{Category, CategoryTable};
use crate::token::{Token, TokenModel, opt_view};

verus! {

/// The character that ends every input line.
pub const END_LINE_CHAR: char = '\r';

/// Where the lexer stands within a line.
#[derive(Clone, Copy, Debug, PartialEq, Eq, Structural)]
pub enum LineState {
    NewLine,
    MidLine,
    SkipBlanks,
}

/// A position of the lexer: a line, a character within it, and the line state.
pub struct Cursor {
    pub line: nat,
    pub pos: nat,
    pub state: LineState,
}

/// A line as the lexer reads it: its text followed by the end-of-line character.
pub open spec fn effective_line(text: Seq<char>) -> Seq<char> {
    text.push(END_LINE_CHAR)
}

/// The end of the run of letters in `l` that starts at `i`.
pub open spec fn letters_end(l: Seq<char>, t: CategoryTable, i: nat) -> nat
    decreases l.len() - i,
{
    if i < l.len() && t.spec_category(l[i as int]) == Category::Letter {
        letters_end(l, t, i + 1)
    } else {
        i
    }
}

pub open spec fn space_token() -> TokenModel {
    TokenModel::Ch(' ', Category::Space)
}

pub open spec fn next_line(c: Cursor) -> Cursor {
    Cursor { line: c.line + 1, pos: 0, state: LineState::NewLine }
}

pub open spec fn advance(c: Cursor, n: nat, s: LineState) -> Cursor {
    Cursor { line: c.line, pos: c.pos + n, state: s }
}

/// The next token of `lines` from cursor `c`, read under the categories of
/// `t`, and the cursor after it; `None` once every line has been read.
pub open spec fn lex_next(lines: Seq<Seq<char>>, t: CategoryTable, c: Cursor) -> (Option<TokenModel>, Cursor)
    decreases lines.len() - c.line, (if c.line < lines.len() { lines[c.line as int].len() - c.pos } else { 0 }),
{
    if c.line >= lines.len() {
        (None, c)
    } else if c.pos >= lines[c.line as int].len() {
        lex_next(lines, t, next_line(c))
    } else {
        let l = lines[c.line as int];
        let ch = l[c.pos as int];
        let cat = t.spec_category(ch);
        if cat == Category::Escape {
            let e = letters_end(l, t, c.pos + 1);
            if e > c.pos + 1 {
                (
                    Some(TokenModel::Cs(l.subrange((c.pos + 1) as int, e as int))),
                    Cursor { line: c.line, pos: e, state: LineState::SkipBlanks },
                )
            } else if c.pos + 1 < l.len() {
                (Some(TokenModel::Cs(seq![l[(c.pos + 1) as int]])), advance(c, 2, LineState::MidLine))
            } else {
                (Some(TokenModel::Cs(Seq::empty())), advance(c, 1, LineState::MidLine))
            }
        } else if cat == Category::Comment {
            lex_next(lines, t, next_line(c))
        } else if cat == Category::EndOfLine {
            if c.state == LineState::MidLine {
                (Some(space_token()), next_line(c))
            } else {
                lex_next(lines, t, next_line(c))
            }
        } else if cat == Category::Space {
            if c.state == LineState::MidLine {
                (Some(space_token()), advance(c, 1, LineState::SkipBlanks))
            } else {
                lex_next(lines, t, advance(c, 1, c.state))
            }
        } else if cat == Category::Ignored || cat == Category::Invalid {
            lex_next(lines, t, advance(c, 1, c.state))
        } else {
            (Some(TokenModel::Ch(ch, cat)), advance(c, 1, LineState::MidLine))
        }
    }
}

proof fn lemma_letters_end(l: Seq<char>, t: CategoryTable, i: nat)
    requires
        i <= l.len(),
    ensures
        i <= letters_end(l, t, i) <= l.len(),
    decreases l.len() - i,
{
    if i < l.len() && t.spec_category(l[i as int]) == Category::Letter {
        lemma_letters_end(l, t, i + 1);
    }
}

/// Whether a cursor lies within the lines.
pub open spec fn cursor_in(lines: Seq<Seq<char>>, c: Cursor) -> bool {
    &&& c.line <= lines.len()
    &&& c.line < lines.len() ==> c.pos <= lines[c.line as int].len()
}

/// Each token read moves the cursor forward; when none is left the cursor
/// stands after the last line.
pub proof fn lemma_lex_progress(lines: Seq<Seq<char>>, t: CategoryTable, c: Cursor)
    requires
        cursor_in(lines, c),
    ensures
        cursor_in(lines, lex_next(lines, t, c).1),
        lex_next(lines, t, c).0 is None ==> lex_next(lines, t, c).1.line == lines.len(),
        lex_next(lines, t, c).0 is Some ==> lex_next(lines, t, c).1.line > c.line || (
        lex_next(lines, t, c).1.line == c.line && lex_next(lines, t, c).1.pos > c.pos),
    decreases lines.len() - c.line, (if c.line < lines.len() { lines[c.line as int].len() - c.pos } else { 0 }),
{
    if c.line >= lines.len() {
    } else if c.pos >= lines[c.line as int].len() {
        lemma_lex_progress(lines, t, next_line(c));
    } else {
        let l = lines[c.line as int];
        let cat = t.spec_category(l[c.pos as int]);
        if cat == Category::Escape {
            lemma_letters_end(l, t, c.pos + 1);
        } else if cat == Category::Comment {
            lemma_lex_progress(lines, t, next_line(c));
        } else if cat == Category::EndOfLine {
            if c.state != LineState::MidLine {
                lemma_lex_progress(lines, t, next_line(c));
            }
        } else if cat == Category::Space {
            if c.state != LineState::MidLine {
                lemma_lex_progress(lines, t, advance(c, 1, c.state));
            }
        } else if cat == Category::Ignored || cat == Category::Invalid {
            lemma_lex_progress(lines, t, advance(c, 1, c.state));
        }
    }
}

/// Whether characters of a category are read as tokens of their own.
pub open spec fn is_plain(cat: Category) -> bool {
    !(cat == Category::Escape || cat == Category::Comment || cat == Category::EndOfLine || cat == Category::Space
        || cat == Category::Ignored || cat == Category::Invalid)
}

/// A character of a plain category is read as one token that carries the
/// category the table gives it when it is read: with another category
/// assigned beforehand, the token carries that one.
pub proof fn lemma_token_takes_current_category(lines: Seq<Seq<char>>, t: CategoryTable, c: Cursor)
    requires
        c.line < lines.len(),
        c.pos < lines[c.line as int].len(),
        is_plain(t.spec_category(lines[c.line as int][c.pos as int])),
    ensures
        lex_next(lines, t, c) == ({
            let ch = lines[c.line as int][c.pos as int];
            (Some(TokenModel::Ch(ch, t.spec_category(ch))), advance(c, 1, LineState::MidLine))
        }),
{
}

/// Relies on String::push: the character is appended to the string.
#[verifier::external_body]
fn push_char(s: &mut String, c: char)
    ensures
        final(s)@ == old(s)@.push(c),
{
    s.push(c);
}

/// The characters of `text` followed by the end-of-line character.
fn line_chars(text: &str) -> (r: Vec<char>)
    ensures
        r@ == effective_line(text@),
{
    let n = text.unicode_len();
    let mut r: Vec<char> = Vec::new();
    let mut i: usize = 0;
    while i < n
        invariant
            n == text@.len(),
            i <= n,
            r@ == text@.subrange(0, i as int),
        decreases n - i,
    {
        r.push(text.get_char(i));
        i = i + 1;
    }
    r.push(END_LINE_CHAR);
    proof {
        assert(text@.subrange(0, n as int) =~= text@);
    }
    r
}

/// A scanner over input lines that turns characters into tokens.
pub struct Lexer {
    lines: Vec<Vec<char>>,
    line: usize,
    pos: usize,
    state: LineState,
}

impl Lexer {
    /// The lines as the lexer reads them.
    pub closed spec fn lines(&self) -> Seq<Seq<char>> {
        self.lines@.map_values(|l: Vec<char>| l@)
    }

    pub closed spec fn cursor(&self) -> Cursor {
        Cursor { line: self.line as nat, pos: self.pos as nat, state: self.state }
    }

    pub open spec fn wf(&self) -> bool {
        cursor_in(self.lines(), self.cursor())
    }

    pub fn new(text: &[&str]) -> (r: Lexer)
        ensures
            r.wf(),
            r.lines().len() == text@.len(),
            forall|i: int| 0 <= i < text@.len() ==> #[trigger] r.lines()[i] == effective_line(text@[i]@),
            r.cursor() == (Cursor { line: 0, pos: 0, state: LineState::NewLine }),
    {
        let mut lines: Vec<Vec<char>> = Vec::new();
        let mut i: usize = 0;
        while i < text.len()
            invariant
                i <= text@.len(),
                lines@.len() == i,
                forall|j: int| 0 <= j < i ==> #[trigger] lines@[j]@ == effective_line(text@[j]@),
            decreases text@.len() - i,
        {
            lines.push(line_chars(text[i]));
            i = i + 1;
        }
        Lexer { lines, line: 0, pos: 0, state: LineState::NewLine }
    }

    /// Reads the next token under the categories of `table`.
    pub fn next_token(&mut self, table: &CategoryTable) -> (r: Option<Token>)
        requires
            old(self).wf(),
        ensures
            final(self).wf(),
            final(self).lines() == old(self).lines(),
            (opt_view(r), final(self).cursor()) == lex_next(old(self).lines(), *table, old(self).cursor()),
    {
        let ghost lines = self.lines();
        let ghost goal = lex_next(lines, *table, self.cursor());
        while self.line < self.lines.len()
            invariant
                self.wf(),
                self.lines() == lines,
                lex_next(lines, *table, self.cursor()) == goal,
                lines == old(self).lines(),
                goal == lex_next(old(self).lines(), *table, old(self).cursor()),
            decreases
                self.lines@.len() - self.line,
                (if self.line < self.lines@.len() { self.lines@[self.line as int]@.len() - self.pos } else { 0 }),
        {
            let len = self.lines[self.line].len();
            if self.pos >= len {
                self.line = self.line + 1;
                self.pos = 0;
                self.state = LineState::NewLine;
                continue;
            }
            let ch = self.lines[self.line][self.pos];
            let cat = table.category_of(ch);
            proof {
                assert(lines[self.line as int] == self.lines@[self.line as int]@);
            }
            match cat {
                Category::Escape => {
                    let ghost cur = self.cursor();
                    let start = self.pos + 1;
                    let mut e: usize = start;
                    while e < len && table.category_of(self.lines[self.line][e]) == Category::Letter
                        invariant
                            self.wf(),
                            self.lines() == lines,
                            self.line < self.lines@.len(),
                            len == self.lines@[self.line as int]@.len(),
                            start <= e <= len,
                            self.cursor() == cur,
                            start == cur.pos + 1,
                            lines == old(self).lines(),
                            goal == lex_next(old(self).lines(), *table, old(self).cursor()),
                            lex_next(lines, *table, cur) == goal,
                            table.spec_category(lines[self.line as int][cur.pos as int]) == Category::Escape,
                            letters_end(lines[self.line as int], *table, start as nat)
                                == letters_end(lines[self.line as int], *table, e as nat),
                            forall|k: int| start <= k < e ==> #[trigger] lines[self.line as int][k] == self.lines@[self.line as int]@[k],
                        decreases len - e,
                    {
                        e = e + 1;
                    }
                    let mut name = String::new();
                    if e > start {
                        let mut k: usize = start;
                        while k < e
                            invariant
                                self.line < self.lines@.len(),
                                self.lines() == lines,
                                start <= k <= e <= self.lines@[self.line as int]@.len(),
                                self.cursor() == cur,
                                start == cur.pos + 1,
                                self.wf(),
                                lines == old(self).lines(),
                                goal == lex_next(old(self).lines(), *table, old(self).cursor()),
                                lex_next(lines, *table, cur) == goal,
                                table.spec_category(lines[self.line as int][cur.pos as int]) == Category::Escape,
                                letters_end(lines[self.line as int], *table, start as nat) == e as nat,
                                name@ == lines[self.line as int].subrange(start as int, k as int),
                            decreases e - k,
                        {
                            push_char(&mut name, self.lines[self.line][k]);
                            proof {
                                assert(lines[self.line as int].subrange(start as int, k + 1)
                                    =~= lines[self.line as int].subrange(start as int, k as int).push(lines[self.line as int][k as int]));
                            }
                            k = k + 1;
                        }
                        proof {
                            assert(!(e < len && table.spec_category(lines[self.line as int][e as int]) == Category::Letter));
                        }
                        self.pos = e;
                        self.state = LineState::SkipBlanks;
                    } else if start < len {
                        push_char(&mut name, self.lines[self.line][start]);
                        proof {
                            assert(name@ =~= seq![lines[self.line as int][start as int]]);
                        }
                        self.pos = start + 1;
                        self.state = LineState::MidLine;
                    } else {
                        self.pos = start;
                        self.state = LineState::MidLine;
                    }
                    return Some(Token::ControlSequence(name));
                },
                Category::Comment => {
                    self.line = self.line + 1;
                    self.pos = 0;
                    self.state = LineState::NewLine;
                },
                Category::EndOfLine => {
                    let mid = self.state == LineState::MidLine;
                    self.line = self.line + 1;
                    self.pos = 0;
                    self.state = LineState::NewLine;
                    if mid {
                        return Some(Token::Char(' ', Category::Space));
                    }
                },
                Category::Space => {
                    self.pos = self.pos + 1;
                    if self.state == LineState::MidLine {
                        self.state = LineState::SkipBlanks;
                        return Some(Token::Char(' ', Category::Space));
                    }
                },
                Category::Ignored | Category::Invalid => {
                    self.pos = self.pos + 1;
                },
                _ => {
                    self.pos = self.pos + 1;
                    self.state = LineState::MidLine;
                    return Some(Token::Char(ch, cat));
                },
            }
        }
        None
    }
}

} // verus!
