use vstd::prelude::*;

verus! {

/// The lexical class of a character.
#[derive(Clone, Copy, Debug, PartialEq, Eq, Structural)]
pub enum Category {
    Escape,
    BeginGroup,
    EndGroup,
    MathShift,
    AlignmentTab,
    EndOfLine,
    MacroParameter,
    Superscript,
    Subscript,
    Ignored,
    Space,
    Letter,
    Other,
    Active,
    Comment,
    Invalid,
}

/// The category a character has when no assignment has been made for it.
pub open spec fn default_category(c: char) -> Category {
    if ('a' <= c && c <= 'z') || ('A' <= c && c <= 'Z') {
        Category::Letter
    } else if c == '\\' {
        Category::Escape
    } else if c == '{' {
        Category::BeginGroup
    } else if c == '}' {
        Category::EndGroup
    } else if c == '$' {
        Category::MathShift
    } else if c == '&' {
        Category::AlignmentTab
    } else if c == '\r' {
        Category::EndOfLine
    } else if c == '#' {
        Category::MacroParameter
    } else if c == '^' {
        Category::Superscript
    } else if c == '_' {
        Category::Subscript
    } else if c == '\0' {
        Category::Ignored
    } else if c == ' ' {
        Category::Space
    } else if c == '%' {
        Category::Comment
    } else if c == '\x7f' {
        Category::Invalid
    } else {
        Category::Other
    }
}

/// The category of `c` under a list of assignments, the latest of which wins.
pub open spec fn category_under(assigned: Seq<(char, Category)>, c: char) -> Category
    decreases assigned.len(),
{
    if assigned.len() == 0 {
        default_category(c)
    } else if assigned.last().0 == c {
        assigned.last().1
    } else {
        category_under(assigned.drop_last(), c)
    }
}

pub fn default_category_of(c: char) -> (r: Category)
    ensures
        r == default_category(c),
{
    if ('a' <= c && c <= 'z') || ('A' <= c && c <= 'Z') {
        Category::Letter
    } else if c == '\\' {
        Category::Escape
    } else if c == '{' {
        Category::BeginGroup
    } else if c == '}' {
        Category::EndGroup
    } else if c == '$' {
        Category::MathShift
    } else if c == '&' {
        Category::AlignmentTab
    } else if c == '\r' {
        Category::EndOfLine
    } else if c == '#' {
        Category::MacroParameter
    } else if c == '^' {
        Category::Superscript
    } else if c == '_' {
        Category::Subscript
    } else if c == '\0' {
        Category::Ignored
    } else if c == ' ' {
        Category::Space
    } else if c == '%' {
        Category::Comment
    } else if c == '\x7f' {
        Category::Invalid
    } else {
        Category::Other
    }
}

/// The mapping from characters to categories, changed by assignments.
pub struct CategoryTable {
    assigned: Vec<(char, Category)>,
}

impl CategoryTable {
    pub closed spec fn assignments(&self) -> Seq<(char, Category)> {
        self.assigned@
    }

    /// The category that `c` has now.
    pub open spec fn spec_category(&self, c: char) -> Category {
        category_under(self.assignments(), c)
    }

    pub fn new() -> (r: CategoryTable)
        ensures
            forall|c: char| #[trigger] r.spec_category(c) == default_category(c),
    {
        CategoryTable { assigned: Vec::new() }
    }

    /// A table with the same assignments.
    pub fn duplicate(&self) -> (r: CategoryTable)
        ensures
            r.assignments() == self.assignments(),
    {
        let mut assigned: Vec<(char, Category)> = Vec::new();
        let mut i: usize = 0;
        while i < self.assigned.len()
            invariant
                i <= self.assigned@.len(),
                assigned@ == self.assigned@.subrange(0, i as int),
            decreases self.assigned@.len() - i,
        {
            assigned.push(self.assigned[i]);
            proof {
                assert(assigned@ =~= self.assigned@.subrange(0, i + 1));
            }
            i = i + 1;
        }
        proof {
            assert(assigned@ =~= self.assigned@);
        }
        CategoryTable { assigned }
    }

    pub fn category_of(&self, c: char) -> (r: Category)
        ensures
            r == self.spec_category(c),
    {
        let mut i: usize = self.assigned.len();
        proof {
            assert(self.assigned@.subrange(0, i as int) =~= self.assigned@);
        }
        while i > 0
            invariant
                i <= self.assigned@.len(),
                category_under(self.assigned@, c) == category_under(self.assigned@.subrange(0, i as int), c),
            decreases i,
        {
            let (d, cat) = self.assigned[i - 1];
            if d == c {
                return cat;
            }
            proof {
                assert(self.assigned@.subrange(0, i as int).drop_last() =~= self.assigned@.subrange(0, i - 1));
            }
            i = i - 1;
        }
        default_category_of(c)
    }

    pub fn set_category(&mut self, c: char, cat: Category)
        ensures
            final(self).spec_category(c) == cat,
            forall|d: char| d != c ==> #[trigger] final(self).spec_category(d) == old(self).spec_category(d),
    {
        self.assigned.push((c, cat));
        proof {
            assert(self.assigned@.drop_last() =~= old(self).assigned@);
        }
    }
}

} // verus!
