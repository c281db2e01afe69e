use vstd::prelude::*;
use std::rc::Rc;
use crate::category::{Category, CategoryTable, default_category};
use crate::makro::Macro;
use crate::token::{Token, TokenModel};

verus! {

/// The macro installed for `name` by a list of definitions, the latest of
/// which wins.
pub open spec fn macro_under(defs: Seq<(TokenModel, Macro)>, name: TokenModel) -> Option<Macro>
    decreases defs.len(),
{
    if defs.len() == 0 {
        None
    } else if defs.last().0 == name {
        Some(defs.last().1)
    } else {
        macro_under(defs.drop_last(), name)
    }
}

/// The engine's state: the category table and the macro table.
pub struct TeXState {
    categories: CategoryTable,
    macros: Vec<(Token, Rc<Macro>)>,
}

impl TeXState {
    pub closed spec fn definitions(&self) -> Seq<(TokenModel, Macro)> {
        self.macros@.map_values(|e: (Token, Rc<Macro>)| (e.0@, *e.1))
    }

    /// The macro that `name` stands for now.
    pub open spec fn spec_macro(&self, name: TokenModel) -> Option<Macro> {
        macro_under(self.definitions(), name)
    }

    pub open spec fn spec_category(&self, c: char) -> Category {
        self.table().spec_category(c)
    }

    pub closed spec fn table(&self) -> CategoryTable {
        self.categories
    }

    pub fn new() -> (r: TeXState)
        ensures
            forall|c: char| #[trigger] r.spec_category(c) == default_category(c),
            forall|t: TokenModel| #[trigger] r.spec_macro(t) is None,
    {
        let r = TeXState { categories: CategoryTable::new(), macros: Vec::new() };
        proof {
            assert(r.definitions().len() == 0);
        }
        r
    }

    pub fn table_ref(&self) -> (r: &CategoryTable)
        ensures
            *r == self.table(),
    {
        &self.categories
    }

    pub fn get_category(&self, c: char) -> (r: Category)
        ensures
            r == self.spec_category(c),
    {
        self.categories.category_of(c)
    }

    pub fn set_category(&mut self, c: char, cat: Category)
        ensures
            final(self).spec_category(c) == cat,
            forall|d: char| d != c ==> #[trigger] final(self).spec_category(d) == old(self).spec_category(d),
            forall|t: TokenModel| #[trigger] final(self).spec_macro(t) == old(self).spec_macro(t),
    {
        self.categories.set_category(c, cat);
    }

    pub fn get_macro(&self, name: &Token) -> (r: Option<&Rc<Macro>>)
        ensures
            match r {
                Some(m) => self.spec_macro(name@) == Some(**m),
                None => self.spec_macro(name@) is None,
            },
    {
        let mut i: usize = self.macros.len();
        proof {
            assert(self.definitions().subrange(0, i as int) =~= self.definitions());
        }
        while i > 0
            invariant
                i <= self.macros@.len(),
                self.spec_macro(name@) == macro_under(self.definitions().subrange(0, i as int), name@),
            decreases i,
        {
            if self.macros[i - 1].0 == *name {
                return Some(&self.macros[i - 1].1);
            }
            proof {
                assert(self.definitions().subrange(0, i as int).drop_last() =~= self.definitions().subrange(0, i - 1));
            }
            i = i - 1;
        }
        None
    }

    pub fn set_macro(&mut self, name: Token, m: Rc<Macro>)
        ensures
            final(self).spec_macro(name@) == Some(*m),
            forall|t: TokenModel| t != name@ ==> #[trigger] final(self).spec_macro(t) == old(self).spec_macro(t),
            forall|c: char| #[trigger] final(self).spec_category(c) == old(self).spec_category(c),
    {
        let ghost n = name@;
        self.macros.push((name, m));
        proof {
            assert(self.definitions().drop_last() =~= old(self).definitions());
            assert(self.definitions().last().0 == n);
        }
    }
}

} // verus!
