//! The declaration index: the mapping from a type-alias name to the type
//! expression on its right-hand side. A later record for a name wins.
use vstd::prelude::*;
use crate::order::str_eq;
use crate::types::TypeExpr;

verus! {

pub open spec fn decls_map(s: Seq<(String, TypeExpr)>) -> Map<Seq<char>, TypeExpr>
    decreases s.len(),
{
    if s.len() == 0 {
        Map::empty()
    } else {
        decls_map(s.drop_last()).insert(s.last().0@, s.last().1)
    }
}

pub proof fn lemma_decls_map_finite(s: Seq<(String, TypeExpr)>)
    ensures
        decls_map(s).dom().finite(),
    decreases s.len(),
{
    if s.len() > 0 {
        lemma_decls_map_finite(s.drop_last());
    }
}

pub struct DeclIndex {
    pub entries: Vec<(String, TypeExpr)>,
}

impl View for DeclIndex {
    type V = Map<Seq<char>, TypeExpr>;

    open spec fn view(&self) -> Map<Seq<char>, TypeExpr> {
        decls_map(self.entries@)
    }
}

impl DeclIndex {
    pub fn new() -> (r: DeclIndex)
        ensures
            r@ == Map::<Seq<char>, TypeExpr>::empty(),
    {
        let r = DeclIndex { entries: Vec::new() };
        proof {
            assert(r@ =~= Map::<Seq<char>, TypeExpr>::empty());
        }
        r
    }

    /// Records one declaration.
    pub fn insert(&mut self, name: String, expr: TypeExpr)
        ensures
            final(self)@ == old(self)@.insert(name@, expr),
    {
        self.entries.push((name, expr));
        proof {
            assert(self.entries@.drop_last() =~= old(self).entries@);
        }
    }

    /// Looks a name up, returning the expression of the last record for it.
    pub fn get(&self, name: &str) -> (r: Option<&TypeExpr>)
        ensures
            match r {
                Some(e) => self@.contains_key(name@) && *e == self@[name@],
                None => !self@.contains_key(name@),
            },
    {
        let n = self.entries.len();
        let mut i: usize = n;
        proof {
            assert(self.entries@.take(n as int) =~= self.entries@);
        }
        while i > 0
            invariant
                0 <= i <= n,
                n == self.entries.len(),
                self@.contains_key(name@) == decls_map(
                    self.entries@.take(i as int),
                ).contains_key(name@),
                self@.contains_key(name@) ==> self@[name@] == decls_map(
                    self.entries@.take(i as int),
                )[name@],
            decreases i,
        {
            i -= 1;
            proof {
                assert(self.entries@.take(i + 1).drop_last() =~= self.entries@.take(i as int));
                assert(self.entries@.take(i + 1).last() == self.entries@[i as int]);
            }
            if str_eq(self.entries[i].0.as_str(), name) {
                proof {
                    assert(decls_map(self.entries@.take(i + 1)).contains_key(name@));
                    assert(decls_map(self.entries@.take(i + 1))[name@] == self.entries@[i as int].1);
                }
                return Some(&self.entries[i].1);
            }
        }
        proof {
            assert(self.entries@.take(0) =~= Seq::<(String, TypeExpr)>::empty());
        }
        None
    }
}

} // verus!
