//! The name-keyed fragment table. Entries are kept strictly sorted by
//! name, so a table is determined by the mapping it stands for.
use vstd::prelude::*;
use crate::order::{
    str_lt, str_is_lt, str_eq, lemma_str_lt_irrefl, lemma_str_lt_trans, lemma_str_lt_connected,
    lemma_str_lt_asymm,
};
use crate::types::{
    Fragment, FragModel, SchemaMap, entries_model, lemma_entries_model_index, frag_model,
    model_map, models_sorted,
};

verus! {

/// Some entry of the table carries this name.
pub open spec fn has_key(s: Seq<(Seq<char>, FragModel)>, k: Seq<char>) -> bool {
    exists|i: int| 0 <= i < s.len() && (#[trigger] s[i]).0 == k
}

pub proof fn lemma_model_map_dom(s: Seq<(Seq<char>, FragModel)>)
    ensures
        forall|k: Seq<char>| #[trigger] model_map(s).contains_key(k) <==> has_key(s, k),
    decreases s.len(),
{
    if s.len() == 0 {
        assert forall|k: Seq<char>| !(#[trigger] model_map(s).contains_key(k)) && !has_key(s, k) by {
        }
    } else {
        lemma_model_map_dom(s.drop_last());
        assert forall|k: Seq<char>| #[trigger] model_map(s).contains_key(k) <==> has_key(s, k) by {
            if model_map(s).contains_key(k) {
                if k == s.last().0 {
                    assert(s[s.len() - 1].0 == k);
                } else {
                    assert(model_map(s.drop_last()).contains_key(k));
                    let i = choose|i: int|
                        0 <= i < s.drop_last().len() && (#[trigger] s.drop_last()[i]).0 == k;
                    assert(s[i].0 == k);
                }
            }
            if has_key(s, k) {
                let i = choose|i: int| 0 <= i < s.len() && (#[trigger] s[i]).0 == k;
                if i == s.len() - 1 {
                    assert(model_map(s).contains_key(k));
                } else {
                    assert(s.drop_last()[i].0 == k);
                    assert(has_key(s.drop_last(), k));
                    assert(model_map(s.drop_last()).contains_key(k));
                }
            }
        }
    }
}

pub proof fn lemma_model_map_values(s: Seq<(Seq<char>, FragModel)>)
    requires
        models_sorted(s),
    ensures
        forall|i: int|
            0 <= i < s.len() ==> model_map(s).contains_key((#[trigger] s[i]).0) && model_map(s)[s[i].0]
                == s[i].1,
    decreases s.len(),
{
    if s.len() > 0 {
        assert forall|i: int, j: int|
            0 <= i < j < s.drop_last().len() implies str_lt(
            (#[trigger] s.drop_last()[i]).0,
            (#[trigger] s.drop_last()[j]).0,
        ) by {
            assert(s.drop_last()[i] == s[i]);
            assert(s.drop_last()[j] == s[j]);
        }
        lemma_model_map_values(s.drop_last());
        assert forall|i: int|
            0 <= i < s.len() implies model_map(s).contains_key((#[trigger] s[i]).0) && model_map(
            s,
        )[s[i].0] == s[i].1 by {
            if i == s.len() - 1 {
            } else {
                assert(s.drop_last()[i] == s[i]);
                lemma_str_lt_irrefl(s[i].0);
                assert(str_lt(s[i].0, s.last().0));
                assert(s[i].0 != s.last().0);
            }
        }
    }
}

/// Where an entry for the name lands in a sorted table: appended, replacing
/// the entry that carries the name, or pushed down into the prefix.
pub open spec fn model_insert(
    s: Seq<(Seq<char>, FragModel)>,
    k: Seq<char>,
    v: FragModel,
) -> Seq<(Seq<char>, FragModel)>
    decreases s.len(),
{
    if s.len() == 0 {
        seq![(k, v)]
    } else if str_lt(s.last().0, k) {
        s.push((k, v))
    } else if s.last().0 == k {
        s.update(s.len() - 1, (k, v))
    } else {
        model_insert(s.drop_last(), k, v).push(s.last())
    }
}

pub proof fn lemma_model_insert(s: Seq<(Seq<char>, FragModel)>, k: Seq<char>, v: FragModel)
    requires
        models_sorted(s),
    ensures
        models_sorted(model_insert(s, k, v)),
        model_map(model_insert(s, k, v)) == model_map(s).insert(k, v),
        forall|j: int|
            0 <= j < model_insert(s, k, v).len() ==> (#[trigger] model_insert(s, k, v)[j]).0 == k
                || has_key(s, model_insert(s, k, v)[j].0),
    decreases s.len(),
{
    let r = model_insert(s, k, v);
    if s.len() == 0 {
        reveal_with_fuel(model_map, 2);
        assert(r =~= seq![(k, v)]);
        assert(r.drop_last() =~= Seq::<(Seq<char>, FragModel)>::empty());
        assert(model_map(r.drop_last()) =~= Map::<Seq<char>, FragModel>::empty());
        assert(model_map(r) =~= model_map(s).insert(k, v));
    } else if str_lt(s.last().0, k) {
        assert forall|i: int, j: int| 0 <= i < j < r.len() implies str_lt(
            (#[trigger] r[i]).0,
            (#[trigger] r[j]).0,
        ) by {
            if j == r.len() - 1 {
                if i < s.len() - 1 {
                    lemma_str_lt_trans(s[i].0, s.last().0, k);
                }
            }
        }
        assert(r.drop_last() =~= s);
        assert(r.last() == (k, v));
        assert(model_map(r) == model_map(s).insert(k, v));
        assert forall|j: int| 0 <= j < r.len() implies (#[trigger] r[j]).0 == k || has_key(
            s,
            r[j].0,
        ) by {
            if j < s.len() {
                assert(s[j].0 == r[j].0);
            }
        }
    } else if s.last().0 == k {
        assert forall|i: int, j: int| 0 <= i < j < r.len() implies str_lt(
            (#[trigger] r[i]).0,
            (#[trigger] r[j]).0,
        ) by {
            assert(r[i].0 == s[i].0);
            assert(r[j].0 == s[j].0);
        }
        assert(r.drop_last() =~= s.drop_last());
        assert(r.last() == (k, v));
        assert(model_map(r) == model_map(s.drop_last()).insert(k, v));
        assert(model_map(s) == model_map(s.drop_last()).insert(k, s.last().1));
        assert(model_map(s.drop_last()).insert(k, v) =~= model_map(s.drop_last()).insert(
            k,
            s.last().1,
        ).insert(k, v));
        assert forall|j: int| 0 <= j < r.len() implies (#[trigger] r[j]).0 == k || has_key(
            s,
            r[j].0,
        ) by {
            if j < s.len() - 1 {
                assert(s[j].0 == r[j].0);
            }
        }
    } else {
        lemma_str_lt_connected(s.last().0, k);
        assert(str_lt(k, s.last().0));
        let p = s.drop_last();
        assert forall|i: int, j: int| 0 <= i < j < p.len() implies str_lt(
            (#[trigger] p[i]).0,
            (#[trigger] p[j]).0,
        ) by {
            assert(p[i] == s[i]);
            assert(p[j] == s[j]);
        }
        lemma_model_insert(p, k, v);
        let q = model_insert(p, k, v);
        assert(r =~= q.push(s.last()));
        assert forall|i: int, j: int| 0 <= i < j < r.len() implies str_lt(
            (#[trigger] r[i]).0,
            (#[trigger] r[j]).0,
        ) by {
            if j == r.len() - 1 {
                assert(r[i] == q[i]);
                if q[i].0 == k {
                    assert(str_lt(r[i].0, s.last().0));
                } else {
                    let ii = choose|ii: int| 0 <= ii < p.len() && (#[trigger] p[ii]).0 == q[i].0;
                    assert(p[ii] == s[ii]);
                    assert(str_lt(s[ii].0, s.last().0));
                }
            } else {
                assert(r[i] == q[i]);
                assert(r[j] == q[j]);
            }
        }
        assert(r.drop_last() =~= q);
        assert(r.last() == s.last());
        assert(model_map(r) == model_map(q).insert(s.last().0, s.last().1));
        assert(model_map(q) == model_map(p).insert(k, v));
        assert(model_map(s) == model_map(p).insert(s.last().0, s.last().1));
        lemma_str_lt_irrefl(k);
        assert(k != s.last().0);
        assert(model_map(p).insert(k, v).insert(s.last().0, s.last().1) =~= model_map(p).insert(
            s.last().0,
            s.last().1,
        ).insert(k, v));
        assert forall|j: int| 0 <= j < r.len() implies (#[trigger] r[j]).0 == k || has_key(
            s,
            r[j].0,
        ) by {
            if j < q.len() {
                assert(r[j] == q[j]);
                if q[j].0 != k {
                    let ii = choose|ii: int| 0 <= ii < p.len() && (#[trigger] p[ii]).0 == q[j].0;
                    assert(s[ii].0 == q[j].0);
                }
            } else {
                assert(r[j] == s.last());
                assert(s[s.len() - 1].0 == r[j].0);
            }
        }
    }
}

/// A sorted table is determined by the mapping it stands for.
pub proof fn lemma_sorted_unique(s1: Seq<(Seq<char>, FragModel)>, s2: Seq<(Seq<char>, FragModel)>)
    requires
        models_sorted(s1),
        models_sorted(s2),
        model_map(s1) == model_map(s2),
    ensures
        s1 == s2,
    decreases s1.len(),
{
    lemma_model_map_dom(s1);
    lemma_model_map_dom(s2);
    lemma_model_map_values(s1);
    lemma_model_map_values(s2);
    if s1.len() == 0 {
        if s2.len() > 0 {
            assert(model_map(s2).contains_key(s2[s2.len() - 1].0));
            assert(false);
        }
        assert(s1 =~= s2);
    } else {
        assert(model_map(s1).contains_key(s1[s1.len() - 1].0));
        if s2.len() == 0 {
            assert(false);
        }
        let k1 = s1.last().0;
        let k2 = s2.last().0;
        assert(s1[s1.len() - 1].0 == k1);
        assert(s2[s2.len() - 1].0 == k2);
        assert(model_map(s2).contains_key(k1));
        let i2 = choose|i: int| 0 <= i < s2.len() && (#[trigger] s2[i]).0 == k1;
        assert(model_map(s1).contains_key(k2));
        let i1 = choose|i: int| 0 <= i < s1.len() && (#[trigger] s1[i]).0 == k2;
        if i2 < s2.len() - 1 {
            assert(str_lt(k1, k2));
            if i1 < s1.len() - 1 {
                assert(str_lt(k2, k1));
                lemma_str_lt_asymm(k1, k2);
                assert(false);
            } else {
                lemma_str_lt_irrefl(k1);
                assert(false);
            }
        }
        assert(k1 == k2);
        assert(model_map(s1)[k1] == s1.last().1);
        assert(model_map(s2)[k1] == s2.last().1);
        assert(s1.last() == s2.last());
        let p1 = s1.drop_last();
        let p2 = s2.drop_last();
        assert forall|i: int, j: int| 0 <= i < j < p1.len() implies str_lt(
            (#[trigger] p1[i]).0,
            (#[trigger] p1[j]).0,
        ) by {
            assert(p1[i] == s1[i]);
            assert(p1[j] == s1[j]);
        }
        assert forall|i: int, j: int| 0 <= i < j < p2.len() implies str_lt(
            (#[trigger] p2[i]).0,
            (#[trigger] p2[j]).0,
        ) by {
            assert(p2[i] == s2[i]);
            assert(p2[j] == s2[j]);
        }
        lemma_model_map_dom(p1);
        lemma_model_map_dom(p2);
        assert(!has_key(p1, k1)) by {
            if has_key(p1, k1) {
                let i = choose|i: int| 0 <= i < p1.len() && (#[trigger] p1[i]).0 == k1;
                assert(p1[i] == s1[i]);
                assert(str_lt(s1[i].0, k1));
                lemma_str_lt_irrefl(k1);
            }
        }
        assert(!has_key(p2, k1)) by {
            if has_key(p2, k1) {
                let i = choose|i: int| 0 <= i < p2.len() && (#[trigger] p2[i]).0 == k1;
                assert(p2[i] == s2[i]);
                assert(str_lt(s2[i].0, k1));
                lemma_str_lt_irrefl(k1);
            }
        }
        assert(model_map(p1) =~= model_map(s1).remove(k1));
        assert(model_map(p2) =~= model_map(s2).remove(k1));
        lemma_sorted_unique(p1, p2);
        assert(s1.len() == s2.len());
        assert forall|i: int| 0 <= i < s1.len() implies s1[i] == s2[i] by {
            if i < s1.len() - 1 {
                assert(s1[i] == p1[i]);
                assert(s2[i] == p2[i]);
            }
        }
        assert(s1 =~= s2);
    }
}

impl SchemaMap {
    /// The table as a sequence of named ghost fragments.
    pub open spec fn models(&self) -> Seq<(Seq<char>, FragModel)> {
        entries_model(self.entries@)
    }

    /// The mapping the table stands for.
    pub open spec fn map_view(&self) -> Map<Seq<char>, FragModel> {
        model_map(self.models())
    }

    /// Entries strictly sorted by name.
    pub open spec fn wf(&self) -> bool {
        models_sorted(self.models())
    }

    pub fn new() -> (r: SchemaMap)
        ensures
            r.wf(),
            r.models() == Seq::<(Seq<char>, FragModel)>::empty(),
            r.map_view() == Map::<Seq<char>, FragModel>::empty(),
    {
        let r = SchemaMap { entries: Vec::new() };
        proof {
            assert(r.models() =~= Seq::<(Seq<char>, FragModel)>::empty());
            assert(r.map_view() =~= Map::<Seq<char>, FragModel>::empty());
        }
        r
    }

    pub fn contains(&self, name: &str) -> (r: bool)
        ensures
            r == self.map_view().contains_key(name@),
    {
        proof {
            lemma_model_map_dom(self.models());
            lemma_entries_model_index(self.entries@);
        }
        let n = self.entries.len();
        let mut i: usize = 0;
        while i < n
            invariant
                n == self.entries.len(),
                0 <= i <= n,
                self.models().len() == n,
                forall|j: int| 0 <= j < i ==> (#[trigger] self.models()[j]).0 != name@,
                forall|j: int|
                    0 <= j < n ==> #[trigger] self.models()[j] == (
                    self.entries@[j].0@,
                    frag_model(self.entries@[j].1),
                ),
                forall|k: Seq<char>| #[trigger] self.map_view().contains_key(k) <==> has_key(
                    self.models(),
                    k,
                ),
            decreases n - i,
        {
            if str_eq(self.entries[i].0.as_str(), name) {
                proof {
                    assert(self.models()[i as int].0 == name@);
                }
                return true;
            }
            i += 1;
        }
        proof {
            if has_key(self.models(), name@) {
                let j = choose|j: int|
                    0 <= j < self.models().len() && (#[trigger] self.models()[j]).0 == name@;
                assert(false);
            }
        }
        false
    }

    /// Looks a name up; the fragment returned is the one the mapping holds.
    pub fn get(&self, name: &str) -> (r: Option<&Fragment>)
        requires
            self.wf(),
        ensures
            match r {
                Some(f) => self.map_view().contains_key(name@) && frag_model(*f)
                    == self.map_view()[name@],
                None => !self.map_view().contains_key(name@),
            },
    {
        proof {
            lemma_model_map_dom(self.models());
            lemma_model_map_values(self.models());
            lemma_entries_model_index(self.entries@);
        }
        let n = self.entries.len();
        let mut i: usize = 0;
        while i < n
            invariant
                n == self.entries.len(),
                0 <= i <= n,
                self.wf(),
                self.models().len() == n,
                forall|j: int| 0 <= j < i ==> (#[trigger] self.models()[j]).0 != name@,
                forall|j: int|
                    0 <= j < n ==> #[trigger] self.models()[j] == (
                    self.entries@[j].0@,
                    frag_model(self.entries@[j].1),
                ),
                forall|k: Seq<char>| #[trigger] self.map_view().contains_key(k) <==> has_key(
                    self.models(),
                    k,
                ),
                forall|j: int|
                    0 <= j < n ==> self.map_view().contains_key(
                        (#[trigger] self.models()[j]).0,
                    ) && self.map_view()[self.models()[j].0] == self.models()[j].1,
            decreases n - i,
        {
            if str_eq(self.entries[i].0.as_str(), name) {
                proof {
                    assert(self.models()[i as int].0 == name@);
                }
                return Some(&self.entries[i].1);
            }
            i += 1;
        }
        proof {
            if has_key(self.models(), name@) {
                let j = choose|j: int|
                    0 <= j < self.models().len() && (#[trigger] self.models()[j]).0 == name@;
                assert(false);
            }
        }
        None
    }

    /// Puts an entry in at its sorted position; an entry already carrying
    /// the name is replaced.
    pub fn insert(&mut self, name: String, frag: Fragment)
        ensures
            final(self).models() == model_insert(old(self).models(), name@, frag_model(frag)),
            old(self).wf() ==> final(self).wf() && final(self).map_view() == old(
                self,
            ).map_view().insert(name@, frag_model(frag)),
        decreases old(self).entries@.len(),
    {
        let ghost oldm = self.models();
        let ghost fm = frag_model(frag);
        let n = self.entries.len();
        proof {
            lemma_entries_model_index(self.entries@);
        }
        if n == 0 {
            self.entries.push((name, frag));
            proof {
                assert(self.entries@.drop_last() =~= old(self).entries@);
                assert(self.models() =~= model_insert(oldm, name@, fm));
            }
        } else {
            proof {
                assert(oldm.last() == (self.entries@.last().0@, frag_model(self.entries@.last().1)));
            }
            let last_lt = str_is_lt(self.entries[n - 1].0.as_str(), name.as_str());
            if last_lt {
                self.entries.push((name, frag));
                proof {
                    assert(self.entries@.drop_last() =~= old(self).entries@);
                    assert(self.models() =~= oldm.push((name@, fm)));
                }
            } else if str_eq(self.entries[n - 1].0.as_str(), name.as_str()) {
                self.entries.pop();
                self.entries.push((name, frag));
                proof {
                    assert(self.entries@.drop_last() =~= old(self).entries@.drop_last());
                    assert(entries_model(self.entries@.drop_last()) == entries_model(
                        old(self).entries@.drop_last(),
                    ));
                    assert(oldm.drop_last() =~= entries_model(old(self).entries@.drop_last()));
                    assert(self.models() =~= oldm.update(oldm.len() - 1, (name@, fm)));
                }
            } else {
                let last = self.entries.pop().unwrap();
                proof {
                    assert(self.entries@ =~= old(self).entries@.drop_last());
                    assert(oldm.drop_last() =~= entries_model(old(self).entries@.drop_last()));
                }
                let ghost prefix = self.models();
                self.insert(name, frag);
                proof {
                    assert(self.models() == model_insert(prefix, name@, fm));
                }
                let ghost mid = self.entries@;
                self.entries.push(last);
                proof {
                    assert(self.entries@.drop_last() =~= mid);
                    assert(self.models() == entries_model(mid).push(
                        (self.entries@.last().0@, frag_model(self.entries@.last().1)),
                    ));
                    assert(self.entries@.last() == old(self).entries@.last());
                    assert(self.models() == model_insert(prefix, name@, fm).push(oldm.last()));
                }
            }
        }
        proof {
            if old(self).wf() {
                lemma_model_insert(oldm, name@, fm);
            }
        }
    }
}

} // verus!
