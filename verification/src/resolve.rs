//! The schema resolver: a worklist seeded with the root name discovers and
//! resolves every transitively referenced type name into one flat table.
//! A name already resolved is not translated again, so reference cycles
//! terminate.
use vstd::prelude::*;
use vstd::set_lib::lemma_len_subset;
use crate::order::str_eq;
use crate::types::{
    Prim, prim_name, is_prim_name, prim_of_name, TypeExpr, Fragment, FragModel, ResolveError,
    ErrModel, frag_model, err_model, names_model, SchemaMap, SchemaDocument,
};
use crate::index::{DeclIndex, lemma_decls_map_finite};
use crate::translate::{translate, spec_translate};

verus! {

pub open spec fn prim_names() -> Set<Seq<char>> {
    set!["string"@, "number"@, "boolean"@]
}

/// Every name a run can ever resolve: the primitives and the declared names.
pub open spec fn all_names(index: Map<Seq<char>, TypeExpr>) -> Set<Seq<char>> {
    prim_names().union(index.dom())
}

pub proof fn lemma_prim_names_distinct()
    ensures
        "string"@ != "number"@,
        "string"@ != "boolean"@,
        "number"@ != "boolean"@,
{
    reveal_strlit("string");
    reveal_strlit("number");
    reveal_strlit("boolean");
    assert("string"@[0] == 's');
    assert("number"@[0] == 'n');
    assert("boolean"@[0] == 'b');
}

/// What resolving one pending name yields: a primitive synthesizes its leaf
/// fragment, a declared name translates its expression, any other name is
/// unknown.
pub open spec fn spec_resolve_name(n: Seq<char>, index: Map<Seq<char>, TypeExpr>) -> Result<
    (FragModel, Seq<Seq<char>>),
    ErrModel,
> {
    if is_prim_name(n) {
        Ok((FragModel::Leaf(prim_of_name(n)), Seq::empty()))
    } else if index.contains_key(n) {
        spec_translate(index[n])
    } else {
        Err(ErrModel::Unknown(n))
    }
}

/// The names one resolved name depends on.
pub open spec fn spec_deps_of(n: Seq<char>, index: Map<Seq<char>, TypeExpr>) -> Seq<Seq<char>> {
    match spec_resolve_name(n, index) {
        Ok(p) => p.1,
        Err(_) => Seq::empty(),
    }
}

/// Consecutive names are linked by the dependency relation.
pub open spec fn is_ref_path(p: Seq<Seq<char>>, index: Map<Seq<char>, TypeExpr>) -> bool {
    forall|i: int, j: int|
        #![trigger p[i], p[j]]
        0 <= i && j == i + 1 && j < p.len() ==> spec_deps_of(p[i], index).contains(p[j])
}

/// A dependency path leads from the root to the name.
pub open spec fn reachable(root: Seq<char>, n: Seq<char>, index: Map<Seq<char>, TypeExpr>) -> bool {
    exists|p: Seq<Seq<char>>|
        #[trigger] is_ref_path(p, index) && p.len() > 0 && p.first() == root && p.last() == n
}

pub proof fn lemma_reachable_self(root: Seq<char>, index: Map<Seq<char>, TypeExpr>)
    ensures
        reachable(root, root, index),
{
    let p = seq![root];
    assert(is_ref_path(p, index));
    assert(p.len() > 0 && p.first() == root && p.last() == root);
}

pub proof fn lemma_reachable_step(
    root: Seq<char>,
    n: Seq<char>,
    d: Seq<char>,
    index: Map<Seq<char>, TypeExpr>,
)
    requires
        reachable(root, n, index),
        spec_deps_of(n, index).contains(d),
    ensures
        reachable(root, d, index),
{
    let p = choose|p: Seq<Seq<char>>|
        #[trigger] is_ref_path(p, index) && p.len() > 0 && p.first() == root && p.last() == n;
    let q = p.push(d);
    assert forall|i: int, j: int|
        0 <= i && j == i + 1 && j < q.len() implies spec_deps_of(#[trigger] q[i], index).contains(
        #[trigger] q[j],
    ) by {
        if j < p.len() {
            assert(q[i] == p[i]);
            assert(q[j] == p[j]);
        } else {
            assert(q[i] == p[p.len() - 1]);
            assert(q[j] == d);
        }
    }
    assert(is_ref_path(q, index) && q.len() > 0 && q.first() == root && q.last() == d);
}

/// A set of names that contains every dependency of its members.
pub open spec fn closed_under_deps(s: Set<Seq<char>>, index: Map<Seq<char>, TypeExpr>) -> bool {
    forall|m: Seq<char>, d: Seq<char>|
        s.contains(m) && #[trigger] spec_deps_of(m, index).contains(d) ==> s.contains(d)
}

pub proof fn lemma_path_stays(
    p: Seq<Seq<char>>,
    s: Set<Seq<char>>,
    index: Map<Seq<char>, TypeExpr>,
)
    requires
        is_ref_path(p, index),
        p.len() > 0,
        s.contains(p.first()),
        closed_under_deps(s, index),
    ensures
        s.contains(p.last()),
    decreases p.len(),
{
    if p.len() > 1 {
        assert(spec_deps_of(p[0], index).contains(p[1]));
        let q = p.drop_first();
        assert forall|i: int, j: int|
            0 <= i && j == i + 1 && j < q.len() implies spec_deps_of(
            #[trigger] q[i],
            index,
        ).contains(#[trigger] q[j]) by {
            assert(q[i] == p[i + 1]);
            assert(q[j] == p[j + 1]);
        }
        assert(s.contains(q.first()));
        lemma_path_stays(q, s, index);
        assert(q.last() == p.last());
    }
}

/// Whatever the root reaches lies in any dependency-closed set holding the root.
pub proof fn lemma_reachable_in(
    root: Seq<char>,
    n: Seq<char>,
    s: Set<Seq<char>>,
    index: Map<Seq<char>, TypeExpr>,
)
    requires
        reachable(root, n, index),
        s.contains(root),
        closed_under_deps(s, index),
    ensures
        s.contains(n),
{
    let p = choose|p: Seq<Seq<char>>|
        #[trigger] is_ref_path(p, index) && p.len() > 0 && p.first() == root && p.last() == n;
    lemma_path_stays(p, s, index);
}

/// The document a successful run returns: the requested root name, and a
/// sorted definitions table whose keys are exactly the names the root
/// reaches, each mapped to what resolving it yields.
pub open spec fn doc_resolves(
    doc: SchemaDocument,
    root: Seq<char>,
    index: Map<Seq<char>, TypeExpr>,
) -> bool {
    &&& doc.root@ == root
    &&& doc.definitions.wf()
    &&& forall|n: Seq<char>|
        #[trigger] doc.definitions.map_view().contains_key(n) <==> reachable(root, n, index)
    &&& forall|n: Seq<char>|
        #[trigger] doc.definitions.map_view().contains_key(n) ==> (spec_resolve_name(n, index)
            matches Ok(p) && doc.definitions.map_view()[n] == p.0)
}

/// A failed run names a reachable type that resolution chokes on.
pub open spec fn resolution_blocked(
    e: ErrModel,
    root: Seq<char>,
    index: Map<Seq<char>, TypeExpr>,
) -> bool {
    exists|n: Seq<char>|
        #[trigger] reachable(root, n, index) && spec_resolve_name(n, index) == Err::<
            (FragModel, Seq<Seq<char>>),
            ErrModel,
        >(e)
}

fn vec_contains_name(v: &Vec<String>, name: &String) -> (r: bool)
    ensures
        r == names_model(v@).contains(name@),
{
    let n = v.len();
    let mut i: usize = 0;
    while i < n
        invariant
            0 <= i <= n,
            n == v@.len(),
            forall|j: int| 0 <= j < i ==> #[trigger] names_model(v@)[j] != name@,
        decreases n - i,
    {
        if str_eq(v[i].as_str(), name.as_str()) {
            proof {
                assert(names_model(v@)[i as int] == name@);
            }
            return true;
        }
        i += 1;
    }
    proof {
        if names_model(v@).contains(name@) {
            let j = choose|j: int| 0 <= j < v@.len() && names_model(v@)[j] == name@;
            assert(names_model(v@)[j] != name@);
        }
    }
    false
}

fn prim_of(n: &str) -> (r: Option<Prim>)
    ensures
        match r {
            Some(k) => n@ == prim_name(k) && is_prim_name(n@),
            None => !is_prim_name(n@),
        },
{
    if str_eq(n, "string") {
        Some(Prim::Str)
    } else if str_eq(n, "number") {
        Some(Prim::Num)
    } else if str_eq(n, "boolean") {
        Some(Prim::Bool)
    } else {
        None
    }
}

/// Resolves the root name and every name it transitively references
/// against the declaration index, into one schema document.
pub fn resolve(root: &str, index: &DeclIndex) -> (r: Result<SchemaDocument, ResolveError>)
    ensures
        match r {
            Ok(doc) => doc_resolves(doc, root@, index@),
            Err(e) => resolution_blocked(err_model(e), root@, index@),
        },
{
    let mut defs = SchemaMap::new();
    let mut work: Vec<String> = Vec::new();
    work.push(root.to_owned());
    proof {
        lemma_decls_map_finite(index.entries@);
        lemma_reachable_self(root@, index@);
        assert(names_model(work@) =~= seq![root@]);
        assert(names_model(work@)[0] == root@);
        assert(names_model(work@).contains(root@));
        assert(prim_names().finite());
        assert(all_names(index@).finite());
    }
    while work.len() > 0
        invariant
            defs.wf(),
            all_names(index@).finite(),
            defs.map_view().dom().finite(),
            defs.map_view().dom().len() <= all_names(index@).len(),
            forall|n: Seq<char>| #[trigger]
                defs.map_view().contains_key(n) ==> all_names(index@).contains(n),
            forall|n: Seq<char>| #[trigger]
                defs.map_view().contains_key(n) ==> (spec_resolve_name(n, index@) matches Ok(p)
                    && defs.map_view()[n] == p.0),
            forall|n: Seq<char>| #[trigger]
                defs.map_view().contains_key(n) ==> reachable(root@, n, index@),
            forall|j: int|
                0 <= j < work@.len() ==> reachable(root@, #[trigger] names_model(work@)[j], index@),
            forall|n: Seq<char>, d: Seq<char>|
                defs.map_view().contains_key(n) && #[trigger] spec_deps_of(n, index@).contains(d)
                    ==> defs.map_view().contains_key(d) || names_model(work@).contains(d),
            defs.map_view().contains_key(root@) || names_model(work@).contains(root@),
        decreases all_names(index@).len() - defs.map_view().dom().len(), work@.len(),
    {
        let ghost prev_work = work@;
        let n = work.pop().unwrap();
        proof {
            assert(names_model(work@) =~= names_model(prev_work).drop_last());
            assert(names_model(prev_work)[prev_work.len() - 1] == n@);
            assert(reachable(root@, n@, index@));
        }
        if defs.contains(n.as_str()) {
            proof {
                assert forall|x: Seq<char>|
                    names_model(prev_work).contains(x) implies defs.map_view().contains_key(x)
                    || names_model(work@).contains(x) by {
                    let j = choose|j: int|
                        0 <= j < prev_work.len() && names_model(prev_work)[j] == x;
                    if j < prev_work.len() - 1 {
                        assert(names_model(work@)[j] == x);
                    } else {
                        assert(x == n@);
                    }
                }
            }
        } else {
            let resolved: Result<(Fragment, Vec<String>), ResolveError> = match prim_of(
                n.as_str(),
            ) {
                Some(k) => {
                    proof {
                        lemma_prim_names_distinct();
                        assert(prim_of_name(n@) == k);
                    }
                    Ok((Fragment::Leaf(k), Vec::new()))
                },
                None => {
                    match index.get(n.as_str()) {
                        Some(expr) => translate(expr),
                        None => Err(ResolveError::UnknownType(n.clone())),
                    }
                },
            };
            match resolved {
                Err(er) => {
                    proof {
                        assert(spec_resolve_name(n@, index@) == Err::<
                            (FragModel, Seq<Seq<char>>),
                            ErrModel,
                        >(err_model(er)));
                        assert(reachable(root@, n@, index@) && spec_resolve_name(n@, index@)
                            == Err::<(FragModel, Seq<Seq<char>>), ErrModel>(err_model(er)));
                    }
                    return Err(er);
                },
                Ok((frag, deps)) => {
                    let ghost old_defs = defs.map_view();
                    let ghost fm = frag_model(frag);
                    proof {
                        assert(spec_resolve_name(n@, index@) matches Ok(p) && p.0 == fm && p.1
                            == names_model(deps@));
                        assert(spec_deps_of(n@, index@) == names_model(deps@));
                        assert(all_names(index@).contains(n@));
                    }
                    defs.insert(n, frag);
                    proof {
                        assert(defs.map_view().dom() =~= old_defs.dom().insert(
                            names_model(prev_work).last(),
                        ));
                        assert forall|m: Seq<char>| #[trigger]
                            defs.map_view().contains_key(m) implies all_names(
                            index@,
                        ).contains(m) by {}
                        assert(defs.map_view().dom().subset_of(all_names(index@)));
                        lemma_len_subset(defs.map_view().dom(), all_names(index@));
                        assert forall|x: Seq<char>|
                            names_model(prev_work).contains(x) implies defs.map_view().contains_key(
                            x,
                        ) || names_model(work@).contains(x) by {
                            let jj = choose|jj: int|
                                0 <= jj < prev_work.len() && names_model(prev_work)[jj] == x;
                            if jj < prev_work.len() - 1 {
                                assert(names_model(work@)[jj] == names_model(prev_work)[jj]);
                            } else {
                                assert(x == names_model(prev_work).last());
                            }
                        }
                    }
                    let nd = deps.len();
                    let mut j: usize = 0;
                    while j < nd
                        invariant
                            defs.wf(),
                            all_names(index@).finite(),
                            defs.map_view().dom().finite(),
                            defs.map_view().dom().len() <= all_names(index@).len(),
                            defs.map_view() == old_defs.insert(
                                names_model(prev_work).last(),
                                fm,
                            ),
                            0 <= j <= nd,
                            nd == deps@.len(),
                            spec_deps_of(names_model(prev_work).last(), index@) == names_model(
                                deps@,
                            ),
                            reachable(root@, names_model(prev_work).last(), index@),
                            forall|n2: Seq<char>| #[trigger]
                                defs.map_view().contains_key(n2) ==> all_names(
                                    index@,
                                ).contains(n2),
                            forall|n2: Seq<char>| #[trigger]
                                defs.map_view().contains_key(n2) ==> (spec_resolve_name(n2, index@)
                                    matches Ok(p) && defs.map_view()[n2] == p.0),
                            forall|n2: Seq<char>| #[trigger]
                                defs.map_view().contains_key(n2) ==> reachable(root@, n2, index@),
                            forall|jj: int|
                                0 <= jj < work@.len() ==> reachable(
                                    root@,
                                    #[trigger] names_model(work@)[jj],
                                    index@,
                                ),
                            forall|x: Seq<char>|
                                names_model(prev_work).drop_last().contains(x) ==> #[trigger]
                                    names_model(work@).contains(x),
                            forall|n2: Seq<char>, d: Seq<char>|
                                old_defs.contains_key(n2) && #[trigger] spec_deps_of(
                                    n2,
                                    index@,
                                ).contains(d) ==> defs.map_view().contains_key(d) || names_model(
                                    work@,
                                ).contains(d),
                            forall|jj: int|
                                0 <= jj < j ==> defs.map_view().contains_key(
                                    #[trigger] names_model(deps@)[jj],
                                ) || names_model(work@).contains(names_model(deps@)[jj]),
                            defs.map_view().contains_key(root@) || names_model(work@).contains(
                                root@,
                            ),
                        decreases nd - j,
                    {
                        let dep_in_work = vec_contains_name(&work, &deps[j]);
                        if !dep_in_work {
                            let ghost mid_work = work@;
                            work.push(deps[j].clone());
                            proof {
                                assert(names_model(work@) =~= names_model(mid_work).push(
                                    deps@[j as int]@,
                                ));
                                assert forall|x: Seq<char>|
                                    names_model(mid_work).contains(x) implies #[trigger]
                                    names_model(work@).contains(x) by {
                                    let jj = choose|jj: int|
                                        0 <= jj < mid_work.len() && names_model(mid_work)[jj] == x;
                                    assert(names_model(work@)[jj] == x);
                                }
                                assert(names_model(work@)[work@.len() - 1] == deps@[j as int]@);
                                assert(names_model(deps@)[j as int] == deps@[j as int]@);
                                lemma_reachable_step(
                                    root@,
                                    names_model(prev_work).last(),
                                    deps@[j as int]@,
                                    index@,
                                );
                                assert forall|jj: int|
                                    0 <= jj < work@.len() implies reachable(
                                    root@,
                                    #[trigger] names_model(work@)[jj],
                                    index@,
                                ) by {
                                    if jj < work@.len() - 1 {
                                        assert(names_model(work@)[jj] == names_model(
                                            mid_work,
                                        )[jj]);
                                    }
                                }
                            }
                        }
                        j += 1;
                    }
                    proof {
                        assert forall|x: Seq<char>|
                            names_model(prev_work).contains(x) implies defs.map_view().contains_key(
                            x,
                        ) || names_model(work@).contains(x) by {
                            let jj = choose|jj: int|
                                0 <= jj < prev_work.len() && names_model(prev_work)[jj] == x;
                            if jj < prev_work.len() - 1 {
                                assert(names_model(prev_work).drop_last()[jj] == x);
                                assert(names_model(prev_work).drop_last().contains(x));
                            } else {
                                assert(x == names_model(prev_work).last());
                            }
                        }
                        assert forall|n2: Seq<char>, d: Seq<char>|
                            defs.map_view().contains_key(n2) && #[trigger] spec_deps_of(
                                n2,
                                index@,
                            ).contains(d) implies defs.map_view().contains_key(d) || names_model(
                            work@,
                        ).contains(d) by {
                            if n2 == names_model(prev_work).last() {
                                let jj = choose|jj: int|
                                    0 <= jj < names_model(deps@).len() && names_model(deps@)[jj]
                                        == d;
                            } else {
                                assert(old_defs.contains_key(n2));
                            }
                        }
                    }
                },
            }
        }
    }
    let doc = SchemaDocument { root: root.to_owned(), definitions: defs };
    proof {
        assert(names_model(work@).len() == 0);
        assert forall|x: Seq<char>| !(#[trigger] names_model(work@).contains(x)) by {}
        assert(doc.definitions.map_view().contains_key(root@));
        assert(closed_under_deps(doc.definitions.map_view().dom(), index@));
        assert forall|n2: Seq<char>| #[trigger]
            doc.definitions.map_view().contains_key(n2) <==> reachable(root@, n2, index@) by {
            if reachable(root@, n2, index@) {
                lemma_reachable_in(root@, n2, doc.definitions.map_view().dom(), index@);
            }
        }
    }
    Ok(doc)
}

} // verus!
