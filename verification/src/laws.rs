//! Statements a consumer can rely on: what a resolved document holds for
//! the common declaration shapes, that its tables are closed under
//! references, and that resolution is deterministic.
use vstd::prelude::*;
use crate::types::{
    Prim, prim_name, is_prim_name, prim_of_name, Member, TypeExpr, FragModel, ErrModel,
    SchemaDocument, model_map, models_sorted,
};
use crate::schema_map::{lemma_model_insert, lemma_sorted_unique};
use crate::translate::{spec_translate, spec_translate_nested, spec_translate_members};
use crate::resolve::{
    spec_resolve_name, spec_deps_of, reachable, doc_resolves, lemma_reachable_self,
    lemma_reachable_step, lemma_reachable_in, closed_under_deps, lemma_prim_names_distinct,
    resolution_blocked,
};
use crate::emit::doc_json;

verus! {

pub proof fn lemma_prim_roundtrip(k: Prim)
    ensures
        prim_of_name(prim_name(k)) == k,
        is_prim_name(prim_name(k)),
{
    lemma_prim_names_distinct();
}

/// Whether this member is a property signature binding the given name.
pub open spec fn member_binds(m: Member, pn: Seq<char>) -> bool {
    m matches Member::Property { name, ty } && name@ == pn
}

pub open spec fn member_prop_name(m: Member) -> Seq<char> {
    match m {
        Member::Property { name, ty } => name@,
        _ => Seq::empty(),
    }
}

pub open spec fn member_prop_ty(m: Member) -> TypeExpr {
    match m {
        Member::Property { name, ty } => ty,
        _ => TypeExpr::Prim(Prim::Str),
    }
}

/// A property signature whose annotated type is a keyword primitive.
pub open spec fn member_is_prim_property(m: Member) -> bool {
    m matches Member::Property { name: _, ty: TypeExpr::Prim(_) }
}

pub open spec fn member_prim_name(m: Member) -> Seq<char> {
    match m {
        Member::Property { name: _, ty: TypeExpr::Prim(k) } => prim_name(k),
        _ => Seq::empty(),
    }
}

/// Every name in a resolved document's definitions table has its references
/// inside the table too: the table is closed.
pub proof fn lemma_definitions_closed(
    doc: SchemaDocument,
    root: Seq<char>,
    index: Map<Seq<char>, TypeExpr>,
)
    requires
        doc_resolves(doc, root, index),
    ensures
        closed_under_deps(doc.definitions.map_view().dom(), index),
{
    assert forall|m: Seq<char>, d: Seq<char>|
        doc.definitions.map_view().dom().contains(m) && #[trigger] spec_deps_of(
            m,
            index,
        ).contains(d) implies doc.definitions.map_view().dom().contains(d) by {
        assert(reachable(root, m, index));
        lemma_reachable_step(root, m, d, index);
    }
}

/// A declaration with no properties resolves to the bare object fragment:
/// nothing stands in its properties.
pub proof fn lemma_empty_object_definition(
    doc: SchemaDocument,
    root: Seq<char>,
    index: Map<Seq<char>, TypeExpr>,
    n: Seq<char>,
)
    requires
        doc_resolves(doc, root, index),
        doc.definitions.map_view().contains_key(n),
        !is_prim_name(n),
        index.contains_key(n),
        index[n] matches TypeExpr::Object(v) && v@.len() == 0,
    ensures
        doc.definitions.map_view()[n] == FragModel::Object(Seq::<(Seq<char>, FragModel)>::empty()),
{
    assert(spec_resolve_name(n, index) == spec_translate(index[n]));
}

/// Translating members that are all primitive-typed properties succeeds and
/// reports, in member order, exactly each property's primitive pseudo-name.
pub proof fn lemma_members_all_prims(ms: Seq<Member>)
    requires
        forall|i: int| 0 <= i < ms.len() ==> member_is_prim_property(#[trigger] ms[i]),
    ensures
        spec_translate_members(ms) matches Ok(acc) && acc.1.len() == ms.len() && forall|i: int|
            0 <= i < ms.len() ==> acc.1[i] == member_prim_name(#[trigger] ms[i]),
    decreases ms.len(),
{
    if ms.len() > 0 {
        assert forall|i: int| 0 <= i < ms.drop_last().len() implies member_is_prim_property(
            #[trigger] ms.drop_last()[i],
        ) by {
            assert(ms.drop_last()[i] == ms[i]);
        }
        lemma_members_all_prims(ms.drop_last());
        assert(member_is_prim_property(ms[ms.len() - 1]));
        let prefix = spec_translate_members(ms.drop_last())->Ok_0;
        let acc = spec_translate_members(ms)->Ok_0;
        let q = spec_translate_nested(member_prop_ty(ms[ms.len() - 1]))->Ok_0;
        assert(q.1 == seq![member_prim_name(ms[ms.len() - 1])]);
        assert(acc.1 == prefix.1 + q.1);
        assert forall|i: int| 0 <= i < ms.len() implies acc.1[i] == member_prim_name(
            #[trigger] ms[i],
        ) by {
            if i < ms.len() - 1 {
                assert(acc.1[i] == prefix.1[i]);
                assert(ms.drop_last()[i] == ms[i]);
            } else {
                assert(acc.1[i] == q.1[0]);
            }
        }
    }
}

/// An object declaration whose properties reference only primitives: the
/// definitions table holds exactly the root and each referenced primitive,
/// the latter as leaf fragments.
pub proof fn lemma_primitive_object_definitions(
    doc: SchemaDocument,
    root: Seq<char>,
    index: Map<Seq<char>, TypeExpr>,
    ms: Seq<Member>,
)
    requires
        doc_resolves(doc, root, index),
        !is_prim_name(root),
        index.contains_key(root),
        index[root] matches TypeExpr::Object(v) && v@ == ms,
        forall|i: int| 0 <= i < ms.len() ==> member_is_prim_property(#[trigger] ms[i]),
    ensures
        forall|n: Seq<char>|
            #[trigger] doc.definitions.map_view().contains_key(n) <==> (n == root || exists|i: int|
                0 <= i < ms.len() && member_prim_name(#[trigger] ms[i]) == n),
        forall|i: int|
            0 <= i < ms.len() ==> doc.definitions.map_view()[member_prim_name(#[trigger] ms[i])]
                == FragModel::Leaf(prim_of_name(member_prim_name(ms[i]))),
{
    let dm = doc.definitions.map_view();
    lemma_members_all_prims(ms);
    let acc = spec_translate_members(ms)->Ok_0;
    assert(spec_resolve_name(root, index) == spec_translate(index[root]));
    assert(spec_deps_of(root, index) == acc.1);
    assert forall|i: int| 0 <= i < ms.len() implies is_prim_name(
        member_prim_name(#[trigger] ms[i]),
    ) by {
        assert(member_is_prim_property(ms[i]));
    }
    let s = Set::new(
        |x: Seq<char>|
            x == root || exists|i: int| 0 <= i < ms.len() && member_prim_name(#[trigger] ms[i])
                == x,
    );
    assert(s.contains(root));
    assert forall|m: Seq<char>, d: Seq<char>|
        s.contains(m) && #[trigger] spec_deps_of(m, index).contains(d) implies s.contains(d) by {
        if m == root {
            let i = choose|i: int| 0 <= i < acc.1.len() && acc.1[i] == d;
            assert(member_prim_name(ms[i]) == d);
            assert(s.contains(d));
        } else {
            let i = choose|i: int| 0 <= i < ms.len() && member_prim_name(#[trigger] ms[i]) == m;
            assert(is_prim_name(m));
            assert(spec_deps_of(m, index) =~= Seq::<Seq<char>>::empty());
        }
    }
    assert(closed_under_deps(s, index));
    lemma_reachable_self(root, index);
    assert forall|n: Seq<char>| #[trigger] dm.contains_key(n) implies (n == root || exists|i: int|
        0 <= i < ms.len() && member_prim_name(#[trigger] ms[i]) == n) by {
        assert(reachable(root, n, index));
        lemma_reachable_in(root, n, s, index);
        assert(s.contains(n));
    }
    assert forall|n: Seq<char>| (n == root || exists|i: int|
        0 <= i < ms.len() && member_prim_name(#[trigger] ms[i]) == n) implies #[trigger]
        dm.contains_key(n) by {
        if n == root {
        } else {
            let i = choose|i: int| 0 <= i < ms.len() && member_prim_name(#[trigger] ms[i]) == n;
            assert(acc.1[i] == n);
            assert(acc.1.contains(n));
            lemma_reachable_step(root, root, n, index);
        }
    }
    assert forall|i: int| 0 <= i < ms.len() implies dm[member_prim_name(#[trigger] ms[i])]
        == FragModel::Leaf(prim_of_name(member_prim_name(ms[i]))) by {
        let pn = member_prim_name(ms[i]);
        assert(dm.contains_key(pn));
        assert(is_prim_name(pn));
    }
}

/// A successful member translation keeps every member-reported dependency.
pub proof fn lemma_member_deps(ms: Seq<Member>, j: int)
    requires
        spec_translate_members(ms) matches Ok(_),
        0 <= j < ms.len(),
        ms[j] matches Member::Property { name: _, ty: _ },
    ensures
        spec_translate_members(ms) matches Ok(acc) && (ms[j] matches Member::Property {
            name,
            ty,
        } ==> (spec_translate_nested(ty) matches Ok(q) && forall|d: Seq<char>|
            q.1.contains(d) ==> #[trigger] acc.1.contains(d))),
    decreases ms.len(),
{
    let acc = spec_translate_members(ms)->Ok_0;
    let prefix = spec_translate_members(ms.drop_last())->Ok_0;
    if j == ms.len() - 1 {
        let q = spec_translate_nested(member_prop_ty(ms[j]))->Ok_0;
        assert(acc.1 == prefix.1 + q.1);
        assert forall|d: Seq<char>| q.1.contains(d) implies #[trigger] acc.1.contains(d) by {
            let jj = choose|jj: int| 0 <= jj < q.1.len() && q.1[jj] == d;
            assert(acc.1[prefix.1.len() + jj] == d);
        }
    } else {
        assert(ms.drop_last()[j] == ms[j]);
        lemma_member_deps(ms.drop_last(), j);
        let q = spec_translate_nested(member_prop_ty(ms[j]))->Ok_0;
        assert forall|d: Seq<char>| q.1.contains(d) implies #[trigger] acc.1.contains(d) by {
            assert(prefix.1.contains(d));
            let jj = choose|jj: int| 0 <= jj < prefix.1.len() && prefix.1[jj] == d;
            assert(acc.1[jj] == d);
        }
    }
}

/// A successful member translation leaves its table sorted.
pub proof fn lemma_members_sorted(ms: Seq<Member>)
    requires
        spec_translate_members(ms) matches Ok(_),
    ensures
        spec_translate_members(ms) matches Ok(acc) && models_sorted(acc.0),
    decreases ms.len(),
{
    if ms.len() == 0 {
    } else {
        lemma_members_sorted(ms.drop_last());
        let prefix = spec_translate_members(ms.drop_last())->Ok_0;
        let q = spec_translate_nested(member_prop_ty(ms.last()))->Ok_0;
        lemma_model_insert(prefix.0, member_prop_name(ms.last()), q.0);
    }
}

/// The property a member binds, when no later member rebinds the name,
/// holds exactly that member's translated reference fragment.
pub proof fn lemma_member_value(ms: Seq<Member>, j: int)
    requires
        spec_translate_members(ms) matches Ok(_),
        0 <= j < ms.len(),
        ms[j] matches Member::Property { name: _, ty: _ },
        forall|i2: int| j < i2 < ms.len() ==> !member_binds(#[trigger] ms[i2], member_prop_name(ms[j])),
    ensures
        spec_translate_members(ms) matches Ok(acc) && (spec_translate_nested(member_prop_ty(ms[j]))
            matches Ok(q) && model_map(acc.0).contains_key(member_prop_name(ms[j])) && model_map(
            acc.0,
        )[member_prop_name(ms[j])] == q.0),
    decreases ms.len(),
{
    let acc = spec_translate_members(ms)->Ok_0;
    let prefix = spec_translate_members(ms.drop_last())->Ok_0;
    lemma_members_sorted(ms.drop_last());
    let pn = member_prop_name(ms[j]);
    if j == ms.len() - 1 {
        let q = spec_translate_nested(member_prop_ty(ms[j]))->Ok_0;
        lemma_model_insert(prefix.0, pn, q.0);
        assert(model_map(acc.0) == model_map(prefix.0).insert(pn, q.0));
    } else {
        assert(ms.drop_last()[j] == ms[j]);
        assert forall|i2: int| j < i2 < ms.drop_last().len() implies !member_binds(
            #[trigger] ms.drop_last()[i2],
            member_prop_name(ms.drop_last()[j]),
        ) by {
            assert(ms.drop_last()[i2] == ms[i2]);
        }
        lemma_member_value(ms.drop_last(), j);
        let q = spec_translate_nested(member_prop_ty(ms[j]))->Ok_0;
        let lastq = spec_translate_nested(member_prop_ty(ms.last()))->Ok_0;
        let lastn = member_prop_name(ms.last());
        lemma_model_insert(prefix.0, lastn, lastq.0);
        assert(!member_binds(ms[ms.len() - 1], pn));
        assert(lastn != pn);
        assert(model_map(acc.0) == model_map(prefix.0).insert(lastn, lastq.0));
    }
}

/// A declaration whose property references another declared type by name:
/// the referenced name stands in the definitions table, and the referencing
/// fragment's property is the pointer to it.
pub proof fn lemma_reference_resolved(
    doc: SchemaDocument,
    root: Seq<char>,
    index: Map<Seq<char>, TypeExpr>,
    n: Seq<char>,
    ms: Seq<Member>,
    j: int,
    target: Seq<char>,
)
    requires
        doc_resolves(doc, root, index),
        doc.definitions.map_view().contains_key(n),
        !is_prim_name(n),
        index.contains_key(n),
        index[n] matches TypeExpr::Object(v) && v@ == ms,
        0 <= j < ms.len(),
        ms[j] matches Member::Property { name: _, ty: TypeExpr::Name(t) } && t@ == target,
        forall|i2: int| j < i2 < ms.len() ==> !member_binds(#[trigger] ms[i2], member_prop_name(ms[j])),
    ensures
        doc.definitions.map_view().contains_key(target),
        doc.definitions.map_view()[n] matches FragModel::Object(props) && model_map(
            props,
        ).contains_key(member_prop_name(ms[j])) && model_map(props)[member_prop_name(ms[j])]
            == FragModel::Reference(target),
{
    assert(spec_resolve_name(n, index) == spec_translate(index[n]));
    assert(spec_translate_members(ms) matches Ok(_));
    lemma_member_value(ms, j);
    lemma_member_deps(ms, j);
    let acc = spec_translate_members(ms)->Ok_0;
    let q = spec_translate_nested(member_prop_ty(ms[j]))->Ok_0;
    assert(q.0 == FragModel::Reference(target));
    assert(q.1 == seq![target]);
    assert(q.1[0] == target);
    assert(q.1.contains(target));
    assert(acc.1.contains(target));
    assert(spec_deps_of(n, index) == acc.1);
    lemma_reachable_step(root, n, target, index);
}

/// An array of a primitive resolves to an array fragment whose items point
/// at the primitive, and the primitive's leaf stands in the table.
pub proof fn lemma_array_of_primitive(
    doc: SchemaDocument,
    root: Seq<char>,
    index: Map<Seq<char>, TypeExpr>,
    n: Seq<char>,
    k: Prim,
)
    requires
        doc_resolves(doc, root, index),
        doc.definitions.map_view().contains_key(n),
        !is_prim_name(n),
        index.contains_key(n),
        index[n] matches TypeExpr::Array(b) && *b matches TypeExpr::Prim(kk) && kk == k,
    ensures
        doc.definitions.map_view()[n] == FragModel::Array(
            Box::new(FragModel::Reference(prim_name(k))),
        ),
        doc.definitions.map_view().contains_key(prim_name(k)),
        doc.definitions.map_view()[prim_name(k)] == FragModel::Leaf(k),
{
    lemma_prim_roundtrip(k);
    reveal_with_fuel(spec_translate_nested, 2);
    assert(spec_resolve_name(n, index) == spec_translate(index[n]));
    assert(spec_translate_nested(index[n]) matches Ok(p) && p.0 == FragModel::Array(
        Box::new(FragModel::Reference(prim_name(k))),
    ) && p.1 == seq![prim_name(k)]);
    assert(spec_deps_of(n, index) == seq![prim_name(k)]);
    assert(spec_deps_of(n, index)[0] == prim_name(k));
    assert(spec_deps_of(n, index).contains(prim_name(k)));
    lemma_reachable_step(root, n, prim_name(k), index);
    assert(doc.definitions.map_view().contains_key(prim_name(k)));
    assert(spec_resolve_name(prim_name(k), index) == Ok::<(FragModel, Seq<Seq<char>>), ErrModel>(
        (FragModel::Leaf(k), Seq::empty()),
    ));
    assert(spec_resolve_name(prim_name(k), index) matches Ok(p)
        && doc.definitions.map_view()[prim_name(k)] == p.0);
}

/// When every name the root reaches resolves, no error report can stand:
/// a run over such an index is owed its document.
pub proof fn lemma_resolvable_closure_succeeds(
    root: Seq<char>,
    index: Map<Seq<char>, TypeExpr>,
    e: ErrModel,
)
    requires
        forall|n: Seq<char>|
            #[trigger] reachable(root, n, index) ==> (spec_resolve_name(n, index) matches Ok(_)),
    ensures
        !resolution_blocked(e, root, index),
{
    if resolution_blocked(e, root, index) {
        let n = choose|n: Seq<char>|
            #[trigger] reachable(root, n, index) && spec_resolve_name(n, index) == Err::<
                (FragModel, Seq<Seq<char>>),
                ErrModel,
            >(e);
    }
}

/// Resolution is deterministic: two documents resolved from the same root
/// and index hold the same definitions and serialize identically.
pub proof fn lemma_resolution_deterministic(
    d1: SchemaDocument,
    d2: SchemaDocument,
    root: Seq<char>,
    index: Map<Seq<char>, TypeExpr>,
)
    requires
        doc_resolves(d1, root, index),
        doc_resolves(d2, root, index),
    ensures
        d1.definitions.map_view() == d2.definitions.map_view(),
        d1.definitions.models() == d2.definitions.models(),
        doc_json(d1.root@, d1.definitions.models()) == doc_json(d2.root@, d2.definitions.models()),
{
    let m1 = d1.definitions.map_view();
    let m2 = d2.definitions.map_view();
    assert forall|n: Seq<char>| #[trigger] m1.contains_key(n) implies m2.contains_key(n) && m1[n]
        == m2[n] by {
        assert(reachable(root, n, index));
        assert(m2.contains_key(n));
        assert(spec_resolve_name(n, index) matches Ok(p) && m1[n] == p.0);
        assert(spec_resolve_name(n, index) matches Ok(p) && m2[n] == p.0);
    }
    assert forall|n: Seq<char>| #[trigger] m2.contains_key(n) implies m1.contains_key(n) by {
        assert(reachable(root, n, index));
    }
    assert(m1 =~= m2);
    lemma_sorted_unique(d1.definitions.models(), d2.definitions.models());
}

} // verus!
