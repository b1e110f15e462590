//! The type-expression translator: one expression in, one schema fragment
//! and the list of type names it depends on out.
use vstd::prelude::*;
use crate::types::{
    Prim, prim_name, Member, TypeExpr, Fragment, FragModel, ResolveError, ErrModel, frag_model,
    err_model, names_model, SchemaMap,
};
use crate::schema_map::model_insert;

verus! {

/// A property's type or an array's element type: a named reference or a
/// primitive becomes a pointer fragment and one dependency; an array
/// inlines its element's fragment; anything else is unsupported.
pub open spec fn spec_translate_nested(e: TypeExpr) -> Result<(FragModel, Seq<Seq<char>>), ErrModel>
    decreases e,
{
    match e {
        TypeExpr::Name(n) => Ok((FragModel::Reference(n@), seq![n@])),
        TypeExpr::Prim(k) => Ok((FragModel::Reference(prim_name(k)), seq![prim_name(k)])),
        TypeExpr::Array(t) => match spec_translate_nested(*t) {
            Ok(p) => Ok((FragModel::Array(Box::new(p.0)), p.1)),
            Err(er) => Err(er),
        },
        TypeExpr::Object(_) => Err(ErrModel::Unsupported("object literal"@)),
        TypeExpr::Unsupported(d) => Err(ErrModel::Unsupported(d@)),
    }
}

/// The members of an object literal, first to last: properties collect into
/// a sorted table (a later duplicate key wins) and dependencies concatenate;
/// the first bad member decides the error.
pub open spec fn spec_translate_members(ms: Seq<Member>) -> Result<
    (Seq<(Seq<char>, FragModel)>, Seq<Seq<char>>),
    ErrModel,
>
    decreases ms.len(),
{
    if ms.len() == 0 {
        Ok((Seq::empty(), Seq::empty()))
    } else {
        match spec_translate_members(ms.drop_last()) {
            Err(er) => Err(er),
            Ok(acc) => match ms.last() {
                Member::Property { name, ty } => match spec_translate_nested(ty) {
                    Ok(p) => Ok((model_insert(acc.0, name@, p.0), acc.1 + p.1)),
                    Err(er) => Err(er),
                },
                Member::Malformed => Err(ErrModel::Malformed),
                Member::Unsupported(d) => Err(ErrModel::Unsupported(d@)),
            },
        }
    }
}

/// What one declaration's right-hand side resolves to.
pub open spec fn spec_translate(e: TypeExpr) -> Result<(FragModel, Seq<Seq<char>>), ErrModel> {
    match e {
        TypeExpr::Object(ms) => match spec_translate_members(ms@) {
            Ok(p) => Ok((FragModel::Object(p.0), p.1)),
            Err(er) => Err(er),
        },
        _ => spec_translate_nested(e),
    }
}

/// Once translating some prefix of the members has failed, the whole
/// member list fails the same way.
pub proof fn lemma_members_err_persists(ms: Seq<Member>, i: int)
    requires
        0 <= i <= ms.len(),
        spec_translate_members(ms.take(i)) matches Err(_),
    ensures
        spec_translate_members(ms) == spec_translate_members(ms.take(i)),
    decreases ms.len() - i,
{
    if i < ms.len() {
        assert(ms.take(i + 1).drop_last() =~= ms.take(i));
        lemma_members_err_persists(ms, i + 1);
    } else {
        assert(ms.take(i) =~= ms);
    }
}

pub fn prim_string(k: Prim) -> (r: String)
    ensures
        r@ == prim_name(k),
{
    match k {
        Prim::Str => "string".to_owned(),
        Prim::Num => "number".to_owned(),
        Prim::Bool => "boolean".to_owned(),
    }
}

/// Translates a property's or an array element's type expression.
pub fn translate_nested(e: &TypeExpr) -> (r: Result<(Fragment, Vec<String>), ResolveError>)
    ensures
        match r {
            Ok(p) => spec_translate_nested(*e) matches Ok(q) && frag_model(p.0) == q.0
                && names_model(p.1@) == q.1,
            Err(er) => spec_translate_nested(*e) == Err::<(FragModel, Seq<Seq<char>>), ErrModel>(
                err_model(er),
            ),
        },
    decreases *e,
{
    match e {
        TypeExpr::Name(n) => {
            let mut deps: Vec<String> = Vec::new();
            deps.push(n.clone());
            proof {
                assert(names_model(deps@) =~= seq![n@]);
            }
            Ok((Fragment::Reference(n.clone()), deps))
        },
        TypeExpr::Prim(k) => {
            let name = prim_string(*k);
            let mut deps: Vec<String> = Vec::new();
            deps.push(prim_string(*k));
            proof {
                assert(names_model(deps@) =~= seq![prim_name(*k)]);
            }
            Ok((Fragment::Reference(name), deps))
        },
        TypeExpr::Array(t) => {
            match translate_nested(t) {
                Ok((f, d)) => Ok((Fragment::Array(Box::new(f)), d)),
                Err(er) => Err(er),
            }
        },
        TypeExpr::Object(_) => Err(
            ResolveError::UnsupportedConstruct("object literal".to_owned()),
        ),
        TypeExpr::Unsupported(d) => Err(ResolveError::UnsupportedConstruct(d.clone())),
    }
}

/// Translates a declaration's right-hand side.
pub fn translate(e: &TypeExpr) -> (r: Result<(Fragment, Vec<String>), ResolveError>)
    ensures
        match r {
            Ok(p) => spec_translate(*e) matches Ok(q) && frag_model(p.0) == q.0 && names_model(
                p.1@,
            ) == q.1,
            Err(er) => spec_translate(*e) == Err::<(FragModel, Seq<Seq<char>>), ErrModel>(
                err_model(er),
            ),
        },
{
    match e {
        TypeExpr::Object(members) => {
            let mut props = SchemaMap::new();
            let mut deps: Vec<String> = Vec::new();
            let n = members.len();
            let mut i: usize = 0;
            proof {
                assert(members@.take(0) =~= Seq::<Member>::empty());
                assert(names_model(deps@) =~= Seq::<Seq<char>>::empty());
            }
            while i < n
                invariant
                    *e == TypeExpr::Object(*members),
                    0 <= i <= n,
                    n == members@.len(),
                    props.wf(),
                    spec_translate_members(members@.take(i as int)) matches Ok(acc) && acc.0
                        == props.models() && acc.1 == names_model(deps@),
                decreases n - i,
            {
                proof {
                    assert(members@.take(i + 1).drop_last() =~= members@.take(i as int));
                    assert(members@.take(i + 1).last() == members@[i as int]);
                }
                match &members[i] {
                    Member::Property { name, ty } => {
                        match translate_nested(ty) {
                            Ok((f, mut d)) => {
                                let ghost pre_props = props.models();
                                let ghost pre_deps = deps@;
                                let ghost pre_d = d@;
                                props.insert(name.clone(), f);
                                deps.append(&mut d);
                                proof {
                                    assert(names_model(deps@) =~= names_model(pre_deps)
                                        + names_model(pre_d));
                                }
                            },
                            Err(er) => {
                                proof {
                                    assert(members@[i as int] matches Member::Property {
                                        name: pn,
                                        ty: pt,
                                    } && pn == *name && pt == *ty);
                                    assert(spec_translate_members(members@.take(i + 1)) == Err::<
                                        (Seq<(Seq<char>, FragModel)>, Seq<Seq<char>>),
                                        ErrModel,
                                    >(err_model(er)));
                                    lemma_members_err_persists(members@, i + 1);
                                }
                                return Err(er);
                            },
                        }
                    },
                    Member::Malformed => {
                        proof {
                            assert(members@[i as int] is Malformed);
                            assert(spec_translate_members(members@.take(i + 1)) == Err::<
                                (Seq<(Seq<char>, FragModel)>, Seq<Seq<char>>),
                                ErrModel,
                            >(ErrModel::Malformed));
                            lemma_members_err_persists(members@, i + 1);
                        }
                        return Err(ResolveError::MalformedProperty);
                    },
                    Member::Unsupported(d) => {
                        proof {
                            assert(members@[i as int] matches Member::Unsupported(dd) && dd == *d);
                            assert(spec_translate_members(members@.take(i + 1)) == Err::<
                                (Seq<(Seq<char>, FragModel)>, Seq<Seq<char>>),
                                ErrModel,
                            >(ErrModel::Unsupported(d@)));
                            lemma_members_err_persists(members@, i + 1);
                        }
                        return Err(ResolveError::UnsupportedConstruct(d.clone()));
                    },
                }
                i += 1;
            }
            proof {
                assert(members@.take(n as int) =~= members@);
            }
            Ok((Fragment::Object(props), deps))
        },
        _ => translate_nested(e),
    }
}

} // verus!
