//! The data the resolver works on: type expressions as a declaration's
//! right-hand side, schema fragments as the result, and the ghost models
//! (character sequences at the leaves) that the contracts speak of.
use vstd::prelude::*;

verus! {

/// The three keyword primitives, treated as pseudo-type-names.
#[derive(Clone, Copy, PartialEq, Eq, Structural, Debug)]
pub enum Prim {
    Str,
    Num,
    Bool,
}

pub open spec fn prim_name(k: Prim) -> Seq<char> {
    match k {
        Prim::Str => "string"@,
        Prim::Num => "number"@,
        Prim::Bool => "boolean"@,
    }
}

pub open spec fn is_prim_name(n: Seq<char>) -> bool {
    n == "string"@ || n == "number"@ || n == "boolean"@
}

pub open spec fn prim_of_name(n: Seq<char>) -> Prim {
    if n == "string"@ {
        Prim::Str
    } else if n == "number"@ {
        Prim::Num
    } else {
        Prim::Bool
    }
}

/// One member of an object literal type.
pub enum Member {
    /// A plain property signature with an identifier key and a type annotation.
    Property { name: String, ty: TypeExpr },
    /// A property signature without a type annotation, or with a non-identifier key.
    Malformed,
    /// Any other kind of type element (index signature, call signature, ...).
    Unsupported(String),
}

/// The right-hand side of a type-alias declaration.
pub enum TypeExpr {
    /// An object literal type: `{ a: T; b: U }`.
    Object(Vec<Member>),
    /// A keyword primitive: `string`, `number` or `boolean`.
    Prim(Prim),
    /// A reference to a type by name.
    Name(String),
    /// An array type: `T[]`.
    Array(Box<TypeExpr>),
    /// Any other type expression (union, tuple, generic, literal, ...).
    Unsupported(String),
}

/// A name-keyed table of schema fragments, kept strictly sorted by name.
pub struct SchemaMap {
    pub entries: Vec<(String, Fragment)>,
}

/// One JSON-Schema-shaped value inside `definitions`.
pub enum Fragment {
    /// `{"type":"object"}`, with `"properties"` when the table is non-empty.
    Object(SchemaMap),
    /// `{"type":"string"}` and the like.
    Leaf(Prim),
    /// `{"type":"array","items":...}`.
    Array(Box<Fragment>),
    /// `{"$ref":"#/definitions/<name>"}`.
    Reference(String),
}

/// Why a resolution run stopped.
#[derive(Debug)]
pub enum ResolveError {
    /// A visited name has no declaration and is not a primitive.
    UnknownType(String),
    /// A type expression or type element the translator does not cover.
    UnsupportedConstruct(String),
    /// A property signature without a type annotation or identifier key.
    MalformedProperty,
}

/// Ghost counterpart of `Fragment`, with names as character sequences.
pub enum FragModel {
    Object(Seq<(Seq<char>, FragModel)>),
    Leaf(Prim),
    Array(Box<FragModel>),
    Reference(Seq<char>),
}

/// Ghost counterpart of `ResolveError`.
pub enum ErrModel {
    Unknown(Seq<char>),
    Unsupported(Seq<char>),
    Malformed,
}

pub open spec fn frag_model(f: Fragment) -> FragModel
    decreases f,
{
    match f {
        Fragment::Object(m) => FragModel::Object(entries_model(m.entries@)),
        Fragment::Leaf(k) => FragModel::Leaf(k),
        Fragment::Array(b) => FragModel::Array(Box::new(frag_model(*b))),
        Fragment::Reference(n) => FragModel::Reference(n@),
    }
}

pub open spec fn entries_model(s: Seq<(String, Fragment)>) -> Seq<(Seq<char>, FragModel)>
    decreases s,
{
    if s.len() == 0 {
        Seq::empty()
    } else {
        entries_model(s.drop_last()).push((s.last().0@, frag_model(s.last().1)))
    }
}

pub proof fn lemma_entries_model_index(s: Seq<(String, Fragment)>)
    ensures
        entries_model(s).len() == s.len(),
        forall|i: int|
            0 <= i < s.len() ==> #[trigger] entries_model(s)[i] == (s[i].0@, frag_model(s[i].1)),
    decreases s.len(),
{
    if s.len() > 0 {
        lemma_entries_model_index(s.drop_last());
    }
}

pub open spec fn err_model(e: ResolveError) -> ErrModel {
    match e {
        ResolveError::UnknownType(n) => ErrModel::Unknown(n@),
        ResolveError::UnsupportedConstruct(d) => ErrModel::Unsupported(d@),
        ResolveError::MalformedProperty => ErrModel::Malformed,
    }
}

/// The view of a sequence of owned names.
pub open spec fn names_model(s: Seq<String>) -> Seq<Seq<char>> {
    Seq::new(s.len(), |i: int| s[i]@)
}

/// The mapping a fragment table stands for; a later entry wins.
pub open spec fn model_map(s: Seq<(Seq<char>, FragModel)>) -> Map<Seq<char>, FragModel>
    decreases s.len(),
{
    if s.len() == 0 {
        Map::empty()
    } else {
        model_map(s.drop_last()).insert(s.last().0, s.last().1)
    }
}

/// Strictly ascending names, hence no duplicates.
pub open spec fn models_sorted(s: Seq<(Seq<char>, FragModel)>) -> bool {
    forall|i: int, j: int|
        0 <= i < j < s.len() ==> crate::order::str_lt(#[trigger] s[i].0, #[trigger] s[j].0)
}

/// The finished schema document: the root name and the definitions table.
pub struct SchemaDocument {
    pub root: String,
    pub definitions: SchemaMap,
}

} // verus!
