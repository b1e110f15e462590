use serde_json::Value;
use ts_schema::emit::to_json;
use ts_schema::index::DeclIndex;
use ts_schema::resolve::resolve;
use ts_schema::types::{Fragment, Member, Prim, ResolveError, TypeExpr};

fn prop(name: &str, ty: TypeExpr) -> Member {
    Member::Property { name: name.to_string(), ty }
}

// type A = { b: Missing } fails naming the missing type.
#[test]
fn unknown_reference_fails() {
    let mut index = DeclIndex::new();
    index.insert(
        "A".to_string(),
        TypeExpr::Object(vec![prop("b", TypeExpr::Name("Missing".to_string()))]),
    );
    match resolve("A", &index) {
        Err(ResolveError::UnknownType(n)) => assert_eq!(n, "Missing"),
        other => panic!("expected UnknownType, got {:?}", other.map(|d| to_json(&d))),
    }
}

// A root name with no declaration at all fails the same way.
#[test]
fn unknown_root_fails() {
    let index = DeclIndex::new();
    match resolve("Nope", &index) {
        Err(ResolveError::UnknownType(n)) => assert_eq!(n, "Nope"),
        _ => panic!("expected UnknownType"),
    }
}

// type A = number[] inlines the array and defines the primitive.
#[test]
fn array_of_primitive() {
    let mut index = DeclIndex::new();
    index.insert(
        "A".to_string(),
        TypeExpr::Array(Box::new(TypeExpr::Prim(Prim::Num))),
    );
    let doc = resolve("A", &index).unwrap();
    let schema = to_json(&doc);
    assert_eq!(
        schema,
        "{\"$schema\":\"http://json-schema.org/draft-07/schema\",\
         \"$ref\":\"#/definitions/A\",\
         \"definitions\":{\
         \"A\":{\"type\":\"array\",\"items\":{\"$ref\":\"#/definitions/number\"}},\
         \"number\":{\"type\":\"number\"}}}"
    );
}

// type A = { xs: B[] } / type B = {} : an array-typed property inlines its
// items fragment and still drags the element type into the definitions.
#[test]
fn array_property() {
    let mut index = DeclIndex::new();
    index.insert(
        "A".to_string(),
        TypeExpr::Object(vec![prop(
            "xs",
            TypeExpr::Array(Box::new(TypeExpr::Name("B".to_string()))),
        )]),
    );
    index.insert("B".to_string(), TypeExpr::Object(vec![]));
    let doc = resolve("A", &index).unwrap();
    let schema = to_json(&doc);
    let v: Value = serde_json::from_str(&schema).unwrap();
    assert_eq!(
        v["definitions"]["A"]["properties"]["xs"]["items"]["$ref"],
        Value::String("#/definitions/B".to_string())
    );
    assert_eq!(v["definitions"]["B"]["type"], Value::String("object".to_string()));
}

// Resolving the same root twice against the same index is byte-identical.
#[test]
fn resolution_is_deterministic() {
    let mut index = DeclIndex::new();
    index.insert(
        "A".to_string(),
        TypeExpr::Object(vec![
            prop("b", TypeExpr::Name("B".to_string())),
            prop("n", TypeExpr::Prim(Prim::Num)),
        ]),
    );
    index.insert(
        "B".to_string(),
        TypeExpr::Object(vec![prop("s", TypeExpr::Prim(Prim::Str))]),
    );
    let first = to_json(&resolve("A", &index).unwrap());
    let second = to_json(&resolve("A", &index).unwrap());
    assert_eq!(first, second);
}

// The definitions keys come out in sorted order, whatever the discovery order.
#[test]
fn definitions_are_sorted() {
    let mut index = DeclIndex::new();
    index.insert(
        "Zeta".to_string(),
        TypeExpr::Object(vec![
            prop("a", TypeExpr::Name("Mid".to_string())),
            prop("b", TypeExpr::Name("Alpha".to_string())),
        ]),
    );
    index.insert("Mid".to_string(), TypeExpr::Object(vec![]));
    index.insert("Alpha".to_string(), TypeExpr::Object(vec![]));
    let schema = to_json(&resolve("Zeta", &index).unwrap());
    let alpha = schema.find("\"Alpha\"").unwrap();
    let mid = schema.find("\"Mid\"").unwrap();
    let zeta = schema.find("\"Zeta\":{").unwrap();
    assert!(alpha < mid && mid < zeta);
}

// A later declaration of the same name wins.
#[test]
fn last_declaration_wins() {
    let mut index = DeclIndex::new();
    index.insert(
        "A".to_string(),
        TypeExpr::Object(vec![prop("x", TypeExpr::Prim(Prim::Num))]),
    );
    index.insert("A".to_string(), TypeExpr::Object(vec![]));
    let schema = to_json(&resolve("A", &index).unwrap());
    assert_eq!(
        schema,
        "{\"$schema\":\"http://json-schema.org/draft-07/schema\",\
         \"$ref\":\"#/definitions/A\",\
         \"definitions\":{\"A\":{\"type\":\"object\"}}}"
    );
}

// A later property with the same key wins, as in a mapping.
#[test]
fn duplicate_property_keys() {
    let mut index = DeclIndex::new();
    index.insert(
        "A".to_string(),
        TypeExpr::Object(vec![
            prop("x", TypeExpr::Prim(Prim::Num)),
            prop("x", TypeExpr::Prim(Prim::Str)),
        ]),
    );
    let schema = to_json(&resolve("A", &index).unwrap());
    let v: Value = serde_json::from_str(&schema).unwrap();
    assert_eq!(
        v["definitions"]["A"]["properties"]["x"]["$ref"],
        Value::String("#/definitions/string".to_string())
    );
    // The dependency on number was still recorded.
    assert_eq!(v["definitions"]["number"]["type"], Value::String("number".to_string()));
}

// A reference cycle resolves each name once and terminates.
#[test]
fn reference_cycle_terminates() {
    let mut index = DeclIndex::new();
    index.insert(
        "A".to_string(),
        TypeExpr::Object(vec![prop("b", TypeExpr::Name("B".to_string()))]),
    );
    index.insert(
        "B".to_string(),
        TypeExpr::Object(vec![prop("a", TypeExpr::Name("A".to_string()))]),
    );
    let doc = resolve("A", &index).unwrap();
    let v: Value = serde_json::from_str(&to_json(&doc)).unwrap();
    assert_eq!(
        v["definitions"]["A"]["properties"]["b"]["$ref"],
        Value::String("#/definitions/B".to_string())
    );
    assert_eq!(
        v["definitions"]["B"]["properties"]["a"]["$ref"],
        Value::String("#/definitions/A".to_string())
    );
}

// Resolving a primitive pseudo-name directly yields its leaf schema.
#[test]
fn primitive_root() {
    let index = DeclIndex::new();
    let schema = to_json(&resolve("string", &index).unwrap());
    assert_eq!(
        schema,
        "{\"$schema\":\"http://json-schema.org/draft-07/schema\",\
         \"$ref\":\"#/definitions/string\",\
         \"definitions\":{\"string\":{\"type\":\"string\"}}}"
    );
}

// An unsupported type expression is reported, not crashed on.
#[test]
fn unsupported_construct_fails() {
    let mut index = DeclIndex::new();
    index.insert(
        "A".to_string(),
        TypeExpr::Object(vec![prop(
            "u",
            TypeExpr::Unsupported("union type".to_string()),
        )]),
    );
    match resolve("A", &index) {
        Err(ResolveError::UnsupportedConstruct(d)) => assert_eq!(d, "union type"),
        _ => panic!("expected UnsupportedConstruct"),
    }
}

// A property signature without an annotation is reported.
#[test]
fn malformed_property_fails() {
    let mut index = DeclIndex::new();
    index.insert(
        "A".to_string(),
        TypeExpr::Object(vec![Member::Malformed]),
    );
    match resolve("A", &index) {
        Err(ResolveError::MalformedProperty) => {}
        _ => panic!("expected MalformedProperty"),
    }
}

// A declaration that is itself a bare reference points at its target.
#[test]
fn alias_of_alias() {
    let mut index = DeclIndex::new();
    index.insert("A".to_string(), TypeExpr::Name("B".to_string()));
    index.insert("B".to_string(), TypeExpr::Object(vec![]));
    let schema = to_json(&resolve("A", &index).unwrap());
    assert_eq!(
        schema,
        "{\"$schema\":\"http://json-schema.org/draft-07/schema\",\
         \"$ref\":\"#/definitions/A\",\
         \"definitions\":{\"A\":{\"$ref\":\"#/definitions/B\"},\"B\":{\"type\":\"object\"}}}"
    );
}

// Names land in JSON escaped, so the output stays well-formed.
#[test]
fn names_are_escaped() {
    let mut index = DeclIndex::new();
    index.insert(
        "A".to_string(),
        TypeExpr::Object(vec![prop("we\"ird\\", TypeExpr::Prim(Prim::Bool))]),
    );
    let schema = to_json(&resolve("A", &index).unwrap());
    let v: Value = serde_json::from_str(&schema).unwrap();
    assert_eq!(
        v["definitions"]["A"]["properties"]["we\"ird\\"]["$ref"],
        Value::String("#/definitions/boolean".to_string())
    );
}

// The resolved document can be read back directly, without serializing.
#[test]
fn document_lookup() {
    let mut index = DeclIndex::new();
    index.insert(
        "A".to_string(),
        TypeExpr::Object(vec![prop("b", TypeExpr::Name("B".to_string()))]),
    );
    index.insert("B".to_string(), TypeExpr::Object(vec![]));
    let doc = resolve("A", &index).unwrap();
    assert_eq!(doc.root, "A");
    assert!(doc.definitions.contains("A"));
    assert!(doc.definitions.contains("B"));
    assert!(!doc.definitions.contains("C"));
    match doc.definitions.get("B") {
        Some(Fragment::Object(m)) => assert_eq!(m.entries.len(), 0),
        _ => panic!("expected an object fragment for B"),
    }
}
