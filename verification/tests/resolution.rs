use serde_json::Value;
use ts_schema::emit::to_json;
use ts_schema::index::DeclIndex;
use ts_schema::resolve::resolve;
use ts_schema::types::{Member, Prim, TypeExpr};

fn assert_json_eq(a: &str, b: &str) {
    let va: Value = serde_json::from_str(a).unwrap();
    let vb: Value = serde_json::from_str(b).unwrap();
    assert_eq!(va, vb);
}

fn prop(name: &str, ty: TypeExpr) -> Member {
    Member::Property { name: name.to_string(), ty }
}

// type A = {}
#[test]
fn empty_object() {
    let mut index = DeclIndex::new();
    index.insert("A".to_string(), TypeExpr::Object(vec![]));
    let doc = resolve("A", &index).unwrap();
    let schema = to_json(&doc);
    assert_json_eq(
        &schema,
        "{\
          \"$schema\": \"http://json-schema.org/draft-07/schema\",\
          \"$ref\": \"#/definitions/A\",\
          \"definitions\": {\
            \"A\": {\
              \"type\": \"object\"\
            }\
          }\
        }",
    );
}

// type A = { x: number; y: string; z: boolean }
#[test]
fn object_with_primitives() {
    let mut index = DeclIndex::new();
    index.insert(
        "A".to_string(),
        TypeExpr::Object(vec![
            prop("x", TypeExpr::Prim(Prim::Num)),
            prop("y", TypeExpr::Prim(Prim::Str)),
            prop("z", TypeExpr::Prim(Prim::Bool)),
        ]),
    );
    let doc = resolve("A", &index).unwrap();
    let schema = to_json(&doc);
    assert_json_eq(
        &schema,
        "{\
          \"$schema\": \"http://json-schema.org/draft-07/schema\",\
          \"$ref\": \"#/definitions/A\",\
          \"definitions\": {\
            \"A\": {\
              \"type\": \"object\",\
              \"properties\": {\
                \"x\": {\
                  \"$ref\": \"#/definitions/number\"\
                },\
                \"y\": {\
                  \"$ref\": \"#/definitions/string\"\
                },\
                \"z\": {\
                  \"$ref\": \"#/definitions/boolean\"\
                }\
              }\
            },\
            \"boolean\": {\
              \"type\": \"boolean\"\
            },\
            \"number\": {\
              \"type\": \"number\"\
            },\
            \"string\": {\
              \"type\": \"string\"\
            }\
          }\
        }",
    );
}

// type A = { b: B }
// type B = {}
#[test]
fn nested_object() {
    let mut index = DeclIndex::new();
    index.insert(
        "A".to_string(),
        TypeExpr::Object(vec![prop("b", TypeExpr::Name("B".to_string()))]),
    );
    index.insert("B".to_string(), TypeExpr::Object(vec![]));
    let doc = resolve("A", &index).unwrap();
    let schema = to_json(&doc);
    assert_json_eq(
        &schema,
        "{\
          \"$schema\": \"http://json-schema.org/draft-07/schema\",\
          \"$ref\": \"#/definitions/A\",\
          \"definitions\": {\
            \"A\": {\
              \"type\": \"object\",\
              \"properties\": {\
                  \"b\": {\
                      \"$ref\": \"#/definitions/B\"\
                  }\
              }\
            },\
            \"B\": {\
              \"type\": \"object\"\
            }\
          }\
        }",
    );
}
