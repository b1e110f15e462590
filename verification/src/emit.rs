//! Serialization of a schema document to one line of JSON text, with the
//! definitions written in their sorted table order.
use vstd::prelude::*;
use crate::types::{
    prim_name, Prim, Fragment, FragModel, SchemaMap, SchemaDocument, frag_model, entries_model,
    lemma_entries_model_index,
};
use crate::translate::prim_string;

verus! {

/// JSON escaping of one character: quotes and backslashes take a backslash.
pub open spec fn esc_char(c: char) -> Seq<char> {
    if c == '"' {
        "\\\""@
    } else if c == '\\' {
        "\\\\"@
    } else {
        seq![c]
    }
}

/// JSON escaping of a whole name.
pub open spec fn esc(s: Seq<char>) -> Seq<char>
    decreases s.len(),
{
    if s.len() == 0 {
        Seq::empty()
    } else {
        esc(s.drop_last()) + esc_char(s.last())
    }
}

/// A name as a JSON string literal.
pub open spec fn quoted(s: Seq<char>) -> Seq<char> {
    "\""@ + esc(s) + "\""@
}

/// The JSON text of one schema fragment.
pub open spec fn frag_json(m: FragModel) -> Seq<char>
    decreases m,
{
    match m {
        FragModel::Leaf(k) => "{\"type\":\""@ + prim_name(k) + "\"}"@,
        FragModel::Reference(n) => "{\"$ref\":\"#/definitions/"@ + esc(n) + "\"}"@,
        FragModel::Array(b) => "{\"type\":\"array\",\"items\":"@ + frag_json(*b) + "}"@,
        FragModel::Object(entries) => if entries.len() == 0 {
            "{\"type\":\"object\"}"@
        } else {
            "{\"type\":\"object\",\"properties\":{"@ + entries_json(entries) + "}}"@
        },
    }
}

/// The members of a JSON object, comma-separated, in table order.
pub open spec fn entries_json(s: Seq<(Seq<char>, FragModel)>) -> Seq<char>
    decreases s,
{
    if s.len() == 0 {
        Seq::empty()
    } else if s.len() == 1 {
        quoted(s[0].0) + ":"@ + frag_json(s[0].1)
    } else {
        entries_json(s.drop_last()) + ","@ + quoted(s.last().0) + ":"@ + frag_json(s.last().1)
    }
}

/// The complete document on the wire.
pub open spec fn doc_json(root: Seq<char>, defs: Seq<(Seq<char>, FragModel)>) -> Seq<char> {
    "{\"$schema\":\"http://json-schema.org/draft-07/schema\",\"$ref\":\"#/definitions/"@ + esc(
        root,
    ) + "\",\"definitions\":{"@ + entries_json(defs) + "}}"@
}

fn append_escaped(out: &mut String, s: &str)
    ensures
        final(out)@ == old(out)@ + esc(s@),
{
    let n = s.unicode_len();
    let mut i: usize = 0;
    proof {
        assert(s@.take(0) =~= Seq::<char>::empty());
        assert(old(out)@ + esc(s@.take(0)) =~= old(out)@);
    }
    while i < n
        invariant
            n == s@.len(),
            0 <= i <= n,
            out@ == old(out)@ + esc(s@.take(i as int)),
        decreases n - i,
    {
        let c = s.get_char(i);
        proof {
            assert(s@.take(i + 1).drop_last() =~= s@.take(i as int));
            assert(s@.take(i + 1).last() == s@[i as int]);
        }
        if c == '"' {
            out.append("\\\"");
        } else if c == '\\' {
            out.append("\\\\");
        } else {
            let piece = s.substring_char(i, i + 1);
            proof {
                assert(piece@ =~= seq![s@[i as int]]);
            }
            out.append(piece);
        }
        proof {
            assert(out@ =~= old(out)@ + esc(s@.take(i + 1)));
        }
        i += 1;
    }
    proof {
        assert(s@.take(n as int) =~= s@);
    }
}

fn append_quoted(out: &mut String, s: &str)
    ensures
        final(out)@ == old(out)@ + quoted(s@),
{
    out.append("\"");
    append_escaped(out, s);
    out.append("\"");
    proof {
        assert(out@ =~= old(out)@ + quoted(s@));
    }
}

/// Writes one fragment as JSON.
pub fn emit_frag(f: &Fragment, out: &mut String)
    ensures
        final(out)@ == old(out)@ + frag_json(frag_model(*f)),
    decreases *f,
{
    match f {
        Fragment::Leaf(k) => {
            out.append("{\"type\":\"");
            let p = prim_string(*k);
            out.append(p.as_str());
            out.append("\"}");
            proof {
                assert(out@ =~= old(out)@ + frag_json(frag_model(*f)));
            }
        },
        Fragment::Reference(n) => {
            out.append("{\"$ref\":\"#/definitions/");
            append_escaped(out, n.as_str());
            out.append("\"}");
            proof {
                assert(out@ =~= old(out)@ + frag_json(frag_model(*f)));
            }
        },
        Fragment::Array(b) => {
            out.append("{\"type\":\"array\",\"items\":");
            emit_frag(b, out);
            out.append("}");
            proof {
                assert(out@ =~= old(out)@ + frag_json(frag_model(*f)));
            }
        },
        Fragment::Object(m) => {
            proof {
                lemma_entries_model_index(m.entries@);
            }
            if m.entries.len() == 0 {
                out.append("{\"type\":\"object\"}");
                proof {
                    assert(out@ =~= old(out)@ + frag_json(frag_model(*f)));
                }
            } else {
                out.append("{\"type\":\"object\",\"properties\":{");
                emit_entries(&m.entries, out);
                out.append("}}");
                proof {
                    assert(out@ =~= old(out)@ + frag_json(frag_model(*f)));
                }
            }
        },
    }
}

/// Writes a non-empty fragment table's members as JSON.
fn emit_entries(v: &Vec<(String, Fragment)>, out: &mut String)
    requires
        v@.len() > 0,
    ensures
        final(out)@ == old(out)@ + entries_json(entries_model(v@)),
    decreases v@,
{
    proof {
        lemma_entries_model_index(v@);
    }
    let n = v.len();
    let mut i: usize = 0;
    while i < n
        invariant
            n == v@.len(),
            0 <= i <= n,
            entries_model(v@).len() == n,
            forall|j: int|
                0 <= j < n ==> #[trigger] entries_model(v@)[j] == (
                v@[j].0@,
                frag_model(v@[j].1),
            ),
            out@ == old(out)@ + entries_json(entries_model(v@).take(i as int)),
        decreases n - i,
    {
        proof {
            assert(entries_model(v@).take(i + 1).drop_last() =~= entries_model(v@).take(i as int));
            assert(entries_model(v@).take(i + 1).last() == entries_model(v@)[i as int]);
        }
        if i > 0 {
            out.append(",");
        }
        append_quoted(out, v[i].0.as_str());
        out.append(":");
        emit_frag(&v[i].1, out);
        proof {
            if i == 0 {
                assert(entries_model(v@).take(1)[0] == entries_model(v@)[0]);
                assert(entries_model(v@).take(1).len() == 1);
            }
            assert(out@ =~= old(out)@ + entries_json(entries_model(v@).take(i + 1)));
        }
        i += 1;
    }
    proof {
        assert(entries_model(v@).take(n as int) =~= entries_model(v@));
    }
}

/// The document as one line of JSON.
pub fn to_json(doc: &SchemaDocument) -> (r: String)
    ensures
        r@ == doc_json(doc.root@, doc.definitions.models()),
{
    let mut out = String::new();
    out.append("{\"$schema\":\"http://json-schema.org/draft-07/schema\",\"$ref\":\"#/definitions/");
    append_escaped(&mut out, doc.root.as_str());
    out.append("\",\"definitions\":{");
    if doc.definitions.entries.len() > 0 {
        emit_entries(&doc.definitions.entries, &mut out);
    } else {
        proof {
            assert(entries_json(doc.definitions.models()) =~= Seq::<char>::empty());
        }
    }
    out.append("}}");
    proof {
        assert(out@ =~= doc_json(doc.root@, doc.definitions.models()));
    }
    out
}

} // verus!
