//! The tree as JSON, built and written by `serde_json`.

use crate::node;
use crate::node::{Node, SemanticNode};
use vstd::prelude::*;

verus! {

/// A value of `serde_json`; `json` says what it holds.
#[verifier::external_type_specification]
#[verifier::external_body]
pub struct ExValue(serde_json::Value);

/// The error of `serde_json`.
#[verifier::external_type_specification]
#[verifier::external_body]
pub struct ExError(serde_json::Error);

/// What a JSON value is.
pub enum Json {
    Text(Seq<char>),
    Number(nat),
    List(Seq<Json>),
    Object(Map<Seq<char>, Json>),
}

/// What a value of `serde_json` holds.
pub uninterp spec fn json(value: serde_json::Value) -> Json;

/// The text that `serde_json` writes for a JSON value.
pub uninterp spec fn json_text(value: Json) -> Seq<char>;

/// What a sequence of values holds.
pub open spec fn jsons(values: Seq<serde_json::Value>) -> Seq<Json> {
    values.map_values(|value: serde_json::Value| json(value))
}

/// What a sequence of keys and values holds.
pub open spec fn entries(pairs: Seq<(String, serde_json::Value)>) -> Seq<(Seq<char>, Json)> {
    pairs.map_values(|pair: (String, serde_json::Value)| (pair.0@, json(pair.1)))
}

/// Whether no key occurs twice.
pub open spec fn has_distinct_keys(pairs: Seq<(Seq<char>, Json)>) -> bool {
    forall|i: int, j: int|
        0 <= i < j < pairs.len() ==> (#[trigger] pairs[i]).0 != (#[trigger] pairs[j]).0
}

/// The map from the keys to their values.
pub open spec fn object_of(pairs: Seq<(Seq<char>, Json)>) -> Map<Seq<char>, Json>
    decreases pairs.len(),
{
    if pairs.len() == 0 {
        Map::empty()
    } else {
        object_of(pairs.drop_last()).insert(pairs.last().0, pairs.last().1)
    }
}

/// The entries of a node's JSON object: each field under its own name.
pub open spec fn fields(n: Node, children: Seq<Json>) -> Seq<(Seq<char>, Json)> {
    seq![
        ("id"@, Json::Text(n.id)),
        ("node_type"@, Json::Text(n.node_type)),
        ("label"@, Json::Text(n.label)),
        ("start_line"@, Json::Number(n.start_line as nat)),
        ("start_col"@, Json::Number(n.start_col as nat)),
        ("end_line"@, Json::Number(n.end_line as nat)),
        ("end_col"@, Json::Number(n.end_col as nat)),
        ("content_hash"@, Json::Text(n.content_hash)),
        ("children"@, Json::List(children)),
    ]
}

/// The JSON object of a node.
pub open spec fn node_json(n: Node) -> Json
    decreases n,
{
    Json::Object(object_of(fields(n, node_jsons(n.children))))
}

/// The JSON objects of a sequence of nodes.
pub open spec fn node_jsons(nodes: Seq<Node>) -> Seq<Json>
    decreases nodes,
{
    Seq::new(
        nodes.len(),
        |i: int|
            if 0 <= i < nodes.len() {
                node_json(nodes[i])
            } else {
                arbitrary()
            },
    )
}

/// The fields of a node have different names.
pub proof fn lemma_fields_are_distinct(n: Node, children: Seq<Json>)
    ensures
        has_distinct_keys(fields(n, children)),
{
    reveal_strlit("id");
    reveal_strlit("node_type");
    reveal_strlit("label");
    reveal_strlit("start_line");
    reveal_strlit("start_col");
    reveal_strlit("end_line");
    reveal_strlit("end_col");
    reveal_strlit("content_hash");
    reveal_strlit("children");
    let f = fields(n, children);
    assert(f[0].0.len() == 2 && f[1].0.len() == 9 && f[2].0.len() == 5);
    assert(f[3].0.len() == 10 && f[4].0.len() == 9 && f[5].0.len() == 8);
    assert(f[6].0.len() == 7 && f[7].0.len() == 12 && f[8].0.len() == 8);
    assert(f[1].0[0] == 'n' && f[4].0[0] == 's');
    assert(f[5].0[0] == 'e' && f[8].0[0] == 'c');
}

/// `Value::from` on a string slice gives the JSON string with the same text.
#[verifier::external_body]
fn text_value(s: &str) -> (value: serde_json::Value)
    ensures
        json(value) == Json::Text(s@),
{
    serde_json::Value::from(s)
}

/// `Value::from` on an unsigned integer gives the JSON number with the same value.
#[verifier::external_body]
fn number_value(n: u32) -> (value: serde_json::Value)
    ensures
        json(value) == Json::Number(n as nat),
{
    serde_json::Value::from(n)
}

/// `Value::from` on a vector of values gives the JSON array of them, in order.
#[verifier::external_body]
fn list_value(values: Vec<serde_json::Value>) -> (value: serde_json::Value)
    ensures
        json(value) == Json::List(jsons(values@)),
{
    serde_json::Value::from(values)
}

/// `Value::from_iter` on pairs of a key and a value gives the JSON object that maps each key to
/// its value. Nothing is claimed for a key that occurs twice.
#[verifier::external_body]
fn object_value(pairs: Vec<(String, serde_json::Value)>) -> (value: serde_json::Value)
    requires
        has_distinct_keys(entries(pairs@)),
    ensures
        json(value) == Json::Object(object_of(entries(pairs@))),
{
    serde_json::Value::from_iter(pairs)
}

/// `serde_json::to_string` writes a value as JSON text, which what the value holds alone decides.
/// It fails only where a `Serialize` impl fails or a map has keys that are not strings; neither
/// happens for a `Value`.
#[verifier::external_body]
fn write_value(value: &serde_json::Value) -> (written: Result<String, serde_json::Error>)
    ensures
        written is Ok,
        written matches Ok(text) ==> text@ == json_text(json(*value)),
{
    serde_json::to_string(value)
}

/// Builds the JSON object of a node.
fn node_value(n: &SemanticNode) -> (value: serde_json::Value)
    ensures
        json(value) == node_json(n@),
    decreases n,
{
    let mut children: Vec<serde_json::Value> = Vec::new();
    let mut i: usize = 0;
    while i < n.children.len()
        invariant
            i <= n.children@.len(),
            children@.len() == i,
            forall|j: int| 0 <= j < i ==> json(#[trigger] children@[j]) == node_json(n.children@[j]@),
        decreases n.children@.len() - i,
    {
        children.push(node_value(&n.children[i]));
        i += 1;
    }
    let ghost child_jsons = jsons(children@);
    proof {
        reveal_with_fuel(node_jsons, 2);
        node::lemma_view_children(*n);
        assert(child_jsons =~= node_jsons(n@.children));
    }
    let pairs: Vec<(String, serde_json::Value)> = vec![
        ("id".to_owned(), text_value(n.id.as_str())),
        ("node_type".to_owned(), text_value(n.node_type.as_str())),
        ("label".to_owned(), text_value(n.label.as_str())),
        ("start_line".to_owned(), number_value(n.start_line)),
        ("start_col".to_owned(), number_value(n.start_col)),
        ("end_line".to_owned(), number_value(n.end_line)),
        ("end_col".to_owned(), number_value(n.end_col)),
        ("content_hash".to_owned(), text_value(n.content_hash.as_str())),
        ("children".to_owned(), list_value(children)),
    ];
    assert(entries(pairs@) =~= fields(n@, child_jsons));
    proof {
        lemma_fields_are_distinct(n@, child_jsons);
    }
    object_value(pairs)
}

/// What to put out for the outcome of writing a tree: the text, or a JSON object with the message
/// of the error.
pub open spec fn output(written: Result<Seq<char>, Seq<char>>) -> Seq<char> {
    match written {
        Ok(text) => text,
        Err(message) => "{\"error\":\"Serialisation error: "@ + message + "\"}"@,
    }
}

/// What to put out for the outcome of writing a tree: the text, or a JSON object with the message
/// of the error.
pub fn text_or_error(written: Result<String, String>) -> (out: String)
    ensures
        out@ == output(
            match written {
                Ok(text) => Ok(text@),
                Err(message) => Err(message@),
            },
        ),
{
    match written {
        Ok(text) => text,
        Err(message) => {
            let mut out = "{\"error\":\"Serialisation error: ".to_owned();
            out.append(message.as_str());
            out.append("\"}");
            out
        },
    }
}

/// The JSON text of a tree.
pub fn to_json(n: &SemanticNode) -> (out: String)
    ensures
        out@ == json_text(node_json(n@)),
{
    let value = node_value(n);
    match write_value(&value) {
        Ok(text) => text_or_error(Ok(text)),
        Err(error) => text_or_error(Err(error.to_string())),
    }
}

} // verus!
