use vstd::prelude::*;
use crate::value::{Annotated, Meta, Object, Val};

verus! {

/// A JSON number as the JSON codec holds it.
#[verifier::external_type_specification]
#[verifier::external_body]
pub struct ExNumber(serde_json::Number);

/// A JSON tree as the JSON codec holds it.
#[verifier::external_type_specification]
#[verifier::external_body]
pub struct ExJsonValue(serde_json::Value);

/// Relies on the derived `Clone` of `serde_json::Number`: a copy of its digits.
pub assume_specification[ <serde_json::Number as std::clone::Clone>::clone ](
    n: &serde_json::Number,
) -> (r: serde_json::Number)
    ensures
        r == *n,
;

/// The JSON codec's number as a signed integer, where it is one.
pub assume_specification[ serde_json::Number::as_i64 ](n: &serde_json::Number) -> Option<i64>;

/// The JSON codec's number as an unsigned integer, where it is one.
pub assume_specification[ serde_json::Number::as_u64 ](n: &serde_json::Number) -> Option<u64>;

/// One level of a parsed JSON tree.
pub enum JsonNode {
    Null,
    Bool(bool),
    Number(serde_json::Number),
    Str(String),
    Array(Vec<serde_json::Value>),
    Object(Vec<(String, serde_json::Value)>),
}

/// Why a text is not JSON.
#[derive(Debug, PartialEq)]
pub struct JsonError {
    pub message: String,
}

/// Whether `serde_json::from_str` accepts `text` as JSON.
pub uninterp spec fn is_json(text: Seq<char>) -> bool;

/// Relies on `serde_json::from_str`: the JSON tree of `text`, or the codec's
/// description of why it is malformed.
#[verifier::external_body]
fn parse_text(text: &str) -> (r: Result<serde_json::Value, String>)
    ensures
        r is Ok == is_json(text@),
{
    match serde_json::from_str::<serde_json::Value>(text) {
        Ok(v) => Ok(v),
        Err(e) => Err(e.to_string()),
    }
}

/// Relies on the variants of `serde_json::Value`: splits off the top level
/// of a tree, object entries in their stored order.
#[verifier::external_body]
fn unpack(v: serde_json::Value) -> (r: JsonNode) {
    match v {
        serde_json::Value::Null => JsonNode::Null,
        serde_json::Value::Bool(b) => JsonNode::Bool(b),
        serde_json::Value::Number(n) => JsonNode::Number(n),
        serde_json::Value::String(s) => JsonNode::Str(s),
        serde_json::Value::Array(a) => JsonNode::Array(a),
        serde_json::Value::Object(m) => JsonNode::Object(m.into_iter().collect()),
    }
}

/// Relies on the variants of `serde_json::Value`: the tree of one level
/// whose children are already trees.
#[verifier::external_body]
fn pack(node: JsonNode) -> (r: serde_json::Value) {
    match node {
        JsonNode::Null => serde_json::Value::Null,
        JsonNode::Bool(b) => serde_json::Value::Bool(b),
        JsonNode::Number(n) => serde_json::Value::Number(n),
        JsonNode::Str(s) => serde_json::Value::String(s),
        JsonNode::Array(a) => serde_json::Value::Array(a),
        JsonNode::Object(m) => serde_json::Value::Object(m.into_iter().collect()),
    }
}

/// Relies on `serde_json::Number::from` for `i64`.
#[verifier::external_body]
fn number_of_i64(n: i64) -> (r: serde_json::Number) {
    serde_json::Number::from(n)
}

/// Relies on `serde_json::Number::from` for `u64`.
#[verifier::external_body]
fn number_of_u64(n: u64) -> (r: serde_json::Number) {
    serde_json::Number::from(n)
}

/// Relies on `serde_json::to_string`: the compact text of a tree.
#[verifier::external_body]
fn compact_text(v: &serde_json::Value) -> (r: String) {
    serde_json::to_string(v).unwrap_or_default()
}

/// Relies on `serde_json::to_string_pretty`: the text of a tree indented by
/// two spaces.
#[verifier::external_body]
fn pretty_text(v: &serde_json::Value) -> (r: String) {
    serde_json::to_string_pretty(v).unwrap_or_default()
}

/// How deeply input may nest before it is refused.
pub const MAX_DEPTH: u32 = 128;

/// The value of a number: a signed integer where it fits, else an unsigned
/// one, else carried as it is.
fn number_value(n: serde_json::Number) -> (r: Val) {
    match n.as_i64() {
        Some(i) => Val::I64(i),
        None => match n.as_u64() {
            Some(u) => Val::U64(u),
            None => Val::Float(n),
        },
    }
}

/// Builds the annotated value of a JSON tree. Nesting deeper than `depth`
/// levels becomes an error on the enclosing annotation.
pub fn annotated_of_json(v: serde_json::Value, depth: u32) -> (r: Annotated<Val>)
    ensures
        depth == 0 ==> (r.0 is None && r.1.errors@.len() == 1 && r.1.errors@[0]@ == "value nested too deeply"@
            && r.1.remarks@.len() == 0 && r.1.original_length is None && r.1.original_value is None),
        depth > 0 ==> (r.0 is Some && r.1.blank()),
    decreases depth,
{
    if depth == 0 {
        let mut meta = Meta::new();
        meta.add_error("value nested too deeply".to_owned(), None);
        proof {
            assert(meta.errors@[0]@ == "value nested too deeply"@);
        }
        return Annotated(None, meta);
    }
    let value = match unpack(v) {
        JsonNode::Null => Val::Null,
        JsonNode::Bool(b) => Val::Bool(b),
        JsonNode::Number(n) => number_value(n),
        JsonNode::Str(s) => Val::String(s),
        JsonNode::Array(mut items) => {
            let mut out: Vec<Annotated<Val>> = Vec::new();
            while items.len() > 0
                invariant
                    depth > 0,
                decreases items.len(),
            {
                let item = items.remove(0);
                out.push(annotated_of_json(item, depth - 1));
            }
            Val::Array(out)
        },
        JsonNode::Object(mut entries) => {
            let mut out: Object<Val> = Object::new();
            while entries.len() > 0
                invariant
                    depth > 0,
                    out.wf(),
                decreases entries.len(),
            {
                let (key, item) = entries.remove(0);
                out.push(key, annotated_of_json(item, depth - 1));
            }
            Val::Object(out)
        },
    };
    Annotated::new(value)
}

/// Parses JSON text into an annotated value.
pub fn parse_annotated(text: &str) -> (r: Result<Annotated<Val>, JsonError>)
    ensures
        r is Ok == is_json(text@),
        r matches Ok(a) ==> (a.0 is Some && a.1.blank()),
{
    match parse_text(text) {
        Ok(v) => Ok(annotated_of_json(v, MAX_DEPTH)),
        Err(message) => Err(JsonError { message }),
    }
}

/// The JSON tree of a value.
pub fn json_of_val(v: &Val) -> (r: serde_json::Value)
    decreases v, 0nat,
{
    match v {
        Val::Null => pack(JsonNode::Null),
        Val::Bool(b) => pack(JsonNode::Bool(*b)),
        Val::I64(i) => pack(JsonNode::Number(number_of_i64(*i))),
        Val::U64(u) => pack(JsonNode::Number(number_of_u64(*u))),
        Val::Float(n) => pack(JsonNode::Number(n.clone())),
        Val::String(s) => pack(JsonNode::Str(s.clone())),
        Val::Array(items) => {
            let mut out: Vec<serde_json::Value> = Vec::new();
            let mut i: usize = 0;
            while i < items.len()
                invariant
                    *v == Val::Array(*items),
                decreases items.len() - i,
            {
                proof {
                    assert(decreases_to!(*v => (*v)->Array_0));
                    assert(decreases_to!(*items => items@));
                    assert(decreases_to!(items@ => items@[i as int]));
                }
                out.push(json_of_annotated(&items[i]));
                i = i + 1;
            }
            pack(JsonNode::Array(out))
        },
        Val::Object(o) => {
            let mut out: Vec<(String, serde_json::Value)> = Vec::new();
            let mut i: usize = 0;
            while i < o.entries.len()
                invariant
                    *v == Val::Object(*o),
                decreases o.entries.len() - i,
            {
                let child = &o.entries[i].1;
                proof {
                    assert(decreases_to!(*v => (*v)->Object_0));
                    assert(decreases_to!(*o => o.entries));
                    assert(decreases_to!(o.entries => o.entries@));
                    assert(decreases_to!(o.entries@ => o.entries@[i as int]));
                    assert(decreases_to!(o.entries@[i as int] => o.entries@[i as int].1));
                }
                if child.0.is_some() || !child.1.is_empty() {
                    out.push((o.entries[i].0.clone(), json_of_annotated(child)));
                }
                i = i + 1;
            }
            pack(JsonNode::Object(out))
        },
    }
}

/// The JSON tree of an annotated value's data: an absent value is null.
pub fn json_of_annotated(a: &Annotated<Val>) -> (r: serde_json::Value)
    decreases a, 1nat,
{
    match &a.0 {
        None => pack(JsonNode::Null),
        Some(v) => json_of_val(v),
    }
}

/// The decimal digits of `n`.
fn decimal(n: usize) -> (r: String) {
    let mut digits: Vec<char> = Vec::new();
    let mut rest = n;
    loop
        decreases rest,
    {
        let d = (rest % 10) as u32;
        digits.insert(0, if d == 0 { '0' } else if d == 1 { '1' } else if d == 2 { '2' } else if d == 3 { '3' }
            else if d == 4 { '4' } else if d == 5 { '5' } else if d == 6 { '6' } else if d == 7 { '7' }
            else if d == 8 { '8' } else { '9' });
        rest = rest / 10;
        if rest == 0 {
            break;
        }
    }
    crate::text::string_of(&digits)
}

/// The JSON tree of a list of strings.
fn json_of_strings(items: &Vec<String>) -> (r: serde_json::Value) {
    let mut out: Vec<serde_json::Value> = Vec::new();
    let mut i: usize = 0;
    while i < items.len()
        decreases items.len() - i,
    {
        out.push(pack(JsonNode::Str(items[i].clone())));
        i = i + 1;
    }
    pack(JsonNode::Array(out))
}

/// The JSON form of one meta: `err`, `val`, `rem` and `len`, each where set.
fn json_of_meta(m: &Meta) -> (r: serde_json::Value) {
    let mut out: Vec<(String, serde_json::Value)> = Vec::new();
    if m.errors.len() > 0 {
        out.push(("err".to_owned(), json_of_strings(&m.errors)));
    }
    match &m.original_value {
        Some(v) => out.push(("val".to_owned(), json_of_val(v))),
        None => {},
    }
    if m.remarks.len() > 0 {
        out.push(("rem".to_owned(), json_of_strings(&m.remarks)));
    }
    match m.original_length {
        Some(n) => out.push(("len".to_owned(), pack(JsonNode::Number(number_of_u64(n))))),
        None => {},
    }
    pack(JsonNode::Object(out))
}

/// The compact JSON text of a value's data.
pub fn compact_data(v: &Val) -> (r: String) {
    compact_text(&json_of_val(v))
}

/// The meta tree of an annotated value: its own meta under `""`, the meta
/// trees of its children under their keys (array children under their
/// index); none where nothing in it is annotated.
pub fn meta_tree(a: &Annotated<Val>) -> (r: Option<serde_json::Value>)
    decreases a,
{
    let mut out: Vec<(String, serde_json::Value)> = Vec::new();
    if !a.1.is_empty() || a.1.original_value.is_some() {
        out.push(("".to_owned(), json_of_meta(&a.1)));
    }
    match &a.0 {
        Some(Val::Array(items)) => {
            let mut i: usize = 0;
            while i < items.len()
                invariant
                    a.0 == Some(Val::Array(*items)),
                decreases items.len() - i,
            {
                proof {
                    assert(decreases_to!(*a => a.0));
                    assert(decreases_to!(a.0 => a.0->Some_0));
                    assert(decreases_to!(a.0->Some_0 => a.0->Some_0->Array_0));
                    assert(decreases_to!(*items => items@));
                    assert(decreases_to!(items@ => items@[i as int]));
                }
                match meta_tree(&items[i]) {
                    Some(t) => out.push((decimal(i), t)),
                    None => {},
                }
                i = i + 1;
            }
        },
        Some(Val::Object(o)) => {
            let mut i: usize = 0;
            while i < o.entries.len()
                invariant
                    a.0 == Some(Val::Object(*o)),
                decreases o.entries.len() - i,
            {
                proof {
                    assert(decreases_to!(*a => a.0));
                    assert(decreases_to!(a.0 => a.0->Some_0));
                    assert(decreases_to!(a.0->Some_0 => a.0->Some_0->Object_0));
                    assert(decreases_to!(*o => o.entries));
                    assert(decreases_to!(o.entries => o.entries@));
                    assert(decreases_to!(o.entries@ => o.entries@[i as int]));
                    assert(decreases_to!(o.entries@[i as int] => o.entries@[i as int].1));
                }
                match meta_tree(&o.entries[i].1) {
                    Some(t) => out.push((o.entries[i].0.clone(), t)),
                    None => {},
                }
                i = i + 1;
            }
        },
        _ => {},
    }
    if out.len() == 0 {
        None
    } else {
        Some(pack(JsonNode::Object(out)))
    }
}

/// The JSON text of an annotated value: its data, and where an object holds
/// annotations, their meta tree under `_meta` after its keys.
pub fn text_of_annotated(a: &Annotated<Val>, pretty: bool) -> (r: String) {
    let data = json_of_annotated(a);
    let tree = match meta_tree(a) {
        Some(tree) => match unpack(data) {
            JsonNode::Object(mut entries) => {
                entries.push(("_meta".to_owned(), tree));
                pack(JsonNode::Object(entries))
            },
            other => pack(other),
        },
        None => data,
    };
    if pretty {
        pretty_text(&tree)
    } else {
        compact_text(&tree)
    }
}

} // verus!
