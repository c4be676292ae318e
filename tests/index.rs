use json_index::index::{flatten, IndexError, JsonIndexIterator, JsonIndexable};
use json_index::json_path::{JsonPath, PathFault};
use json_index::render::ToJsonPath;
use json_index::token::StackElement::{
    EndArray, EndObject, JsBoolean, JsKey, JsNull, JsNumber, JsString, StartArray, StartObject,
};
use json_index::token::{LeafValue, StackElement};
use serde_json::Value;

fn s(x: &str) -> String {
    x.to_string()
}

fn rows(tokens: Vec<StackElement>) -> Vec<String> {
    flatten(&tokens)
        .unwrap()
        .iter()
        .map(|(path, value)| format!("{} -> {}", path, value.to_text()))
        .collect()
}

#[test]
fn nested_arrays_are_numbered_per_level() {
    // [[1, 2], [3], [], null]
    let tokens = vec![
        StartArray,
        StartArray,
        JsNumber(s("1")),
        JsNumber(s("2")),
        EndArray,
        StartArray,
        JsNumber(s("3")),
        EndArray,
        StartArray,
        EndArray,
        JsNull,
        EndArray,
    ];
    assert_eq!(
        rows(tokens),
        vec![".[0][0] -> 1", ".[0][1] -> 2", ".[1][0] -> 3", ".[2] -> []", ".[3] -> null"]
    );
}

#[test]
fn root_scalar_is_at_root_path() {
    assert_eq!(rows(vec![JsNull]), vec![". -> null"]);
    assert_eq!(rows(vec![JsString(s("x"))]), vec![". -> \"x\""]);
}

#[test]
fn keys_are_retired_after_their_value() {
    // {"a": 1, "b": 2}
    let tokens = vec![
        StartObject,
        JsKey(s("a")),
        JsNumber(s("1")),
        JsKey(s("b")),
        JsNumber(s("2")),
        EndObject,
    ];
    assert_eq!(rows(tokens), vec![".a -> 1", ".b -> 2"]);
}

#[test]
fn nested_object_leaves_empty_stack() {
    // {"doo": {"eol": null}}
    let tokens = vec![
        StartObject,
        JsKey(s("doo")),
        StartObject,
        JsKey(s("eol")),
        JsNull,
        EndObject,
        EndObject,
    ];
    let mut path = JsonPath::new();
    let mut out = vec![];
    for token in &tokens {
        if let Some((p, v)) = path.advance(token).unwrap() {
            out.push(format!("{} -> {}", p, v.to_text()));
        }
    }
    assert_eq!(out, vec![".doo.eol -> null"]);
    assert!(path.is_empty());
    path.end_document().unwrap();
    assert!(path.is_empty());
}

#[test]
fn stack_is_empty_after_every_document_kind() {
    let documents = vec![
        vec![JsNull],
        vec![JsBoolean(true)],
        vec![StartArray, EndArray],
        vec![StartObject, EndObject],
        vec![StartArray, JsNull, StartObject, JsKey(s("k")), StartArray, EndArray, EndObject, EndArray],
        vec![StartObject, JsKey(s("a")), StartArray, JsNumber(s("1")), EndArray, EndObject],
    ];
    for tokens in documents {
        let mut path = JsonPath::new();
        for token in &tokens {
            path.advance(token).unwrap();
        }
        path.end_document().unwrap();
        assert!(path.is_empty(), "{:?}", tokens);
    }
}

#[test]
fn empty_object_emits_nothing() {
    assert!(rows(vec![StartObject, EndObject]).is_empty());
    assert!(rows(vec![StartArray, StartObject, EndObject, EndArray]).is_empty());
    // {"a": {}, "b": []}
    let tokens = vec![
        StartObject,
        JsKey(s("a")),
        StartObject,
        EndObject,
        JsKey(s("b")),
        StartArray,
        EndArray,
        EndObject,
    ];
    assert_eq!(rows(tokens), vec![".b -> []"]);
}

#[test]
fn dotted_key_is_quoted() {
    // {"a.b": true, "c": {"d.e": [false]}}
    let tokens = vec![
        StartObject,
        JsKey(s("a.b")),
        JsBoolean(true),
        JsKey(s("c")),
        StartObject,
        JsKey(s("d.e")),
        StartArray,
        JsBoolean(false),
        EndArray,
        EndObject,
        EndObject,
    ];
    assert_eq!(rows(tokens), vec![".\"a.b\" -> true", ".c.\"d.e\"[0] -> false"]);
}

#[test]
fn array_of_objects_keeps_index_and_key() {
    // [{"a": 1}, {"a": 2, "b": [[]]}]
    let tokens = vec![
        StartArray,
        StartObject,
        JsKey(s("a")),
        JsNumber(s("1")),
        EndObject,
        StartObject,
        JsKey(s("a")),
        JsNumber(s("2")),
        JsKey(s("b")),
        StartArray,
        StartArray,
        EndArray,
        EndArray,
        EndObject,
        EndArray,
    ];
    assert_eq!(rows(tokens), vec![".[0].a -> 1", ".[1].a -> 2", ".[1].b[0] -> []"]);
}

#[test]
fn consecutive_keys_fault() {
    let tokens = vec![StartObject, JsKey(s("a")), JsKey(s("b")), JsNull, EndObject];
    assert_eq!(flatten(&tokens), Err(IndexError::Structure(PathFault::ConsecutiveKeys)));
}

#[test]
fn unmatched_end_object_fault() {
    assert_eq!(
        flatten(&vec![EndObject]),
        Err(IndexError::Structure(PathFault::UnmatchedEndObject))
    );
    assert_eq!(
        flatten(&vec![StartArray, EndObject]),
        Err(IndexError::Structure(PathFault::UnmatchedEndObject))
    );
}

#[test]
fn unmatched_end_array_fault() {
    assert_eq!(
        flatten(&vec![EndArray]),
        Err(IndexError::Structure(PathFault::UnmatchedEndArray))
    );
    assert_eq!(
        flatten(&vec![StartObject, EndArray]),
        Err(IndexError::Structure(PathFault::UnmatchedEndArray))
    );
}

#[test]
fn unclosed_container_fault() {
    let tokens = vec![StartObject, JsKey(s("a")), JsNull];
    assert_eq!(flatten(&tokens), Err(IndexError::Structure(PathFault::UnclosedContainer)));
    assert_eq!(
        flatten(&vec![StartArray]),
        Err(IndexError::Structure(PathFault::UnclosedContainer))
    );
}

#[test]
fn invalid_number_fault() {
    let tokens = vec![StartArray, JsNumber(s("1")), JsNumber(s("1x")), EndArray];
    assert_eq!(flatten(&tokens), Err(IndexError::InvalidNumber(s("1x"))));
    // The number comes first, so its error wins over the later structural fault.
    let tokens = vec![StartArray, JsNumber(s("1e400")), EndObject];
    assert_eq!(flatten(&tokens), Err(IndexError::InvalidNumber(s("1e400"))));
}

#[test]
fn empty_token_sequence_emits_nothing() {
    assert_eq!(flatten(&vec![]), Ok(vec![]));
}

#[test]
fn advance_reports_pairs_as_they_complete() {
    let mut path = JsonPath::new();
    assert_eq!(path.advance(&StartArray), Ok(None));
    assert_eq!(path.as_json_path(), ".");
    assert_eq!(
        path.advance(&JsString(s("v"))),
        Ok(Some((s(".[0]"), LeafValue::Str(s("v")))))
    );
    assert_eq!(path.advance(&StartArray), Ok(None));
    assert_eq!(path.advance(&EndArray), Ok(Some((s(".[1]"), LeafValue::EmptyArray))));
    assert_eq!(path.advance(&EndArray), Ok(None));
    assert_eq!(path.end_document(), Ok(()));
}

#[test]
fn iterator_yields_pairs_then_none() {
    let tokens = vec![StartObject, JsKey(s("x")), JsNull, JsKey(s("y")), StartArray, EndArray, EndObject];
    let mut it = tokens.index_paths();
    assert_eq!(it.next(), Ok(Some((s(".x"), LeafValue::Null))));
    assert_eq!(it.next(), Ok(Some((s(".y"), LeafValue::EmptyArray))));
    assert_eq!(it.next(), Ok(None));
    assert_eq!(it.next(), Ok(None));
}

#[test]
fn iterator_stops_after_error() {
    let mut it = JsonIndexIterator::from(vec![StartObject, JsKey(s("x")), JsNull]);
    assert_eq!(it.next(), Ok(Some((s(".x"), LeafValue::Null))));
    assert_eq!(it.next(), Err(IndexError::Structure(PathFault::UnclosedContainer)));
    assert_eq!(it.next(), Ok(None));
}

#[test]
fn retraversal_gives_identical_paths() {
    let tokens = vec![
        StartObject,
        JsKey(s("a")),
        StartArray,
        JsNumber(s("1")),
        StartObject,
        JsKey(s("b")),
        JsNull,
        EndObject,
        EndArray,
        EndObject,
    ];
    let first = flatten(&tokens).unwrap();
    let second = flatten(&tokens.clone()).unwrap();
    assert_eq!(first, second);

    // The same tracker, reused after a finished document, behaves as a fresh one.
    let mut path = JsonPath::new();
    let mut runs = vec![];
    for _ in 0..2 {
        let mut out = vec![];
        for token in &tokens {
            if let Some(pair) = path.advance(token).unwrap() {
                out.push(pair);
            }
        }
        path.end_document().unwrap();
        runs.push(out);
    }
    assert_eq!(runs[0], first);
    assert_eq!(runs[1], first);
}

fn value_tokens(v: &Value, out: &mut Vec<StackElement>) {
    match v {
        Value::Null => out.push(JsNull),
        Value::Bool(b) => out.push(JsBoolean(*b)),
        Value::Number(n) => out.push(JsNumber(n.to_string())),
        Value::String(x) => out.push(JsString(x.clone())),
        Value::Array(items) => {
            out.push(StartArray);
            for item in items {
                value_tokens(item, out);
            }
            out.push(EndArray);
        }
        Value::Object(members) => {
            out.push(StartObject);
            for (k, item) in members {
                out.push(JsKey(k.clone()));
                value_tokens(item, out);
            }
            out.push(EndObject);
        }
    }
}

fn rooted(path: &str) -> String {
    if path.starts_with('.') {
        path.to_string()
    } else {
        format!(".{path}")
    }
}

fn reference_flatten(v: &Value, path: &str, out: &mut Vec<(String, String)>) {
    match v {
        Value::Array(items) if items.is_empty() => out.push((rooted(path), s("[]"))),
        Value::Array(items) => {
            for (i, item) in items.iter().enumerate() {
                reference_flatten(item, &format!("{path}[{i}]"), out);
            }
        }
        Value::Object(members) => {
            for (k, item) in members {
                let seg = if k.contains('.') { format!(".\"{k}\"") } else { format!(".{k}") };
                reference_flatten(item, &format!("{path}{seg}"), out);
            }
        }
        Value::Null => out.push((rooted(path), s("null"))),
        Value::Bool(b) => out.push((rooted(path), b.to_string())),
        Value::Number(n) => out.push((rooted(path), n.to_string())),
        Value::String(x) => out.push((rooted(path), format!("\"{x}\""))),
    }
}

#[test]
fn flattening_matches_reference_on_weather_document() {
    let text = r#"{
        "sol_keys": ["259", "260"],
        "259": {
            "AT": {"av": -71.233, "ct": 326642, "mn": -101.024, "mx": -27.149},
            "First_UTC": "2019-08-19T08:03:59Z",
            "Season": "fall",
            "WD": {},
            "PRE": {"av": 742.2, "ct": 88271}
        },
        "260": {"AT": {"av": -72.0, "ct": 300000}, "Season": "fall", "HWS": []},
        "validity_checks": {
            "sol_hours_required": 18,
            "sols_checked": ["259", "260"],
            "259": {"AT": {"sol_hours_with_data": [1, 2, 3], "valid": true}},
            "empty": []
        }
    }"#;
    let doc: Value = serde_json::from_str(text).unwrap();
    let mut tokens = vec![];
    value_tokens(&doc, &mut tokens);

    let mut expected = vec![];
    reference_flatten(&doc, "", &mut expected);

    let actual: Vec<(String, String)> = flatten(&tokens)
        .unwrap()
        .into_iter()
        .map(|(path, value)| (path, value.to_text()))
        .collect();

    // 20 scalars and 2 empty arrays.
    assert_eq!(actual.len(), 22);
    assert_eq!(actual, expected);
}

#[test]
fn iterator_skips_empty_objects() {
    let mut it = JsonIndexIterator::from(vec![StartObject, EndObject]);
    assert_eq!(it.next(), Ok(None));

    // {"x": {}, "y": 1}
    let tokens = vec![
        StartObject,
        JsKey(s("x")),
        StartObject,
        EndObject,
        JsKey(s("y")),
        JsNumber(s("1")),
        EndObject,
    ];
    let mut it = tokens.index_paths();
    assert_eq!(it.next(), Ok(Some((s(".y"), LeafValue::Number(s("1"))))));
    assert_eq!(it.next(), Ok(None));
}

#[test]
fn iterator_fails_on_undecodable_number() {
    let mut it = JsonIndexIterator::from(vec![StartArray, JsNumber(s("1x")), EndArray]);
    assert_eq!(it.next(), Err(IndexError::InvalidNumber(s("1x"))));
    assert_eq!(it.next(), Ok(None));
}
