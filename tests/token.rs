use json_index::token::{LeafValue, StackElement};

fn s(x: &str) -> String {
    x.to_string()
}

#[test]
fn pop_tokens_are_the_closing_ones() {
    assert!(StackElement::EndObject.is_pop_token());
    assert!(StackElement::EndArray.is_pop_token());
    assert!(!StackElement::StartObject.is_pop_token());
    assert!(!StackElement::StartArray.is_pop_token());
    assert!(!StackElement::JsNull.is_pop_token());
    assert!(!StackElement::JsKey(s("k")).is_pop_token());
}

#[test]
fn value_tokens_are_the_scalars() {
    assert!(StackElement::JsNull.is_value());
    assert!(StackElement::JsBoolean(false).is_value());
    assert!(StackElement::JsNumber(s("1")).is_value());
    assert!(StackElement::JsString(s("x")).is_value());
    assert!(!StackElement::JsKey(s("x")).is_value());
    assert!(!StackElement::EndArray.is_value());
}

#[test]
fn as_value_decodes_scalars() {
    assert_eq!(StackElement::JsNull.as_value(), Some(LeafValue::Null));
    assert_eq!(StackElement::JsBoolean(true).as_value(), Some(LeafValue::Bool(true)));
    assert_eq!(StackElement::JsString(s("hi")).as_value(), Some(LeafValue::Str(s("hi"))));
    assert_eq!(StackElement::StartObject.as_value(), None);
    assert_eq!(StackElement::JsKey(s("k")).as_value(), None);
}

#[test]
fn as_value_keeps_number_literal() {
    assert_eq!(
        StackElement::JsNumber(s("-123.4500e-7")).as_value(),
        Some(LeafValue::Number(s("-123.4500e-7")))
    );
    assert_eq!(StackElement::JsNumber(s("0")).as_value(), Some(LeafValue::Number(s("0"))));
    assert_eq!(
        StackElement::JsNumber(s("18446744073709551616")).as_value(),
        Some(LeafValue::Number(s("18446744073709551616")))
    );
}

#[test]
fn as_value_rejects_undecodable_numbers() {
    assert_eq!(StackElement::JsNumber(s("")).as_value(), None);
    assert_eq!(StackElement::JsNumber(s("1x")).as_value(), None);
    assert_eq!(StackElement::JsNumber(s("01")).as_value(), None);
    assert_eq!(StackElement::JsNumber(s("1e400")).as_value(), None);
}

#[test]
fn to_leaf_follows_the_decoding_verdict() {
    let n = StackElement::JsNumber(s("7"));
    assert_eq!(n.to_leaf(true), Some(LeafValue::Number(s("7"))));
    assert_eq!(n.to_leaf(false), None);
    assert_eq!(StackElement::JsNull.to_leaf(false), Some(LeafValue::Null));
    assert_eq!(StackElement::EndObject.to_leaf(true), None);
}

#[test]
fn leaf_value_text() {
    assert_eq!(LeafValue::Null.to_text(), "null");
    assert_eq!(LeafValue::Bool(true).to_text(), "true");
    assert_eq!(LeafValue::Bool(false).to_text(), "false");
    assert_eq!(LeafValue::Number(s("1.50")).to_text(), "1.50");
    assert_eq!(LeafValue::Str(s("bar")).to_text(), "\"bar\"");
    assert_eq!(LeafValue::EmptyArray.to_text(), "[]");
}
