//! Values held against schemas.

use serde_json::Value;
use zcode::schema::compile::CompiledSchema;
use zcode::schema::error::{JsonType, ValidationIssue};
use zcode::schema::json::{Json, Member, Number, NumberKind};
use zcode::schema::numbers::collect_numbers;
use zcode::schema::validate::validate_root;

fn number(n: &serde_json::Number) -> Number {
    let value = n.as_f64().expect("a number that fits");
    let kind = match (n.as_u64(), n.as_i64()) {
        (Some(u), _) => NumberKind::Unsigned(u),
        (None, Some(i)) => NumberKind::Negative(i),
        _ => NumberKind::Float,
    };
    Number { kind, bits: value.to_bits(), text: format!("{value}") }
}

fn convert(value: &Value) -> Json {
    match value {
        Value::Null => Json::Null,
        Value::Bool(b) => Json::Flag(*b),
        Value::Number(n) => Json::Number(number(n)),
        Value::String(s) => Json::Text(s.clone()),
        Value::Array(l) => Json::List(l.iter().map(convert).collect()),
        Value::Object(m) => Json::Object(
            m.iter().map(|(k, v)| Member { key: k.clone(), value: convert(v) }).collect(),
        ),
    }
}

fn json(text: &str) -> Json {
    convert(&serde_json::from_str::<Value>(text).expect("valid JSON"))
}

fn issues_for(schema: &Json, instance: &Json) -> Vec<ValidationIssue> {
    let mut out = Vec::new();
    validate_root(schema, &uneven(schema, instance), instance, &mut out);
    out
}

/// The pairs of numbers of which the first is no multiple of the second.
fn uneven(schema: &Json, instance: &Json) -> Vec<(u64, u64)> {
    let mut of_schema = Vec::new();
    let mut of_instance = Vec::new();
    collect_numbers(schema, &mut of_schema);
    collect_numbers(instance, &mut of_instance);
    let mut pairs = Vec::new();
    for n in &of_instance {
        for d in &of_schema {
            let quotient = f64::from_bits(*n) / f64::from_bits(*d);
            if (quotient - quotient.round()).abs() > 1e-9 {
                pairs.push((*n, *d));
            }
        }
    }
    pairs
}


#[test]
fn type_check_accepts_matching_and_rejects_mismatched() {
    let schema = json(r##"{ "type": "string" }"##);
    assert!(issues_for(&schema, &json(r##""hi""##)).is_empty());
    let issues = issues_for(&schema, &json(r##"1"##));
    assert_eq!(issues.len(), 1);
    assert_eq!(issues[0].keyword, "type");
    assert_eq!(issues[0].expected_types, vec![JsonType::String]);
}

#[test]
fn nullable_true_unions_null_into_type() {
    let schema = json(r##"{ "type": "string", "nullable": true }"##);
    assert!(issues_for(&schema, &json(r##"null"##)).is_empty());
    assert!(issues_for(&schema, &json(r##""ok""##)).is_empty());
    assert_eq!(issues_for(&schema, &json(r##"1"##)).len(), 1);
}

#[test]
fn integer_type_accepts_zero_fraction_float() {
    let schema = json(r##"{ "type": "integer" }"##);
    assert!(issues_for(&schema, &json(r##"2.0"##)).is_empty());
    assert_eq!(issues_for(&schema, &json(r##"2.5"##)).len(), 1);
}

#[test]
fn string_length_counts_unicode_codepoints_not_bytes() {
    let schema = json(r##"{ "minLength": 2, "maxLength": 2 }"##);
    assert!(issues_for(&schema, &json(r##""你好""##)).is_empty());
    assert!(issues_for(&schema, &json(r##""🎉🎉""##)).is_empty());
    assert_eq!(issues_for(&schema, &json(r##""你好吗""##)).len(), 1);
}

#[test]
fn one_of_exactly_one_branch_passes() {
    let schema = json(r##"{ "oneOf": [{ "type": "string" }, { "type": "number" }] }"##);
    assert!(issues_for(&schema, &json(r##""hi""##)).is_empty());
    assert!(issues_for(&schema, &json(r##"1"##)).is_empty());
}

#[test]
fn one_of_reports_zero_matches() {
    let schema = json(r##"{ "oneOf": [{ "type": "string" }, { "type": "number" }] }"##);
    let issues = issues_for(&schema, &json(r##"true"##));
    assert_eq!(issues.len(), 1);
    assert_eq!(issues[0].keyword, "oneOf");
    assert!(issues[0].from_union_branch);
}

#[test]
fn one_of_reports_multiple_matches() {
    let schema = json(r##"{ "oneOf": [{ "type": "string" }, { "minLength": 0 }] }"##);
    let issues = issues_for(&schema, &json(r##""hi""##));
    assert_eq!(issues.len(), 1);
    assert_eq!(issues[0].keyword, "oneOf");
    assert!(issues[0].from_union_branch);
}

#[test]
fn from_union_branch_only_set_on_combinator_own_path() {
    let schema = json(r##"{ "properties": { "a": { "anyOf": [{ "type": "string" }, { "type": "number" }] } } }"##);
    let issues = issues_for(&schema, &json(r##"{ "a": true }"##));
    assert_eq!(issues.len(), 1);
    assert_eq!(issues[0].display_path(), "a");
    assert_eq!(issues[0].keyword, "anyOf");
    assert!(issues[0].from_union_branch);
}

#[test]
fn all_of_issues_never_marked_as_union_branch() {
    let schema = json(r##"{ "allOf": [{ "properties": { "x": { "type": "string" } } }] }"##);
    let issues = issues_for(&schema, &json(r##"{ "x": 1 }"##));
    assert_eq!(issues.len(), 1);
    assert_eq!(issues[0].display_path(), "x");
    assert_eq!(issues[0].keyword, "type");
    assert!(!issues[0].from_union_branch);
}

#[test]
fn self_referential_ref_terminates_instead_of_looping() {
    let schema = json(r##"{ "allOf": [{ "$ref": "#" }] }"##);
    let issues = issues_for(&schema, &json(r##"{ "any": "thing" }"##));
    assert!(issues.is_empty());
}

#[test]
fn shared_ref_across_sibling_branches_is_not_a_false_cycle() {
    let schema = json(r##"{ "$defs": { "pos": { "minimum": 10 } }, "allOf": [{ "$ref": "#/$defs/pos" }, { "$ref": "#/$defs/pos" }] }"##);
    let issues = issues_for(&schema, &json(r##"5"##));
    assert_eq!(
        issues.len(),
        2,
        "两个 allOf 分支都应该各自报告违反 minimum，而不是第二个被误判为环而跳过"
    );
}

#[test]
fn dag_shared_ref_valid_instance_passes_both_branches() {
    let schema = json(r##"{ "$defs": { "pos": { "minimum": 10 } }, "allOf": [{ "$ref": "#/$defs/pos" }, { "$ref": "#/$defs/pos" }] }"##);
    assert!(issues_for(&schema, &json(r##"20"##)).is_empty());
}

#[test]
fn required_reports_each_missing_property() {
    let schema = json(r##"{ "required": ["a", "b"] }"##);
    let issues = issues_for(&schema, &json(r##"{}"##));
    assert_eq!(issues.len(), 2);
    assert!(issues.iter().all(|i| i.keyword == "required"));
}

#[test]
fn additional_properties_false_flags_extra_keys() {
    let schema = json(r##"{ "properties": { "a": true }, "additionalProperties": false }"##);
    assert!(issues_for(&schema, &json(r##"{ "a": 1 }"##)).is_empty());
    let issues = issues_for(&schema, &json(r##"{ "a": 1, "b": 2 }"##));
    assert_eq!(issues.len(), 1);
    assert_eq!(issues[0].display_path(), "b");
    assert_eq!(issues[0].keyword, "additionalProperties");
}

#[test]
fn contains_respects_min_and_max() {
    let schema =
        json(r##"{ "contains": { "type": "number" }, "minContains": 2, "maxContains": 3 }"##);
    assert!(issues_for(&schema, &json(r##"[1, 2]"##)).is_empty());
    assert_eq!(issues_for(&schema, &json(r##"[1]"##)).len(), 1);
    assert_eq!(issues_for(&schema, &json(r##"[1, 2, 3, 4]"##)).len(), 1);
}

fn keywords_for(schema: &str, instance: &str) -> Vec<&'static str> {
    issues_for(&json(schema), &json(instance)).iter().map(|i| i.keyword).collect()
}

#[test]
fn multiples_are_told_by_the_pairs() {
    assert!(keywords_for(r##"{ "multipleOf": 3 }"##, "9").is_empty());
    assert_eq!(keywords_for(r##"{ "multipleOf": 3 }"##, "10"), ["multipleOf"]);
    assert!(keywords_for(r##"{ "multipleOf": 0.1 }"##, "0.3").is_empty());
}

#[test]
fn bounds_are_checked_on_their_side() {
    assert_eq!(keywords_for(r##"{ "minimum": 3 }"##, "2.5"), ["minimum"]);
    assert!(keywords_for(r##"{ "minimum": 3 }"##, "3").is_empty());
    assert_eq!(keywords_for(r##"{ "exclusiveMinimum": 3 }"##, "3"), ["exclusiveMinimum"]);
    assert_eq!(keywords_for(r##"{ "maximum": -1 }"##, "0"), ["maximum"]);
    assert_eq!(keywords_for(r##"{ "exclusiveMaximum": 1 }"##, "1.0"), ["exclusiveMaximum"]);
}

#[test]
fn lists_and_objects_are_counted() {
    assert_eq!(keywords_for(r##"{ "minItems": 2 }"##, "[1]"), ["minItems"]);
    assert_eq!(keywords_for(r##"{ "maxItems": 0 }"##, "[1]"), ["maxItems"]);
    assert_eq!(keywords_for(r##"{ "uniqueItems": true }"##, "[1, 2, 1]"), ["uniqueItems"]);
    assert_eq!(keywords_for(r##"{ "minProperties": 1 }"##, "{}"), ["minProperties"]);
    assert_eq!(keywords_for(r##"{ "maxProperties": 0 }"##, r##"{ "a": 1 }"##), ["maxProperties"]);
}

#[test]
fn values_are_compared_as_a_whole() {
    assert!(keywords_for(r##"{ "const": { "a": [1, 2] } }"##, r##"{ "a": [1, 2] }"##).is_empty());
    assert_eq!(keywords_for(r##"{ "const": { "a": [1, 2] } }"##, r##"{ "a": [2, 1] }"##), ["const"]);
    assert_eq!(keywords_for(r##"{ "enum": [1, "x"] }"##, r##""y""##), ["enum"]);
}

#[test]
fn conditions_choose_a_branch() {
    let schema = r##"{ "if": { "type": "string" }, "then": { "minLength": 2 }, "else": { "minimum": 5 } }"##;
    assert_eq!(keywords_for(schema, r##""a""##), ["minLength"]);
    assert_eq!(keywords_for(schema, "4"), ["minimum"]);
    assert!(keywords_for(schema, "6").is_empty());
}

#[test]
fn a_negated_schema_refuses_what_it_accepts() {
    assert_eq!(keywords_for(r##"{ "not": { "type": "number" } }"##, "1"), ["not"]);
    assert!(keywords_for(r##"{ "not": { "type": "number" } }"##, r##""x""##).is_empty());
}

#[test]
fn patterns_choose_properties_and_names() {
    let schema = r##"{ "patternProperties": { "^n_": { "type": "number" } }, "additionalProperties": false }"##;
    assert!(keywords_for(schema, r##"{ "n_a": 1 }"##).is_empty());
    assert_eq!(keywords_for(schema, r##"{ "n_a": "x" }"##), ["type"]);
    assert_eq!(keywords_for(schema, r##"{ "m": 1 }"##), ["additionalProperties"]);
    assert_eq!(keywords_for(r##"{ "pattern": "^a+$" }"##, r##""ab""##), ["pattern"]);
}

#[test]
fn dependencies_ask_for_more() {
    assert_eq!(
        keywords_for(r##"{ "dependentRequired": { "a": ["b"] } }"##, r##"{ "a": 1 }"##),
        ["dependentRequired"]
    );
    assert!(keywords_for(r##"{ "dependentRequired": { "a": ["b"] } }"##, r##"{ "c": 1 }"##).is_empty());
}

#[test]
fn boolean_schemas_accept_all_or_nothing() {
    assert!(issues_for(&json("true"), &json("1")).is_empty());
    assert_eq!(issues_for(&json("false"), &json("1")).len(), 1);
}

#[test]
fn unknown_keywords_change_nothing() {
    let plain = keywords_for(r##"{ "type": "string" }"##, "1");
    let added = keywords_for(r##"{ "type": "string", "format": "email", "title": "x" }"##, "1");
    assert_eq!(plain, added);
}

#[test]
fn validate_and_collect_issues_agree() {
    let compiled = CompiledSchema::compile(json(r##"{ "required": ["a", "b"] }"##)).unwrap();
    let mut out = Vec::new();
    compiled.collect_issues(&json("{}"), &Vec::new(), &mut out);
    let err = compiled.validate(&json("{}"), &Vec::new()).unwrap_err();
    assert_eq!(err.issues, out);
    assert_eq!(out.len(), 2);
}

#[test]
fn counts_written_with_a_fraction_of_zero_are_enforced() {
    let schema = json(r##"{ "minLength": 2.0, "maxLength": 3e0 }"##);
    let issues = issues_for(&schema, &json(r##""a""##));
    assert_eq!(issues.len(), 1);
    assert_eq!(issues[0].keyword, "minLength");
    assert_eq!(issues[0].message, "字符串长度至少 2 个码点，实际 1 个");
    assert!(issues_for(&schema, &json(r##""ab""##)).is_empty());
    let issues = issues_for(&schema, &json(r##""abcd""##));
    assert_eq!(issues.len(), 1);
    assert_eq!(issues[0].keyword, "maxLength");

    let schema = json(r##"{ "minItems": 1.0, "maxItems": 2.0 }"##);
    assert_eq!(issues_for(&schema, &json("[]"))[0].keyword, "minItems");
    assert_eq!(issues_for(&schema, &json("[1, 2, 3]"))[0].keyword, "maxItems");
    assert!(issues_for(&schema, &json("[1]")).is_empty());

    let schema = json(r##"{ "minProperties": 1.0, "maxProperties": 0.0 }"##);
    assert_eq!(issues_for(&schema, &json("{}"))[0].keyword, "minProperties");
    assert_eq!(issues_for(&schema, &json(r##"{ "a": 1 }"##))[0].keyword, "maxProperties");

    let schema = json(r##"{ "contains": { "type": "string" }, "minContains": 2.0 }"##);
    assert_eq!(issues_for(&schema, &json(r##"["a"]"##))[0].keyword, "contains");
    let schema = json(r##"{ "contains": { "type": "string" }, "maxContains": 1.0 }"##);
    assert_eq!(issues_for(&schema, &json(r##"["a", "b"]"##))[0].keyword, "contains");
}

#[test]
fn a_count_beyond_all_lengths_is_never_reached() {
    assert_eq!(issues_for(&json(r##"{ "minLength": 1e30 }"##), &json(r##""abc""##)).len(), 1);
    assert!(issues_for(&json(r##"{ "maxLength": 1e30 }"##), &json(r##""abc""##)).is_empty());
    assert_eq!(
        issues_for(&json(r##"{ "minLength": 4503599627370497.0 }"##), &json(r##""a""##))[0].message,
        "字符串长度至少 4503599627370497 个码点，实际 1 个"
    );
    assert_eq!(
        issues_for(&json(r##"{ "minLength": 9007199254740994.0 }"##), &json(r##""a""##))[0].message,
        "字符串长度至少 9007199254740994 个码点，实际 1 个"
    );
}
