//! Schemas that are accepted and schemas that are not.

use std::sync::Arc;

use serde_json::Value;
use zcode::schema::cache::{content_hash, SchemaCache};
use zcode::schema::compile::CompiledSchema;
use zcode::schema::error::SchemaError;
use zcode::schema::json::{Json, Member, Number, NumberKind};

fn number(n: &serde_json::Number) -> Number {
    let value = n.as_f64().expect("a number that fits");
    let kind = match (n.as_u64(), n.as_i64()) {
        (Some(u), _) => NumberKind::Unsigned(u),
        (None, Some(i)) => NumberKind::Negative(i),
        _ => NumberKind::Float,
    };
    Number { kind, bits: value.to_bits(), text: format!("{value}") }
}

fn convert(value: &Value) -> Json {
    match value {
        Value::Null => Json::Null,
        Value::Bool(b) => Json::Flag(*b),
        Value::Number(n) => Json::Number(number(n)),
        Value::String(s) => Json::Text(s.clone()),
        Value::Array(l) => Json::List(l.iter().map(convert).collect()),
        Value::Object(m) => Json::Object(
            m.iter().map(|(k, v)| Member { key: k.clone(), value: convert(v) }).collect(),
        ),
    }
}

fn json(text: &str) -> Json {
    convert(&serde_json::from_str::<Value>(text).expect("valid JSON"))
}


#[test]
fn compile_rejects_non_object_non_bool_node() {
    let err = CompiledSchema::compile(json(r##"{ "properties": { "a": 5 } }"##)).unwrap_err();
    assert!(
        matches!(err, SchemaError::NotAnObjectOrBool { pointer } if pointer == "/properties/a")
    );
}

#[test]
fn compile_rejects_malformed_type_shape() {
    let err = CompiledSchema::compile(json(r##"{ "type": 5 }"##)).unwrap_err();
    assert!(matches!(
        err,
        SchemaError::InvalidKeyword {
            keyword: "type",
            ..
        }
    ));
}

#[test]
fn compile_rejects_external_ref() {
    let err = CompiledSchema::compile(json(r##"{ "$ref": "https://example.com/schema.json" }"##))
        .unwrap_err();
    assert!(matches!(err, SchemaError::UnresolvableRef { .. }));
}

#[test]
fn compile_rejects_unresolvable_local_ref() {
    let err = CompiledSchema::compile(json(r##"{ "$ref": "#/$defs/missing" }"##)).unwrap_err();
    assert!(matches!(err, SchemaError::UnresolvableRef { .. }));
}

#[test]
fn compile_rejects_pure_ref_cycle_via_depth_fuse() {
    let schema = json(r##"{ "$ref": "#/$defs/a", "$defs": { "a": { "$ref": "#/$defs/b" }, "b": { "$ref": "#/$defs/a" } } }"##);
    let err = CompiledSchema::compile(schema).unwrap_err();
    assert!(matches!(err, SchemaError::RefDepthExceeded { .. }));
}

#[test]
fn compile_accepts_self_referential_recursive_schema() {
    let schema = json(r##"{ "$ref": "#/$defs/node", "$defs": { "node": { "type": "object", "properties": { "next": { "$ref": "#/$defs/node" } } } } }"##);
    assert!(CompiledSchema::compile(schema).is_ok());
}

#[test]
fn pattern_compiles_and_validates() {
    let compiled =
        CompiledSchema::compile(json(r##"{ "type": "string", "pattern": "^[a-z]+$" }"##)).unwrap();
    assert!(compiled.validate(&json(r##""abc""##), &Vec::new()).is_ok());
    assert!(compiled.validate(&json(r##""ABC""##), &Vec::new()).is_err());
    assert!(compiled.unsupported_keywords().is_empty());
}

#[test]
fn pattern_with_lookahead_fails_compile_instead_of_silently_passing() {
    let err = CompiledSchema::compile(json(r##"{ "type": "string", "pattern": "^(?!admin$).+" }"##))
    .unwrap_err();
    assert!(matches!(
        err,
        SchemaError::InvalidKeyword {
            keyword: "pattern",
            ..
        }
    ));
}

#[test]
fn unsupported_keywords_reports_unevaluated_properties() {
    let compiled = CompiledSchema::compile(json(r##"{ "unevaluatedProperties": false }"##)).unwrap();
    assert_eq!(compiled.unsupported_keywords(), ["unevaluatedProperties"]);
}

#[test]
fn compile_rejects_unknown_type_name() {
    let err = CompiledSchema::compile(json(r##"{ "type": "banana" }"##)).unwrap_err();
    assert!(matches!(
        err,
        SchemaError::InvalidKeyword {
            keyword: "type",
            ..
        }
    ));
}

#[test]
fn compile_rejects_enum_wrong_shape() {
    assert!(matches!(
        CompiledSchema::compile(json(r##"{ "enum": "x" }"##)).unwrap_err(),
        SchemaError::InvalidKeyword {
            keyword: "enum",
            ..
        }
    ));
    assert!(matches!(
        CompiledSchema::compile(json(r##"{ "enum": [] }"##)).unwrap_err(),
        SchemaError::InvalidKeyword {
            keyword: "enum",
            ..
        }
    ));
}

#[test]
fn compile_rejects_required_wrong_shape() {
    let err = CompiledSchema::compile(json(r##"{ "required": "x" }"##)).unwrap_err();
    assert!(matches!(
        err,
        SchemaError::InvalidKeyword {
            keyword: "required",
            ..
        }
    ));
    assert!(CompiledSchema::compile(json(r##"{ "required": [] }"##)).is_ok());
}

#[test]
fn compile_rejects_combinator_wrong_shape() {
    for key in ["allOf", "anyOf", "oneOf"] {
        let empty = CompiledSchema::compile(json(&format!(r##"{{ "{key}": [] }}"##))).unwrap_err();
        assert!(matches!(empty, SchemaError::InvalidKeyword { keyword, .. } if keyword == key));
        let not_array = CompiledSchema::compile(json(&format!(r##"{{ "{key}": "x" }}"##))).unwrap_err();
        assert!(
            matches!(not_array, SchemaError::InvalidKeyword { keyword, .. } if keyword == key)
        );
    }
}

#[test]
fn compile_rejects_not_if_then_else_non_schema_element() {
    for key in ["not", "if", "then", "else"] {
        let err = CompiledSchema::compile(json(&format!(r##"{{ "{key}": 5 }}"##))).unwrap_err();
        assert!(matches!(err, SchemaError::NotAnObjectOrBool { .. }));
    }
}

#[test]
fn compile_rejects_dependent_required_wrong_shape() {
    let not_object = CompiledSchema::compile(json(r##"{ "dependentRequired": "x" }"##)).unwrap_err();
    assert!(matches!(
        not_object,
        SchemaError::InvalidKeyword {
            keyword: "dependentRequired",
            ..
        }
    ));

    let bad_values =
        CompiledSchema::compile(json(r##"{ "dependentRequired": { "a": "b" } }"##)).unwrap_err();
    assert!(matches!(
        bad_values,
        SchemaError::InvalidKeyword {
            keyword: "dependentRequired",
            ..
        }
    ));
}

#[test]
fn compile_rejects_dependent_schemas_properties_pattern_properties_wrong_shape() {
    for key in [
        "dependentSchemas",
        "properties",
        "patternProperties",
        "$defs",
        "definitions",
    ] {
        let err = CompiledSchema::compile(json(&format!(r##"{{ "{key}": "x" }}"##))).unwrap_err();
        assert!(matches!(err, SchemaError::InvalidKeyword { keyword, .. } if keyword == key));
    }
}

#[test]
fn compile_rejects_additional_properties_property_names_items_contains_non_schema() {
    for key in ["additionalProperties", "propertyNames", "items", "contains"] {
        let err = CompiledSchema::compile(json(&format!(r##"{{ "{key}": 5 }}"##))).unwrap_err();
        assert!(matches!(err, SchemaError::NotAnObjectOrBool { .. }));
    }
}

#[test]
fn compile_rejects_prefix_items_wrong_shape() {
    let err = CompiledSchema::compile(json(r##"{ "prefixItems": "x" }"##)).unwrap_err();
    assert!(matches!(
        err,
        SchemaError::InvalidKeyword {
            keyword: "prefixItems",
            ..
        }
    ));
}

#[test]
fn compile_rejects_non_negative_integer_keywords_wrong_shape() {
    for key in [
        "minLength",
        "maxLength",
        "minItems",
        "maxItems",
        "minProperties",
        "maxProperties",
        "minContains",
        "maxContains",
    ] {
        let negative = CompiledSchema::compile(json(&format!(r##"{{ "{key}": -1 }}"##))).unwrap_err();
        assert!(
            matches!(negative, SchemaError::InvalidKeyword { keyword, .. } if keyword == key)
        );
        let fractional = CompiledSchema::compile(json(&format!(r##"{{ "{key}": 1.5 }}"##))).unwrap_err();
        assert!(
            matches!(fractional, SchemaError::InvalidKeyword { keyword, .. } if keyword == key)
        );
    }
    assert!(CompiledSchema::compile(json(r##"{ "minLength": 2.0 }"##)).is_ok());
}

#[test]
fn compile_rejects_numeric_bound_keywords_wrong_shape() {
    for key in ["minimum", "maximum", "exclusiveMinimum", "exclusiveMaximum"] {
        let err = CompiledSchema::compile(json(&format!(r##"{{ "{key}": "x" }}"##))).unwrap_err();
        assert!(matches!(err, SchemaError::InvalidKeyword { keyword, .. } if keyword == key));
    }
}

#[test]
fn compile_rejects_multiple_of_not_positive() {
    let zero = CompiledSchema::compile(json(r##"{ "multipleOf": 0 }"##)).unwrap_err();
    assert!(matches!(
        zero,
        SchemaError::InvalidKeyword {
            keyword: "multipleOf",
            ..
        }
    ));
    let negative = CompiledSchema::compile(json(r##"{ "multipleOf": -2 }"##)).unwrap_err();
    assert!(matches!(
        negative,
        SchemaError::InvalidKeyword {
            keyword: "multipleOf",
            ..
        }
    ));
    assert!(CompiledSchema::compile(json(r##"{ "multipleOf": 2 }"##)).is_ok());
}

#[test]
fn compile_rejects_unique_items_wrong_shape() {
    let err = CompiledSchema::compile(json(r##"{ "uniqueItems": "x" }"##)).unwrap_err();
    assert!(matches!(
        err,
        SchemaError::InvalidKeyword {
            keyword: "uniqueItems",
            ..
        }
    ));
}

#[test]
fn compile_ignores_unknown_keyword() {
    assert!(
        CompiledSchema::compile(
            json(r##"{ "type": "string", "$comment": "随便写点什么", "format": "email" }"##)
        )
        .is_ok()
    );
}

#[test]
fn cache_deduplicates_by_content_not_object_identity() {
    let mut cache = SchemaCache::new();
    let a = json(r##"{ "type": "string" }"##);
    let b = json(r##"{"type":"string"}"##);

    let compiled_a = cache.get_or_compile(&a).unwrap();
    let compiled_b = cache.get_or_compile(&b).unwrap();
    assert!(
        Arc::ptr_eq(&compiled_a, &compiled_b),
        "内容相同应该复用同一份编译结果"
    );
    assert_eq!(cache.len(), 1);
}

#[test]
fn cache_recompiles_when_content_differs() {
    let mut cache = SchemaCache::new();
    let a = json(r##"{ "type": "string" }"##);
    let b = json(r##"{ "type": "number" }"##);
    cache.get_or_compile(&a).unwrap();
    cache.get_or_compile(&b).unwrap();
    assert_eq!(cache.len(), 2);
}

#[test]
fn cache_clear_empties_entries() {
    let mut cache = SchemaCache::new();
    cache.get_or_compile(&json(r##"{ "type": "string" }"##)).unwrap();
    assert!(!cache.is_empty());
    cache.clear();
    assert!(cache.is_empty());
    assert_eq!(cache.len(), 0);
}

#[test]
fn content_hash_ignores_object_key_insertion_order() {
    let a = json(r##"{"a":1,"b":2}"##);
    let b = json(r##"{"b":2,"a":1}"##);
    assert_eq!(content_hash(&a), content_hash(&b));
}

#[test]
fn a_nested_keyword_without_effect_is_told_once() {
    let compiled = CompiledSchema::compile(json(
        r##"{ "properties": { "a": { "unevaluatedItems": false }, "b": { "unevaluatedItems": true } } }"##,
    ))
    .unwrap();
    assert_eq!(compiled.unsupported_keywords(), ["unevaluatedItems"]);
}

#[test]
fn equal_schemas_in_another_order_share_an_entry() {
    let mut cache = SchemaCache::new();
    let a = cache.get_or_compile(&json(r##"{ "minimum": 1, "type": "number" }"##)).unwrap();
    let b = cache.get_or_compile(&json(r##"{ "type": "number", "minimum": 1 }"##)).unwrap();
    assert!(Arc::ptr_eq(&a, &b));
    assert_eq!(cache.len(), 1);
}

#[test]
fn a_refused_schema_is_not_kept() {
    let mut cache = SchemaCache::new();
    assert!(cache.get_or_compile(&json(r##"{ "type": 5 }"##)).is_err());
    assert!(cache.is_empty());
}

#[test]
fn schemas_that_differ_a_little_stand_side_by_side() {
    let mut cache = SchemaCache::new();
    let all = [
        r##"{ "const": true }"##,
        r##"{ "const": 0 }"##,
        r##"{ "const": 1 }"##,
        r##"{ "const": false }"##,
        r##"{ "const": null }"##,
        r##"{ "const": "" }"##,
        r##"{ "const": [] }"##,
        r##"{ "const": {} }"##,
        r##"{ "minLength": 1, "maxLength": 2 }"##,
        r##"{ "minLength": 2, "maxLength": 1 }"##,
    ];
    for text in all {
        cache.get_or_compile(&json(text)).unwrap();
    }
    assert_eq!(cache.len(), all.len());
}
