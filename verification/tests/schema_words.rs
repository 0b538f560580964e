//! What is said of schemas and values.

use serde_json::Value;
use zcode::schema::error::{JsonType, PathSegment, SchemaError, ValidationError, ValidationIssue};
use zcode::schema::json::{Json, Member, Number, NumberKind};
use zcode::schema::render::{
    render_validation_error, truncate_args_for_error, MAX_ERROR_ARG_STRING_LENGTH,
    MAX_TRUNCATE_DEPTH,
};

fn number(n: &serde_json::Number) -> Number {
    let value = n.as_f64().expect("a number that fits");
    let kind = match (n.as_u64(), n.as_i64()) {
        (Some(u), _) => NumberKind::Unsigned(u),
        (None, Some(i)) => NumberKind::Negative(i),
        _ => NumberKind::Float,
    };
    Number { kind, bits: value.to_bits(), text: format!("{value}") }
}

fn convert(value: &Value) -> Json {
    match value {
        Value::Null => Json::Null,
        Value::Bool(b) => Json::Flag(*b),
        Value::Number(n) => Json::Number(number(n)),
        Value::String(s) => Json::Text(s.clone()),
        Value::Array(l) => Json::List(l.iter().map(convert).collect()),
        Value::Object(m) => Json::Object(
            m.iter().map(|(k, v)| Member { key: k.clone(), value: convert(v) }).collect(),
        ),
    }
}

fn json(text: &str) -> Json {
    convert(&serde_json::from_str::<Value>(text).expect("valid JSON"))
}


#[test]
fn render_matches_expected_shape() {
    let error = ValidationError {
        issues: vec![
            ValidationIssue {
                path: Vec::new(),
                message: "缺少必需属性 \"path\"".to_string(),
                keyword: "required",
                expected_types: Vec::new(),
                from_union_branch: false,
            },
            ValidationIssue {
                path: vec![PathSegment::Key("count".into())],
                message: "期望类型为 number，实际是 string".to_string(),
                keyword: "type",
                expected_types: Vec::new(),
                from_union_branch: false,
            },
        ],
    };
    let received: Value = serde_json::from_str(r##"{ "count": "3" }"##).unwrap();
    let pretty = serde_json::to_string_pretty(&received).unwrap();
    let rendered = render_validation_error("read_file", &error, &pretty);

    let expected = "Validation failed for tool \"read_file\":
  - root: 缺少必需属性 \"path\"
  - count: 期望类型为 number，实际是 string

Received arguments:
  {
    \"count\": \"3\"
  }";
    assert_eq!(rendered, expected);
}

#[test]
fn truncate_string_field_adds_suffix_with_remaining_count() {
    let long = "a".repeat(MAX_ERROR_ARG_STRING_LENGTH + 10);
    let value = json(&format!(r##"{{ "content": "{long}" }}"##));
    let truncated = truncate_args_for_error(&value);
    let content = match truncated.get("content") {
        Some(Json::Text(s)) => s,
        other => panic!("no text: {other:?}"),
    };
    assert!(content.starts_with(&"a".repeat(MAX_ERROR_ARG_STRING_LENGTH)));
    assert!(content.ends_with("… [truncated 10 chars]"));
}

#[test]
fn truncate_short_string_is_unchanged() {
    let value = json(r##"{ "content": "short" }"##);
    assert!(truncate_args_for_error(&value).same(&value));
}

#[test]
fn truncate_depth_limit_replaces_deep_subtree() {
    let mut nested = json("\"leaf\"");
    for _ in 0..(MAX_TRUNCATE_DEPTH + 5) {
        nested = Json::List(vec![nested]);
    }
    let truncated = truncate_args_for_error(&nested);
    let mut cursor = &truncated;
    let mut hit_limit = false;
    for _ in 0..(MAX_TRUNCATE_DEPTH + 5) {
        match cursor {
            Json::List(items) => cursor = items.first().expect("已知构造为单元素数组"),
            Json::Text(s) if s == "… [depth limit]" => {
                hit_limit = true;
                break;
            }
            _ => break,
        }
    }
    assert!(
        hit_limit,
        "超过 MAX_TRUNCATE_DEPTH 的子树应该被替换成深度限制占位符"
    );
}

#[test]
fn display_path_root_is_literal() {
    let issue = ValidationIssue {
        path: Vec::new(),
        message: "不满足".to_string(),
        keyword: "type",
        expected_types: Vec::new(),
        from_union_branch: false,
    };
    assert_eq!(issue.display_path(), "root");
}

#[test]
fn display_path_joins_segments_with_slash() {
    let issue = ValidationIssue {
        path: vec![
            PathSegment::Key("items".into()),
            PathSegment::Index(0),
            PathSegment::Key("name".into()),
        ],
        message: "不满足".to_string(),
        keyword: "type",
        expected_types: Vec::new(),
        from_union_branch: false,
    };
    assert_eq!(issue.display_path(), "items/0/name");
}

#[test]
fn validation_error_display_joins_issues_by_line() {
    let error = ValidationError {
        issues: vec![
            ValidationIssue {
                path: Vec::new(),
                message: "缺少必需属性 \"path\"".to_string(),
                keyword: "required",
                expected_types: Vec::new(),
                from_union_branch: false,
            },
            ValidationIssue {
                path: vec![PathSegment::Key("count".into())],
                message: "期望类型为 number，实际是 string".to_string(),
                keyword: "type",
                expected_types: vec![JsonType::Number],
                from_union_branch: false,
            },
        ],
    };
    let rendered = error.to_string();
    assert_eq!(
        rendered,
        "root: 缺少必需属性 \"path\"\ncount: 期望类型为 number，实际是 string"
    );
}

#[test]
fn schema_error_messages_include_pointer_and_keyword() {
    let error = SchemaError::InvalidKeyword {
        pointer: "/properties/x".to_string(),
        keyword: "type",
        reason: "必须是字符串或字符串数组".to_string(),
    };
    assert_eq!(
        error.to_string(),
        "/properties/x 处的 keyword `type` 不合法：必须是字符串或字符串数组"
    );
}

#[test]
fn schema_errors_are_told_in_words() {
    assert_eq!(
        SchemaError::NotAnObjectOrBool { pointer: "/a".to_string() }.to_string(),
        "/a 处的 schema 既不是对象也不是布尔值"
    );
    assert_eq!(
        SchemaError::UnresolvableRef { pointer: "/a".to_string(), reference: "#/x".to_string() }
            .to_string(),
        "/a 处的 $ref `#/x` 无法解析"
    );
    assert_eq!(
        SchemaError::RefDepthExceeded { reference: "#/x".to_string() }.to_string(),
        "$ref `#/x` 的解析深度超过上限"
    );
}
