//! Compiling a schema: it is looked through once, and values are held against it many times.

use vstd::prelude::*;

use crate::regexes::pattern_problem;
use crate::schema::error::{
    issues_view, SchemaError, SchemaErrorView, ValidationError, ValidationIssue,
};
use crate::schema::json::{
    finite, lemma_member_smaller, lemma_view, list_view, member, members_view, place, whole, Json,
    JsonView, MemberView, Number, NumberKind,
};
use crate::schema::pointer::resolve;
use crate::schema::rules::{
    lemma_list_smaller, lemma_object_smaller, list_at, object_at, ref_target, schema_issues,
    MAX_REF_DEPTH,
};
use crate::schema::shape::{
    all_texts, bad_siblings, below, bounds_error, branch_findings, count_error, counts_error,
    dependent_error, elements_findings, findings, flag_error, invalid, is_chain, list_error,
    map_findings, maps_findings, number_error, pattern_keyword_error, pattern_map_findings,
    patterns_findings, positive_error, prefix_findings, ref_error, regex_error, shape_error,
    single_findings, sub_findings, subs_findings, texts_error, type_error, unknown_type,
    unknown_type_text, values_findings, Findings,
};
use crate::schema::validate::{json_type_from_name, validate_root};
use crate::strings::{chars_of, part_from, push_dec};

verus! {

broadcast use vstd::seq::group_seq_axioms;

/// Whether an outcome is the error that there is, or success where there is none.
pub open spec fn is_outcome(r: Result<(), SchemaError>, error: Option<SchemaErrorView>) -> bool {
    match r {
        Ok(()) => error is None,
        Err(e) => error == Some(e@),
    }
}

/// Refuses a keyword.
fn refuse(pointer: &str, keyword: &'static str, reason: &str) -> (r: Result<(), SchemaError>)
    ensures
        is_outcome(r, invalid(pointer@, keyword@, reason@)),
{
    Err(
        SchemaError::InvalidKeyword {
            pointer: pointer.to_owned(),
            keyword,
            reason: reason.to_owned(),
        },
    )
}

/// Whether all elements are strings.
fn are_texts(l: &Vec<Json>) -> (r: bool)
    ensures
        r == all_texts(list_view(l@)),
{
    let n: usize = l.len();
    let mut i: usize = 0;
    while i < n
        invariant
            i <= n,
            n == l@.len(),
            forall|j: int| 0 <= j < i ==> (#[trigger] list_view(l@)[j]) is Text,
        decreases n - i,
    {
        assert(list_view(l@)[i as int] == l@[i as int]@);
        match &l[i] {
            Json::Text(_) => {},
            _ => {
                return false;
            },
        }
        i += 1;
    }
    true
}

/// Says that a name is no name of a type.
fn refuse_type(pointer: &str, name: &str) -> (r: Result<(), SchemaError>)
    ensures
        is_outcome(r, invalid(pointer@, "type"@, unknown_type_text(name@))),
{
    let mut reason = "未知的类型名 \"".to_owned();
    reason.append(name);
    reason.append("\"（必须是 null|boolean|object|array|number|integer|string 之一）");
    refuse(pointer, "type", reason.as_str())
}

/// `type` is a name of a type or a list of them.
fn validate_type_keyword(schema: &Json, pointer: &str) -> (r: Result<(), SchemaError>)
    ensures
        is_outcome(r, type_error(schema@, pointer@)),
{
    let t = match schema.get("type") {
        Some(t) => t,
        None => {
            return Ok(());
        },
    };
    proof {
        lemma_view(*t);
    }
    match t {
        Json::Text(name) => {
            if json_type_from_name(name.as_str()).is_none() {
                return refuse_type(pointer, name.as_str());
            }
            Ok(())
        },
        Json::List(l) => {
            if !are_texts(l) {
                return refuse(pointer, "type", "数组元素必须是字符串");
            }
            let n: usize = l.len();
            let ghost all = list_view(l@);
            let mut i: usize = 0;
            while i < n
                invariant
                    i <= n,
                    n == l@.len(),
                    all == list_view(l@),
                    all_texts(all),
                    member(schema@, "type"@) == Some(JsonView::List(all)),
                    unknown_type(all, i as nat) is None,
                decreases n - i,
            {
                assert(all[i as int] == l@[i as int]@);
                if let Json::Text(name) = &l[i] {
                    if json_type_from_name(name.as_str()).is_none() {
                        proof {
                            assert(unknown_type(all, (i + 1) as nat) == Some(name@));
                            lemma_unknown_stays(all, (i + 1) as nat, n as nat);
                        }
                        return refuse_type(pointer, name.as_str());
                    }
                }
                i += 1;
            }
            Ok(())
        },
        _ => refuse(pointer, "type", "必须是字符串或字符串数组"),
    }
}

proof fn lemma_unknown_stays(l: Seq<JsonView>, a: nat, b: nat)
    requires
        a <= b <= l.len(),
        unknown_type(l, a) is Some,
    ensures
        unknown_type(l, b) == unknown_type(l, a),
    decreases b,
{
    if a < b {
        lemma_unknown_stays(l, a, (b - 1) as nat);
    }
}

/// A keyword that is a list with something in it.
fn require_nonempty_array_shape(schema: &Json, key: &'static str, pointer: &str) -> (r: Result<
    (),
    SchemaError,
>)
    ensures
        is_outcome(r, list_error(schema@, key@, pointer@)),
{
    match schema.get(key) {
        None => Ok(()),
        Some(x) => {
            proof {
                lemma_view(*x);
            }
            match x {
                Json::List(l) => if l.len() == 0 {
                    refuse(pointer, key, "不能是空数组")
                } else {
                    Ok(())
                },
                _ => refuse(pointer, key, "必须是数组"),
            }
        },
    }
}

/// A keyword that is a list of strings.
fn require_string_array_shape(schema: &Json, key: &'static str, pointer: &str) -> (r: Result<
    (),
    SchemaError,
>)
    ensures
        is_outcome(r, texts_error(schema@, key@, pointer@)),
{
    match schema.get(key) {
        None => Ok(()),
        Some(x) => {
            proof {
                lemma_view(*x);
            }
            match x {
                Json::List(l) => if are_texts(l) {
                    Ok(())
                } else {
                    refuse(pointer, key, "必须是字符串数组")
                },
                _ => refuse(pointer, key, "必须是字符串数组"),
            }
        },
    }
}

/// A keyword that is a boolean.
fn require_boolean_shape(schema: &Json, key: &'static str, pointer: &str) -> (r: Result<
    (),
    SchemaError,
>)
    ensures
        is_outcome(r, flag_error(schema@, key@, pointer@)),
{
    match schema.get(key) {
        None => Ok(()),
        Some(Json::Flag(_)) => Ok(()),
        Some(_) => refuse(pointer, key, "必须是布尔值"),
    }
}

/// A keyword that is a whole number, not negative, however it is written.
fn require_non_negative_integer_shape(
    schema: &Json,
    key: &'static str,
    pointer: &str,
) -> (r: Result<(), SchemaError>)
    ensures
        is_outcome(r, count_error(schema@, key@, pointer@)),
{
    match schema.get(key) {
        None => Ok(()),
        Some(Json::Number(n)) => {
            let unsigned = match n.kind {
                NumberKind::Unsigned(_) => true,
                _ => false,
            };
            if unsigned || (finite(n.bits) && place(n.bits) >= 0 && whole(n.bits)) {
                Ok(())
            } else {
                refuse(pointer, key, "必须是非负整数")
            }
        },
        Some(_) => refuse(pointer, key, "必须是非负整数"),
    }
}

/// A keyword that is a number.
fn require_number_shape(schema: &Json, key: &'static str, pointer: &str) -> (r: Result<
    (),
    SchemaError,
>)
    ensures
        is_outcome(r, number_error(schema@, key@, pointer@)),
{
    match schema.get(key) {
        None => Ok(()),
        Some(Json::Number(_)) => Ok(()),
        Some(_) => refuse(pointer, key, "必须是数值"),
    }
}

/// A keyword that is a number above zero.
fn require_positive_number_shape(schema: &Json, key: &'static str, pointer: &str) -> (r: Result<
    (),
    SchemaError,
>)
    ensures
        is_outcome(r, positive_error(schema@, key@, pointer@)),
{
    match schema.get(key) {
        None => Ok(()),
        Some(Json::Number(n)) => if finite(n.bits) && place(n.bits) > 0 {
            Ok(())
        } else {
            refuse(pointer, key, "必须是大于 0 的数值")
        },
        Some(_) => refuse(pointer, key, "必须是大于 0 的数值"),
    }
}

proof fn lemma_bad_stays(m: Seq<MemberView>, a: nat, b: nat)
    requires
        a <= b <= m.len(),
        bad_siblings(m, a) is Some,
    ensures
        bad_siblings(m, b) == bad_siblings(m, a),
    decreases b,
{
    if a < b {
        lemma_bad_stays(m, a, (b - 1) as nat);
    }
}

/// `dependentRequired` is an object of lists of strings.
fn validate_dependent_required(schema: &Json, pointer: &str) -> (r: Result<(), SchemaError>)
    ensures
        is_outcome(r, dependent_error(schema@, pointer@)),
{
    let x = match schema.get("dependentRequired") {
        Some(x) => x,
        None => {
            return Ok(());
        },
    };
    proof {
        lemma_view(*x);
    }
    match x {
        Json::Object(m) => {
            let n: usize = m.len();
            let ghost all = members_view(m@);
            let mut i: usize = 0;
            while i < n
                invariant
                    i <= n,
                    n == m@.len(),
                    all == members_view(m@),
                    member(schema@, "dependentRequired"@) == Some(JsonView::Object(all)),
                    bad_siblings(all, i as nat) is None,
                decreases n - i,
            {
                assert(all[i as int] == m@[i as int]@);
                proof {
                    lemma_view(m@[i as int].value);
                }
                let fine = match &m[i].value {
                    Json::List(l) => are_texts(l),
                    _ => false,
                };
                if !fine {
                    proof {
                        assert(bad_siblings(all, (i + 1) as nat) == Some(m@[i as int].key@));
                        lemma_bad_stays(all, (i + 1) as nat, n as nat);
                    }
                    let mut reason = "\"".to_owned();
                    reason.append(m[i].key.as_str());
                    reason.append("\" 对应的值必须是字符串数组");
                    return refuse(pointer, "dependentRequired", reason.as_str());
                }
                i += 1;
            }
            Ok(())
        },
        _ => refuse(
            pointer,
            "dependentRequired",
            "必须是对象（属性名 -> 字符串数组的映射）",
        ),
    }
}

/// The keywords that are counts.
fn validate_counts(schema: &Json, pointer: &str) -> (r: Result<(), SchemaError>)
    ensures
        is_outcome(r, counts_error(schema@, pointer@)),
{
    match require_non_negative_integer_shape(schema, "minLength", pointer) {
        Ok(()) => {},
        Err(e) => {
            return Err(e);
        },
    }
    match require_non_negative_integer_shape(schema, "maxLength", pointer) {
        Ok(()) => {},
        Err(e) => {
            return Err(e);
        },
    }
    match require_non_negative_integer_shape(schema, "minItems", pointer) {
        Ok(()) => {},
        Err(e) => {
            return Err(e);
        },
    }
    match require_non_negative_integer_shape(schema, "maxItems", pointer) {
        Ok(()) => {},
        Err(e) => {
            return Err(e);
        },
    }
    match require_non_negative_integer_shape(schema, "minProperties", pointer) {
        Ok(()) => {},
        Err(e) => {
            return Err(e);
        },
    }
    match require_non_negative_integer_shape(schema, "maxProperties", pointer) {
        Ok(()) => {},
        Err(e) => {
            return Err(e);
        },
    }
    match require_non_negative_integer_shape(schema, "minContains", pointer) {
        Ok(()) => {},
        Err(e) => {
            return Err(e);
        },
    }
    require_non_negative_integer_shape(schema, "maxContains", pointer)
}

/// The keywords that are bounds.
fn validate_bounds(schema: &Json, pointer: &str) -> (r: Result<(), SchemaError>)
    ensures
        is_outcome(r, bounds_error(schema@, pointer@)),
{
    match require_number_shape(schema, "minimum", pointer) {
        Ok(()) => {},
        Err(e) => {
            return Err(e);
        },
    }
    match require_number_shape(schema, "maximum", pointer) {
        Ok(()) => {},
        Err(e) => {
            return Err(e);
        },
    }
    match require_number_shape(schema, "exclusiveMinimum", pointer) {
        Ok(()) => {},
        Err(e) => {
            return Err(e);
        },
    }
    require_number_shape(schema, "exclusiveMaximum", pointer)
}

/// The keywords that hold no schema and refer to none.
fn validate_shapes(schema: &Json, pointer: &str) -> (r: Result<(), SchemaError>)
    ensures
        is_outcome(r, shape_error(schema@, pointer@)),
{
    match validate_type_keyword(schema, pointer) {
        Ok(()) => {},
        Err(e) => {
            return Err(e);
        },
    }
    match require_nonempty_array_shape(schema, "enum", pointer) {
        Ok(()) => {},
        Err(e) => {
            return Err(e);
        },
    }
    match require_string_array_shape(schema, "required", pointer) {
        Ok(()) => {},
        Err(e) => {
            return Err(e);
        },
    }
    match require_boolean_shape(schema, "uniqueItems", pointer) {
        Ok(()) => {},
        Err(e) => {
            return Err(e);
        },
    }
    match validate_counts(schema, pointer) {
        Ok(()) => {},
        Err(e) => {
            return Err(e);
        },
    }
    match validate_bounds(schema, pointer) {
        Ok(()) => {},
        Err(e) => {
            return Err(e);
        },
    }
    match require_positive_number_shape(schema, "multipleOf", pointer) {
        Ok(()) => {},
        Err(e) => {
            return Err(e);
        },
    }
    validate_dependent_required(schema, pointer)
}

/// A regular expression that the engine accepts.
fn compile_pattern(pointer: &str, pattern: &str) -> (r: Result<(), SchemaError>)
    ensures
        is_outcome(r, regex_error(pattern@, pointer@)),
{
    match pattern_problem(pattern) {
        None => Ok(()),
        Some(problem) => {
            let mut reason = "regex 引擎无法编译（可能用了 ECMA-262 专有语法）：".to_owned();
            reason.append(problem.as_str());
            refuse(pointer, "pattern", reason.as_str())
        },
    }
}

/// What a reference points to.
fn resolve_ref<'a>(reference: &str, root: &'a Json) -> (r: Option<&'a Json>)
    ensures
        match r {
            Some(x) => ref_target(root@, reference@) == Some(x@),
            None => ref_target(root@, reference@) is None,
        },
{
    let letters = chars_of(reference);
    if letters.len() == 0 || letters[0] != '#' {
        return None;
    }
    let fragment = part_from(letters.as_slice(), 1);
    assert(fragment@ =~= reference@.skip(1));
    resolve(root, fragment)
}

/// Whether a reference leads through too many nodes that are nothing but references.
fn chase_pure_ref_chain(start: &str, root: &Json) -> (r: bool)
    ensures
        r == is_chain(root@, start@, MAX_REF_DEPTH as nat),
{
    let mut current = start.to_owned();
    let mut left: usize = MAX_REF_DEPTH;
    while left > 0
        invariant
            left <= MAX_REF_DEPTH,
            is_chain(root@, start@, MAX_REF_DEPTH as nat) == is_chain(
                root@,
                current@,
                left as nat,
            ),
        decreases left,
    {
        let target = match resolve_ref(current.as_str(), root) {
            Some(target) => target,
            None => {
                return false;
            },
        };
        proof {
            lemma_view(*target);
        }
        match target {
            Json::Object(m) => if m.len() != 1 {
                return false;
            },
            _ => {
                return false;
            },
        }
        match target.get("$ref") {
            Some(Json::Text(next)) => {
                current = next.clone();
            },
            _ => {
                return false;
            },
        }
        left -= 1;
    }
    true
}

/// `pattern` is a regular expression.
fn validate_pattern(schema: &Json, pointer: &str) -> (r: Result<(), SchemaError>)
    ensures
        is_outcome(r, pattern_keyword_error(schema@, pointer@)),
{
    match schema.get("pattern") {
        None => Ok(()),
        Some(Json::Text(pattern)) => compile_pattern(pointer, pattern.as_str()),
        Some(_) => refuse(pointer, "pattern", "必须是字符串"),
    }
}

/// `$ref` points to something in this schema, and not through too many other references.
fn validate_ref(schema: &Json, root: &Json, pointer: &str) -> (r: Result<(), SchemaError>)
    ensures
        is_outcome(r, ref_error(schema@, root@, pointer@)),
{
    match schema.get("$ref") {
        None => Ok(()),
        Some(Json::Text(reference)) => {
            if resolve_ref(reference.as_str(), root).is_none() {
                return Err(
                    SchemaError::UnresolvableRef {
                        pointer: pointer.to_owned(),
                        reference: reference.clone(),
                    },
                );
            }
            if chase_pure_ref_chain(reference.as_str(), root) {
                return Err(SchemaError::RefDepthExceeded { reference: reference.clone() });
            }
            Ok(())
        },
        Some(_) => refuse(pointer, "$ref", "必须是字符串"),
    }
}

/// Which keywords without effect were found.
pub struct Seen {
    pub properties: bool,
    pub items: bool,
}

/// Whether an outcome tells what is found.
pub open spec fn tells(r: Result<(), SchemaError>, before: Seen, after: Seen, f: Findings) -> bool {
    match r {
        Ok(()) => {
            &&& f.error is None
            &&& after.properties == (before.properties || f.properties)
            &&& after.items == (before.items || f.items)
        },
        Err(e) => f.error == Some(e@),
    }
}

/// A pointer with a step more.
fn pointer_below(pointer: &str, step: &str) -> (r: String)
    ensures
        r@ == below(pointer@, step@),
{
    let mut r = pointer.to_owned();
    r.append("/");
    r.append(step);
    r
}

/// Looks through a schema.
fn walk(pointer: &str, schema: &Json, root: &Json, seen: &mut Seen) -> (r: Result<
    (),
    SchemaError,
>)
    ensures
        tells(r, *old(seen), *final(seen), findings(pointer@, schema@, root@)),
    decreases schema@, 9nat, 0nat,
{
    proof {
        lemma_view(*schema);
    }
    match schema {
        Json::Flag(_) => Ok(()),
        Json::Object(_) => {
            match validate_shapes(schema, pointer) {
                Ok(()) => {},
                Err(e) => {
                    return Err(e);
                },
            }
            match validate_pattern(schema, pointer) {
                Ok(()) => {},
                Err(e) => {
                    return Err(e);
                },
            }
            match validate_ref(schema, root, pointer) {
                Ok(()) => {},
                Err(e) => {
                    return Err(e);
                },
            }
            if schema.get("unevaluatedProperties").is_some() {
                seen.properties = true;
            }
            if schema.get("unevaluatedItems").is_some() {
                seen.items = true;
            }
            match walk_maps(pointer, schema, root, seen) {
                Ok(()) => {},
                Err(e) => {
                    return Err(e);
                },
            }
            walk_subs(pointer, schema, root, seen)
        },
        _ => Err(SchemaError::NotAnObjectOrBool { pointer: pointer.to_owned() }),
    }
}

/// The keywords that are objects of schemas.
fn walk_maps(pointer: &str, schema: &Json, root: &Json, seen: &mut Seen) -> (r: Result<
    (),
    SchemaError,
>)
    ensures
        tells(r, *old(seen), *final(seen), maps_findings(pointer@, schema@, root@)),
    decreases schema@, 8nat, 0nat,
{
    match walk_map_values(pointer, schema, "properties", root, seen) {
        Ok(()) => {},
        Err(e) => {
            return Err(e);
        },
    }
    match walk_map_values(pointer, schema, "dependentSchemas", root, seen) {
        Ok(()) => {},
        Err(e) => {
            return Err(e);
        },
    }
    match walk_map_values(pointer, schema, "$defs", root, seen) {
        Ok(()) => {},
        Err(e) => {
            return Err(e);
        },
    }
    match walk_map_values(pointer, schema, "definitions", root, seen) {
        Ok(()) => {},
        Err(e) => {
            return Err(e);
        },
    }
    walk_pattern_properties(pointer, schema, root, seen)
}

/// The keywords that are schemas or lists of schemas.
fn walk_subs(pointer: &str, schema: &Json, root: &Json, seen: &mut Seen) -> (r: Result<
    (),
    SchemaError,
>)
    ensures
        tells(r, *old(seen), *final(seen), subs_findings(pointer@, schema@, root@)),
    decreases schema@, 8nat, 0nat,
{
    match walk_single(pointer, schema, root, seen) {
        Ok(()) => {},
        Err(e) => {
            return Err(e);
        },
    }
    match walk_prefix_items(pointer, schema, root, seen) {
        Ok(()) => {},
        Err(e) => {
            return Err(e);
        },
    }
    match walk_branches(pointer, schema, "allOf", root, seen) {
        Ok(()) => {},
        Err(e) => {
            return Err(e);
        },
    }
    match walk_branches(pointer, schema, "anyOf", root, seen) {
        Ok(()) => {},
        Err(e) => {
            return Err(e);
        },
    }
    walk_branches(pointer, schema, "oneOf", root, seen)
}

/// The keywords that are schemas.
fn walk_single(pointer: &str, schema: &Json, root: &Json, seen: &mut Seen) -> (r: Result<
    (),
    SchemaError,
>)
    ensures
        tells(r, *old(seen), *final(seen), single_findings(pointer@, schema@, root@)),
    decreases schema@, 7nat, 0nat,
{
    match walk_sub(pointer, schema, "additionalProperties", root, seen) {
        Ok(()) => {},
        Err(e) => {
            return Err(e);
        },
    }
    match walk_sub(pointer, schema, "propertyNames", root, seen) {
        Ok(()) => {},
        Err(e) => {
            return Err(e);
        },
    }
    match walk_sub(pointer, schema, "items", root, seen) {
        Ok(()) => {},
        Err(e) => {
            return Err(e);
        },
    }
    match walk_sub(pointer, schema, "contains", root, seen) {
        Ok(()) => {},
        Err(e) => {
            return Err(e);
        },
    }
    match walk_sub(pointer, schema, "not", root, seen) {
        Ok(()) => {},
        Err(e) => {
            return Err(e);
        },
    }
    match walk_sub(pointer, schema, "if", root, seen) {
        Ok(()) => {},
        Err(e) => {
            return Err(e);
        },
    }
    match walk_sub(pointer, schema, "then", root, seen) {
        Ok(()) => {},
        Err(e) => {
            return Err(e);
        },
    }
    walk_sub(pointer, schema, "else", root, seen)
}

/// A keyword that is a schema.
fn walk_sub(pointer: &str, schema: &Json, key: &str, root: &Json, seen: &mut Seen) -> (r: Result<
    (),
    SchemaError,
>)
    ensures
        tells(r, *old(seen), *final(seen), sub_findings(pointer@, schema@, key@, root@)),
    decreases schema@, 0nat, 0nat,
{
    match schema.get(key) {
        Some(sub) => {
            proof {
                lemma_member_smaller(schema@, key@);
            }
            let there = pointer_below(pointer, key);
            walk(there.as_str(), sub, root, seen)
        },
        None => Ok(()),
    }
}

proof fn lemma_values_stay(
    pointer: Seq<char>,
    s: JsonView,
    key: Seq<char>,
    root: JsonView,
    a: nat,
    b: nat,
)
    requires
        a <= b,
        object_at(s, key) matches Some(m) && b <= m.len(),
        values_findings(pointer, s, key, root, a).error is Some,
    ensures
        values_findings(pointer, s, key, root, b).error == values_findings(
            pointer,
            s,
            key,
            root,
            a,
        ).error,
    decreases b,
{
    if a < b {
        lemma_values_stay(pointer, s, key, root, a, (b - 1) as nat);
    }
}

proof fn lemma_patterns_stay(pointer: Seq<char>, s: JsonView, root: JsonView, a: nat, b: nat)
    requires
        a <= b,
        object_at(s, "patternProperties"@) matches Some(m) && b <= m.len(),
        patterns_findings(pointer, s, root, a).error is Some,
    ensures
        patterns_findings(pointer, s, root, b).error == patterns_findings(
            pointer,
            s,
            root,
            a,
        ).error,
    decreases b,
{
    if a < b {
        lemma_patterns_stay(pointer, s, root, a, (b - 1) as nat);
    }
}

proof fn lemma_elements_stay(
    pointer: Seq<char>,
    s: JsonView,
    key: Seq<char>,
    root: JsonView,
    a: nat,
    b: nat,
)
    requires
        a <= b,
        list_at(s, key) matches Some(l) && b <= l.len(),
        elements_findings(pointer, s, key, root, a).error is Some,
    ensures
        elements_findings(pointer, s, key, root, b).error == elements_findings(
            pointer,
            s,
            key,
            root,
            a,
        ).error,
    decreases b,
{
    if a < b {
        lemma_elements_stay(pointer, s, key, root, a, (b - 1) as nat);
    }
}

/// A keyword that is an object of schemas.
fn walk_map_values(pointer: &str, schema: &Json, key: &'static str, root: &Json, seen: &mut Seen) -> (r: Result<
    (),
    SchemaError,
>)
    ensures
        tells(r, *old(seen), *final(seen), map_findings(pointer@, schema@, key@, root@)),
    decreases schema@, 5nat, 0nat,
{
    let x = match schema.get(key) {
        Some(x) => x,
        None => {
            return Ok(());
        },
    };
    proof {
        lemma_view(*x);
    }
    match x {
        Json::Object(m) => {
            let n: usize = m.len();
            let ghost start = *seen;
            let mut i: usize = 0;
            while i < n
                invariant
                    i <= n,
                    n == m@.len(),
                    start == *old(seen),
                    object_at(schema@, key@) == Some(members_view(m@)),
                    tells(Ok(()), start, *seen, values_findings(pointer@, schema@, key@, root@, i as nat)),
                decreases n - i,
            {
                proof {
                    lemma_object_smaller(schema@, key@, i as int);
                }
                assert(members_view(m@)[i as int] == m@[i as int]@);
                let front = pointer_below(pointer, key);
                let there = pointer_below(front.as_str(), m[i].key.as_str());
                let ghost before = *seen;
                match walk(there.as_str(), &m[i].value, root, seen) {
                    Ok(()) => {},
                    Err(e) => {
                        proof {
                            assert(values_findings(pointer@, schema@, key@, root@, (i + 1) as nat).error
                                == Some(e@));
                            lemma_values_stay(pointer@, schema@, key@, root@, (i + 1) as nat, n as nat);
                        }
                        return Err(e);
                    },
                }
                i += 1;
            }
            Ok(())
        },
        _ => refuse(pointer, key, "必须是对象（名字 -> 子 schema 的映射）"),
    }
}

/// `patternProperties` is an object of schemas by regular expressions.
fn walk_pattern_properties(pointer: &str, schema: &Json, root: &Json, seen: &mut Seen) -> (r: Result<
    (),
    SchemaError,
>)
    ensures
        tells(r, *old(seen), *final(seen), pattern_map_findings(pointer@, schema@, root@)),
    decreases schema@, 5nat, 0nat,
{
    let x = match schema.get("patternProperties") {
        Some(x) => x,
        None => {
            return Ok(());
        },
    };
    proof {
        lemma_view(*x);
    }
    match x {
        Json::Object(m) => {
            let n: usize = m.len();
            let ghost start = *seen;
            let mut i: usize = 0;
            while i < n
                invariant
                    i <= n,
                    n == m@.len(),
                    start == *old(seen),
                    object_at(schema@, "patternProperties"@) == Some(members_view(m@)),
                    tells(Ok(()), start, *seen, patterns_findings(pointer@, schema@, root@, i as nat)),
                decreases n - i,
            {
                proof {
                    lemma_object_smaller(schema@, "patternProperties"@, i as int);
                }
                assert(members_view(m@)[i as int] == m@[i as int]@);
                match compile_pattern(pointer, m[i].key.as_str()) {
                    Ok(()) => {},
                    Err(e) => {
                        proof {
                            assert(patterns_findings(
                                pointer@,
                                schema@,
                                root@,
                                (i + 1) as nat,
                            ).error == Some(e@));
                            lemma_patterns_stay(
                                pointer@,
                                schema@,
                                root@,
                                (i + 1) as nat,
                                n as nat,
                            );
                        }
                        return Err(e);
                    },
                }
                let front = pointer_below(pointer, "patternProperties");
                let there = pointer_below(front.as_str(), m[i].key.as_str());
                let ghost before = *seen;
                match walk(there.as_str(), &m[i].value, root, seen) {
                    Ok(()) => {},
                    Err(e) => {
                        proof {
                            assert(patterns_findings(pointer@, schema@, root@, (i + 1) as nat).error
                                == Some(e@));
                            lemma_patterns_stay(pointer@, schema@, root@, (i + 1) as nat, n as nat);
                        }
                        return Err(e);
                    },
                }
                i += 1;
            }
            Ok(())
        },
        _ => refuse(
            pointer,
            "patternProperties",
            "必须是对象（正则 -> 子 schema 的映射）",
        ),
    }
}

/// The schemas of a list.
fn walk_elements(
    pointer: &str,
    schema: &Json,
    key: &'static str,
    m: &Vec<Json>,
    root: &Json,
    seen: &mut Seen,
) -> (r: Result<(), SchemaError>)
    requires
        list_at(schema@, key@) == Some(list_view(m@)),
    ensures
        tells(
            r,
            *old(seen),
            *final(seen),
            elements_findings(pointer@, schema@, key@, root@, m@.len()),
        ),
    decreases schema@, 4nat, 0nat,
{
    let n: usize = m.len();
    let ghost start = *seen;
    let mut i: usize = 0;
    while i < n
        invariant
            i <= n,
            n == m@.len(),
            start == *old(seen),
            list_at(schema@, key@) == Some(list_view(m@)),
            tells(Ok(()), start, *seen, elements_findings(pointer@, schema@, key@, root@, i as nat)),
        decreases n - i,
    {
        proof {
            lemma_list_smaller(schema@, key@, i as int);
        }
        assert(list_view(m@)[i as int] == m@[i as int]@);
        let front = pointer_below(pointer, key);
        let mut number = String::new();
        push_dec(&mut number, i as u64);
        let there = pointer_below(front.as_str(), number.as_str());
        let ghost before = *seen;
        match walk(there.as_str(), &m[i], root, seen) {
            Ok(()) => {},
            Err(e) => {
                proof {
                    assert(elements_findings(pointer@, schema@, key@, root@, (i + 1) as nat).error
                        == Some(e@));
                    lemma_elements_stay(pointer@, schema@, key@, root@, (i + 1) as nat, n as nat);
                }
                return Err(e);
            },
        }
        i += 1;
    }
    Ok(())
}

/// `prefixItems` is a list of schemas.
fn walk_prefix_items(pointer: &str, schema: &Json, root: &Json, seen: &mut Seen) -> (r: Result<
    (),
    SchemaError,
>)
    ensures
        tells(r, *old(seen), *final(seen), prefix_findings(pointer@, schema@, root@)),
    decreases schema@, 5nat, 0nat,
{
    let x = match schema.get("prefixItems") {
        Some(x) => x,
        None => {
            return Ok(());
        },
    };
    proof {
        lemma_view(*x);
    }
    match x {
        Json::List(l) => walk_elements(pointer, schema, "prefixItems", l, root, seen),
        _ => refuse(pointer, "prefixItems", "必须是数组"),
    }
}

/// A keyword that is a list of schemas, at least one.
fn walk_branches(pointer: &str, schema: &Json, key: &'static str, root: &Json, seen: &mut Seen) -> (r: Result<
    (),
    SchemaError,
>)
    ensures
        tells(r, *old(seen), *final(seen), branch_findings(pointer@, schema@, key@, root@)),
    decreases schema@, 5nat, 0nat,
{
    match require_nonempty_array_shape(schema, key, pointer) {
        Ok(()) => {},
        Err(e) => {
            return Err(e);
        },
    }
    match schema.get(key) {
        Some(x) => {
            proof {
                lemma_view(*x);
            }
            match x {
                Json::List(l) => walk_elements(pointer, schema, key, l, root, seen),
                _ => Ok(()),
            }
        },
        None => Ok(()),
    }
}

/// What is found in a whole schema.
pub open spec fn schema_findings(schema: JsonView) -> Findings {
    findings(Seq::empty(), schema, schema)
}

/// The names of the keywords without effect, in alphabetical order.
pub open spec fn ignored_keywords(f: Findings) -> Seq<Seq<char>> {
    let items = if f.items {
        seq!["unevaluatedItems"@]
    } else {
        Seq::empty()
    };
    if f.properties {
        items.push("unevaluatedProperties"@)
    } else {
        items
    }
}

/// A schema that was looked through and found right.
#[derive(Debug)]
pub struct CompiledSchema {
    root: Json,
    unsupported: Vec<&'static str>,
}

impl CompiledSchema {
    /// The schema.
    pub closed spec fn schema(&self) -> JsonView {
        self.root@
    }

    /// The names of the keywords in it that have no effect.
    pub closed spec fn ignored(&self) -> Seq<Seq<char>> {
        names_view(self.unsupported@)
    }

    /// Compiles a schema.
    pub fn compile(schema: Json) -> (r: Result<Self, SchemaError>)
        ensures
            match r {
                Ok(c) => {
                    &&& schema_findings(schema@).error is None
                    &&& c.schema() == schema@
                    &&& c.ignored() == ignored_keywords(schema_findings(schema@))
                },
                Err(e) => schema_findings(schema@).error == Some(e@),
            },
    {
        let mut seen = Seen { properties: false, items: false };
        let start = "";
        proof {
            reveal_strlit("");
            assert(start@ =~= Seq::<char>::empty());
        }
        match walk(start, &schema, &schema, &mut seen) {
            Ok(()) => {},
            Err(e) => {
                return Err(e);
            },
        }
        let mut unsupported: Vec<&'static str> = Vec::new();
        if seen.items {
            unsupported.push("unevaluatedItems");
        }
        if seen.properties {
            unsupported.push("unevaluatedProperties");
        }
        assert(names_view(unsupported@) =~= ignored_keywords(schema_findings(schema@)));
        Ok(CompiledSchema { root: schema, unsupported })
    }

    /// Holds a value against the schema. `uneven` tells which numbers are no multiples: a pair of a
    /// number of the value and a number of the schema, as doubles, is there where the first is no
    /// multiple of the second.
    pub fn validate(&self, instance: &Json, uneven: &Vec<(u64, u64)>) -> (r: Result<
        (),
        ValidationError,
    >)
        ensures
            match r {
                Ok(()) => schema_issues(self.schema(), uneven@, instance@).len() == 0,
                Err(e) => {
                    &&& e.issues@.len() > 0
                    &&& issues_view(e.issues@) == schema_issues(
                        self.schema(),
                        uneven@,
                        instance@,
                    )
                },
            },
    {
        let mut issues: Vec<ValidationIssue> = Vec::new();
        self.collect_issues(instance, uneven, &mut issues);
        assert(issues_view(issues@) =~= schema_issues(self.schema(), uneven@, instance@));
        if issues.len() == 0 {
            Ok(())
        } else {
            Err(ValidationError { issues })
        }
    }

    /// Holds a value against the schema and adds what is wrong to `out`.
    pub fn collect_issues(
        &self,
        instance: &Json,
        uneven: &Vec<(u64, u64)>,
        out: &mut Vec<ValidationIssue>,
    )
        ensures
            issues_view(final(out)@) == issues_view(old(out)@) + schema_issues(
                self.schema(),
                uneven@,
                instance@,
            ),
    {
        validate_root(&self.root, uneven, instance, out);
    }

    /// The schema.
    pub fn as_value(&self) -> (r: &Json)
        ensures
            r@ == self.schema(),
    {
        &self.root
    }

    /// The names of the keywords in the schema that have no effect.
    pub fn unsupported_keywords(&self) -> (r: &[&'static str])
        ensures
            names_view(r@) == self.ignored(),
    {
        self.unsupported.as_slice()
    }
}

/// What names are.
pub open spec fn names_view(names: Seq<&'static str>) -> Seq<Seq<char>> {
    Seq::new(names.len(), |i: int| names[i]@)
}

} // verus!
