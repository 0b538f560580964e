//! Holding a value against a schema.

use vstd::prelude::*;

use crate::regexes::{matches_text, pattern_found, pattern_problem};
use crate::schema::error::{
    issues_view, path_view, type_text, IssueView, JsonType, PathSegment, SegmentView,
    ValidationIssue,
};
use crate::schema::json::{
    count, elements, find, finite, lemma_member_smaller, lemma_view, list_view, member, members,
    members_view, place, same_json, whole, Json, JsonView, Member, Number,
};
use crate::schema::pointer::resolve;
use crate::schema::rules::{
    actual_type, additional_issues, all_issues, any_issues, array_issues, bound_issues, child,
    const_issues, containing, contains_issues, count_at, counted, dependent_issues,
    dependent_schema_issues, enum_issues, expected_types, extra_issues, has_type, has_twins,
    if_issues, inner, is_among, is_covered, is_set, issue, item_issues, least_issues,
    lemma_list_smaller, lemma_object_smaller, len_at, list_at, met, most_issues, multiple_issues,
    name_issues, node_issues, not_issues, number_issues, object_at, object_issues,
    object_schema_issues, one_if, one_issues, pattern_issues, patterns_issues, prefix_issues,
    property_issues, ref_issues, required_issues, schema_issues, sibling_issues, some_pattern,
    string_issues, sub_issues, text_at, type_issues, type_list, type_named, type_texts, types_in,
    union_issue, width_at, Place, Setting, Side, MAX_REF_DEPTH,
};
use crate::strings::{chars_of, join_texts, part_from, push_dec, str_eq, texts};

verus! {

broadcast use vstd::seq::group_seq_axioms;

/// What stays the same while a value is held against a schema.
pub struct Ctx<'a> {
    /// The whole schema.
    pub root: &'a Json,
    /// The numbers that are no multiples, each with the number that it is no multiple of.
    pub uneven: &'a Vec<(u64, u64)>,
}

impl<'a> View for Ctx<'a> {
    type V = Setting;

    open spec fn view(&self) -> Setting {
        Setting { root: self.root@, uneven: self.uneven@ }
    }
}

/// Where in a value a check is.
pub struct Frame {
    pub path: Vec<PathSegment>,
    pub refs: Vec<String>,
    pub depth: usize,
}

impl View for Frame {
    type V = Place;

    open spec fn view(&self) -> Place {
        Place { path: path_view(self.path@), refs: texts(self.refs@), depth: self.depth as nat }
    }
}

/// Copies a path.
fn copy_path(path: &Vec<PathSegment>) -> (r: Vec<PathSegment>)
    ensures
        path_view(r@) == path_view(path@),
{
    let mut r: Vec<PathSegment> = Vec::new();
    let mut i: usize = 0;
    while i < path.len()
        invariant
            i <= path@.len(),
            path_view(r@) == path_view(path@).take(i as int),
        decreases path@.len() - i,
    {
        let ghost before = path_view(r@);
        let segment = match &path[i] {
            PathSegment::Key(key) => PathSegment::Key(key.clone()),
            PathSegment::Index(index) => PathSegment::Index(*index),
        };
        assert(segment@ == path@[i as int]@);
        r.push(segment);
        i += 1;
        assert(path_view(r@) =~= before.push(segment@));
        assert(path_view(path@).take(i as int) =~= before.push(segment@));
    }
    assert(path_view(path@).take(path@.len() as int) =~= path_view(path@));
    r
}

/// Notes an issue.
fn push_issue(
    frame: &Frame,
    keyword: &'static str,
    message: String,
    union: bool,
    out: &mut Vec<ValidationIssue>,
)
    ensures
        issues_view(final(out)@) == issues_view(old(out)@).push(
            if union {
                union_issue(frame@, keyword@, message@)
            } else {
                issue(frame@, keyword@, message@)
            },
        ),
{
    let found_issue = ValidationIssue {
        path: copy_path(&frame.path),
        message,
        keyword,
        expected_types: Vec::new(),
        from_union_branch: union,
    };
    assert(found_issue.expected_types@ =~= Seq::<JsonType>::empty());
    out.push(found_issue);
    assert(issues_view(out@) =~= issues_view(old(out)@).push(found_issue@));
}

/// Goes to a member or an element. The references that were being followed come back.
fn descend(frame: &mut Frame, segment: PathSegment) -> (saved: Vec<String>)
    ensures
        final(frame)@ == child(old(frame)@, segment@),
        texts(saved@) == old(frame)@.refs,
{
    let mut saved: Vec<String> = Vec::new();
    std::mem::swap(&mut saved, &mut frame.refs);
    frame.path.push(segment);
    assert(path_view(frame.path@) =~= path_view(old(frame).path@).push(segment@));
    assert(texts(frame.refs@) =~= Seq::<Seq<char>>::empty());
    saved
}

/// Comes back from a member or an element.
fn ascend(frame: &mut Frame, saved: Vec<String>)
    requires
        old(frame)@.path.len() > 0,
    ensures
        final(frame)@ == (Place {
            path: old(frame)@.path.drop_last(),
            refs: texts(saved@),
            depth: old(frame)@.depth,
        }),
{
    let _ = frame.path.pop();
    frame.refs = saved;
    assert(path_view(frame.path@) =~= path_view(old(frame).path@).drop_last());
}

/// The type of a name.
pub fn json_type_from_name(name: &str) -> (r: Option<JsonType>)
    ensures
        r == type_named(name@),
{
    if str_eq(name, "null") {
        Some(JsonType::Null)
    } else if str_eq(name, "boolean") {
        Some(JsonType::Boolean)
    } else if str_eq(name, "object") {
        Some(JsonType::Object)
    } else if str_eq(name, "array") {
        Some(JsonType::Array)
    } else if str_eq(name, "number") {
        Some(JsonType::Number)
    } else if str_eq(name, "integer") {
        Some(JsonType::Integer)
    } else if str_eq(name, "string") {
        Some(JsonType::String)
    } else {
        None
    }
}

/// The types that the value of `type` names.
fn parse_type_list(t: &Json) -> (r: Vec<JsonType>)
    ensures
        r@ == type_list(t@),
{
    proof {
        lemma_view(*t);
    }
    let mut r: Vec<JsonType> = Vec::new();
    match t {
        Json::Text(name) => {
            if let Some(x) = json_type_from_name(name.as_str()) {
                r.push(x);
            }
            assert(r@ =~= type_list(t@));
        },
        Json::List(l) => {
            let n: usize = l.len();
            let mut i: usize = 0;
            assert(list_view(l@).take(0) =~= Seq::<JsonView>::empty());
            while i < n
                invariant
                    i <= n,
                    n == l@.len(),
                    r@ == types_in(list_view(l@).take(i as int)),
                decreases n - i,
            {
                proof {
                    let front = list_view(l@).take(i + 1);
                    assert(front.drop_last() =~= list_view(l@).take(i as int));
                    assert(front.last() == l@[i as int]@);
                }
                if let Json::Text(name) = &l[i] {
                    if let Some(x) = json_type_from_name(name.as_str()) {
                        r.push(x);
                    }
                }
                i += 1;
            }
            assert(list_view(l@).take(n as int) =~= list_view(l@));
        },
        _ => {
            assert(r@ =~= type_list(t@));
        },
    }
    r
}

/// Whether a value has a type.
fn type_matches(expected: JsonType, instance: &Json) -> (r: bool)
    ensures
        r == has_type(expected, instance@),
{
    match (expected, instance) {
        (JsonType::Integer, Json::Number(n)) => finite(n.bits) && whole(n.bits),
        (JsonType::Number, Json::Number(_)) => true,
        (JsonType::Null, Json::Null) => true,
        (JsonType::Boolean, Json::Flag(_)) => true,
        (JsonType::Object, Json::Object(_)) => true,
        (JsonType::Array, Json::List(_)) => true,
        (JsonType::String, Json::Text(_)) => true,
        _ => false,
    }
}

/// The name of the type of a value.
fn actual_type_name(instance: &Json) -> (r: &'static str)
    ensures
        r@ == actual_type(instance@),
{
    match instance {
        Json::Null => "null",
        Json::Flag(_) => "boolean",
        Json::Number(_) => "number",
        Json::Text(_) => "string",
        Json::List(_) => "array",
        Json::Object(_) => "object",
    }
}

/// Whether a keyword is `true`.
fn flag_set(schema: &Json, key: &str) -> (r: bool)
    ensures
        r == is_set(schema@, key@),
{
    match schema.get(key) {
        Some(Json::Flag(b)) => *b,
        Some(_) => false,
        None => false,
    }
}

/// The count that a keyword has.
fn count_of(schema: &Json, key: &str) -> (r: Option<usize>)
    ensures
        match r {
            Some(n) => count_at(schema@, key@) == Some(n as nat),
            None => count_at(schema@, key@) is None,
        },
{
    match schema.get(key) {
        Some(Json::Number(n)) => count(n),
        Some(_) => None,
        None => None,
    }
}

/// The types of which a value has to have one.
fn expected_of(schema: &Json) -> (r: Vec<JsonType>)
    ensures
        r@ == expected_types(schema@),
{
    match schema.get("type") {
        Some(t) => {
            let mut l = parse_type_list(t);
            if l.len() > 0 && flag_set(schema, "nullable") {
                let n: usize = l.len();
                let mut i: usize = 0;
                while i < n
                    invariant
                        i <= n,
                        n == l@.len(),
                        l@ == type_list(t@),
                        n > 0,
                        member(schema@, "type"@) == Some(t@),
                        forall|j: int| 0 <= j < i ==> l@[j] != JsonType::Null,
                    decreases n - i,
                {
                    if l[i] == JsonType::Null {
                        assert(l@.contains(JsonType::Null));
                        return l;
                    }
                    i += 1;
                }
                l.push(JsonType::Null);
            }
            l
        },
        None => Vec::new(),
    }
}

/// `type`.
fn check_type(schema: &Json, instance: &Json, frame: &Frame, out: &mut Vec<ValidationIssue>)
    ensures
        issues_view(final(out)@) == issues_view(old(out)@) + type_issues(
            schema@,
            instance@,
            frame@,
        ),
{
    let expected = expected_of(schema);
    let n: usize = expected.len();
    let mut names: Vec<String> = Vec::new();
    let mut i: usize = 0;
    while i < n
        invariant
            i <= n,
            n == expected@.len(),
            expected@ == expected_types(schema@),
            texts(names@) == type_texts(expected@).take(i as int),
            forall|j: int| 0 <= j < i ==> !has_type(#[trigger] expected@[j], instance@),
            *out == *old(out),
        decreases n - i,
    {
        if type_matches(expected[i], instance) {
            assert(type_issues(schema@, instance@, frame@) =~= Seq::<IssueView>::empty());
            assert(issues_view(out@) =~= issues_view(old(out)@) + Seq::<IssueView>::empty());
            return;
        }
        let ghost before = texts(names@);
        names.push(expected[i].as_str().to_owned());
        i += 1;
        assert(texts(names@) =~= before.push(type_text(expected@[i - 1])));
        assert(type_texts(expected@).take(i as int) =~= before.push(type_text(expected@[i - 1])));
    }
    if n == 0 {
        assert(issues_view(out@) =~= issues_view(old(out)@) + Seq::<IssueView>::empty());
        return;
    }
    assert(type_texts(expected@).take(n as int) =~= type_texts(expected@));
    let mut message = "期望类型为 ".to_owned();
    let list = join_texts(&names, " | ");
    message.append(list.as_str());
    message.append("，实际是 ");
    message.append(actual_type_name(instance));
    let found_issue = ValidationIssue {
        path: copy_path(&frame.path),
        message,
        keyword: "type",
        expected_types: expected,
        from_union_branch: false,
    };
    out.push(found_issue);
    assert(issues_view(out@) =~= issues_view(old(out)@) + seq![found_issue@]);
}

/// `enum`.
fn check_enum(schema: &Json, instance: &Json, frame: &Frame, out: &mut Vec<ValidationIssue>)
    ensures
        issues_view(final(out)@) == issues_view(old(out)@) + enum_issues(
            schema@,
            instance@,
            frame@,
        ),
{
    if let Some(x) = schema.get("enum") {
        proof {
            lemma_view(*x);
        }
        if let Json::List(l) = x {
            let n: usize = l.len();
            let mut i: usize = 0;
            let mut among = false;
            while i < n && !among
                invariant
                    i <= n,
                    n == l@.len(),
                    among ==> is_among(list_view(l@), instance@),
                    !among ==> forall|j: int|
                        0 <= j < i ==> !same_json(#[trigger] list_view(l@)[j], instance@),
                decreases n - i,
            {
                assert(list_view(l@)[i as int] == l@[i as int]@);
                if l[i].same(instance) {
                    among = true;
                }
                i += 1;
            }
            if !among {
                push_issue(frame, "enum", "取值不在 enum 允许的集合内".to_owned(), false, out);
            }
        }
    }
    assert(issues_view(out@) =~= issues_view(old(out)@) + enum_issues(
        schema@,
        instance@,
        frame@,
    ));
}

/// `const`.
fn check_const(schema: &Json, instance: &Json, frame: &Frame, out: &mut Vec<ValidationIssue>)
    ensures
        issues_view(final(out)@) == issues_view(old(out)@) + const_issues(
            schema@,
            instance@,
            frame@,
        ),
{
    if let Some(x) = schema.get("const") {
        if !x.same(instance) {
            push_issue(frame, "const", "取值与 const 指定的常量不相等".to_owned(), false, out);
        }
    }
    assert(issues_view(out@) =~= issues_view(old(out)@) + const_issues(
        schema@,
        instance@,
        frame@,
    ));
}

/// Says two counts.
fn say_counts(front: &str, limit: usize, middle: &str, actual: usize, back: &str) -> (r: String)
    ensures
        r@ == counted(front@, limit as nat, middle@, actual as nat, back@),
{
    let mut r = front.to_owned();
    push_dec(&mut r, limit as u64);
    r.append(middle);
    push_dec(&mut r, actual as u64);
    r.append(back);
    r
}

/// A keyword for the least count and one for the greatest.
fn check_min_max(
    schema: &Json,
    min_key: &'static str,
    max_key: &'static str,
    actual: usize,
    frame: &Frame,
    out: &mut Vec<ValidationIssue>,
)
    ensures
        issues_view(final(out)@) == issues_view(old(out)@) + least_issues(
            schema@,
            min_key@,
            actual as nat,
            frame@,
        ) + most_issues(schema@, max_key@, actual as nat, frame@),
{
    if let Some(min) = count_of(schema, min_key) {
        if actual < min {
            let mut message = min_key.to_owned();
            let rest = say_counts(" 要求至少 ", min, " 个，实际 ", actual, " 个");
            message.append(rest.as_str());
            push_issue(frame, min_key, message, false, out);
        }
    }
    let ghost half = issues_view(old(out)@) + least_issues(schema@, min_key@, actual as nat, frame@);
    assert(issues_view(out@) =~= half);
    if let Some(max) = count_of(schema, max_key) {
        if actual > max {
            let mut message = max_key.to_owned();
            let rest = say_counts(" 要求至多 ", max, " 个，实际 ", actual, " 个");
            message.append(rest.as_str());
            push_issue(frame, max_key, message, false, out);
        }
    }
    assert(issues_view(out@) =~= half + most_issues(schema@, max_key@, actual as nat, frame@));
}

/// What a schema asks of a string.
fn check_string_keywords(schema: &Json, s: &str, frame: &Frame, out: &mut Vec<ValidationIssue>)
    ensures
        issues_view(final(out)@) == issues_view(old(out)@) + string_issues(schema@, s@, frame@),
{
    let length: usize = chars_of(s).len();
    let ghost start = issues_view(old(out)@);
    if let Some(min) = count_of(schema, "minLength") {
        if length < min {
            let message = say_counts("字符串长度至少 ", min, " 个码点，实际 ", length, " 个");
            push_issue(frame, "minLength", message, false, out);
        }
    }
    if let Some(max) = count_of(schema, "maxLength") {
        if length > max {
            let message = say_counts("字符串长度至多 ", max, " 个码点，实际 ", length, " 个");
            push_issue(frame, "maxLength", message, false, out);
        }
    }
    if let Some(Json::Text(pattern)) = schema.get("pattern") {
        if pattern_problem(pattern.as_str()).is_none() {
            if !pattern_found(pattern.as_str(), s) {
                let mut message = "字符串不匹配 pattern `".to_owned();
                message.append(pattern.as_str());
                message.append("`");
                push_issue(frame, "pattern", message, false, out);
            }
        }
    }
    assert(issues_view(out@) =~= start + string_issues(schema@, s@, frame@));
}

/// Says on which side of a bound a number should be.
fn say_bound(sign: &str, bound: &str, n: &str) -> (r: String)
    ensures
        r@ == "取值必须 "@ + sign@ + bound@ + "，实际是 "@ + n@,
{
    let mut r = "取值必须 ".to_owned();
    r.append(sign);
    r.append(bound);
    r.append("，实际是 ");
    r.append(n);
    r
}

/// A bound of numbers.
fn check_bound(
    schema: &Json,
    key: &'static str,
    side: Side,
    sign: &str,
    n: &Number,
    frame: &Frame,
    out: &mut Vec<ValidationIssue>,
)
    ensures
        issues_view(final(out)@) == issues_view(old(out)@) + bound_issues(
            schema@,
            key@,
            side,
            sign@,
            n@,
            frame@,
        ),
{
    if let Some(Json::Number(bound)) = schema.get(key) {
        let a: i64 = place(n.bits);
        let b: i64 = place(bound.bits);
        let wrong = match side {
            Side::Below => a < b,
            Side::Above => a > b,
            Side::NotAbove => a <= b,
            Side::NotBelow => a >= b,
        };
        if wrong {
            let message = say_bound(sign, bound.text.as_str(), n.text.as_str());
            push_issue(frame, key, message, false, out);
        }
    }
    assert(issues_view(out@) =~= issues_view(old(out)@) + bound_issues(
        schema@,
        key@,
        side,
        sign@,
        n@,
        frame@,
    ));
}

/// `multipleOf`.
fn check_multiple(
    schema: &Json,
    n: &Number,
    ctx: &Ctx<'_>,
    frame: &Frame,
    out: &mut Vec<ValidationIssue>,
)
    ensures
        issues_view(final(out)@) == issues_view(old(out)@) + multiple_issues(
            ctx@,
            schema@,
            n@,
            frame@,
        ),
{
    if let Some(Json::Number(m)) = schema.get("multipleOf") {
        if place(m.bits) > 0 {
            let k: usize = ctx.uneven.len();
            let mut i: usize = 0;
            let mut uneven = false;
            while i < k && !uneven
                invariant
                    i <= k,
                    k == ctx.uneven@.len(),
                    uneven ==> ctx.uneven@.contains((n.bits, m.bits)),
                    !uneven ==> forall|j: int|
                        0 <= j < i ==> #[trigger] ctx.uneven@[j] != (n.bits, m.bits),
                decreases k - i,
            {
                let pair = ctx.uneven[i];
                if pair.0 == n.bits && pair.1 == m.bits {
                    assert(ctx.uneven@[i as int] == (n.bits, m.bits));
                    uneven = true;
                }
                i += 1;
            }
            if uneven {
                let mut message = "取值必须是 ".to_owned();
                message.append(m.text.as_str());
                message.append(" 的整数倍，实际是 ");
                message.append(n.text.as_str());
                push_issue(frame, "multipleOf", message, false, out);
            }
        }
    }
    assert(issues_view(out@) =~= issues_view(old(out)@) + multiple_issues(
        ctx@,
        schema@,
        n@,
        frame@,
    ));
}

/// What a schema asks of a number.
fn check_number_keywords(
    schema: &Json,
    n: &Number,
    ctx: &Ctx<'_>,
    frame: &Frame,
    out: &mut Vec<ValidationIssue>,
)
    ensures
        issues_view(final(out)@) == issues_view(old(out)@) + number_issues(
            ctx@,
            schema@,
            n@,
            frame@,
        ),
{
    check_bound(schema, "minimum", Side::Below, "≥ ", n, frame, out);
    check_bound(schema, "maximum", Side::Above, "≤ ", n, frame, out);
    check_bound(schema, "exclusiveMinimum", Side::NotAbove, "> ", n, frame, out);
    check_bound(schema, "exclusiveMaximum", Side::NotBelow, "< ", n, frame, out);
    check_multiple(schema, n, ctx, frame, out);
    assert(issues_view(out@) =~= issues_view(old(out)@) + number_issues(
        ctx@,
        schema@,
        n@,
        frame@,
    ));
}

/// Holds a value against a schema and notes what is wrong.
pub fn validate_node(
    schema: &Json,
    instance: &Json,
    ctx: &Ctx<'_>,
    frame: &mut Frame,
    out: &mut Vec<ValidationIssue>,
)
    ensures
        issues_view(final(out)@) == issues_view(old(out)@) + node_issues(
            ctx@,
            schema@,
            instance@,
            old(frame)@,
        ),
        final(frame)@ == old(frame)@,
    decreases MAX_REF_DEPTH - old(frame)@.depth, schema@, 9nat, 0nat,
{
    proof {
        lemma_view(*schema);
    }
    match schema {
        Json::Flag(false) => {
            push_issue(
                frame,
                "schema",
                "该位置的 schema 恒为 false，任何取值都不满足".to_owned(),
                false,
                out,
            );
            assert(issues_view(out@) =~= issues_view(old(out)@) + node_issues(
                ctx@,
                schema@,
                instance@,
                old(frame)@,
            ));
        },
        Json::Object(_) => validate_object_schema(schema, instance, ctx, frame, out),
        _ => {
            assert(issues_view(out@) =~= issues_view(old(out)@) + Seq::<IssueView>::empty());
        },
    }
}

/// Whether a value meets a schema.
fn branch_passes(sub: &Json, instance: &Json, ctx: &Ctx<'_>, frame: &mut Frame) -> (r: bool)
    ensures
        r == (node_issues(ctx@, sub@, instance@, old(frame)@).len() == 0),
        final(frame)@ == old(frame)@,
    decreases MAX_REF_DEPTH - old(frame)@.depth, sub@, 10nat, 0nat,
{
    let mut scratch: Vec<ValidationIssue> = Vec::new();
    validate_node(sub, instance, ctx, frame, &mut scratch);
    scratch.len() == 0
}

/// What a schema that is an object asks of a value.
#[verifier::rlimit(60)]
#[verifier::spinoff_prover]
fn validate_object_schema(
    schema: &Json,
    instance: &Json,
    ctx: &Ctx<'_>,
    frame: &mut Frame,
    out: &mut Vec<ValidationIssue>,
)
    ensures
        issues_view(final(out)@) == issues_view(old(out)@) + object_schema_issues(
            ctx@,
            schema@,
            instance@,
            old(frame)@,
        ),
        final(frame)@ == old(frame)@,
    decreases MAX_REF_DEPTH - old(frame)@.depth, schema@, 8nat, 0nat,
{
    let ghost start = issues_view(old(out)@);
    let ghost (c, s, v, p) = (ctx@, schema@, instance@, frame@);
    check_type(schema, instance, frame, out);
    check_enum(schema, instance, frame, out);
    check_const(schema, instance, frame, out);
    let ghost part = type_issues(s, v, p) + enum_issues(s, v, p) + const_issues(s, v, p);
    assert(issues_view(out@) =~= start + part);
    check_ref(schema, instance, ctx, frame, out);
    let ghost part = part + ref_issues(c, s, v, p);
    assert(issues_view(out@) =~= start + part);
    check_all_of(schema, instance, ctx, frame, out);
    let ghost part = part + all_issues(c, s, v, p, len_at(s, "allOf"@));
    assert(issues_view(out@) =~= start + part);
    check_any_of(schema, instance, ctx, frame, out);
    let ghost part = part + any_issues(c, s, v, p);
    assert(issues_view(out@) =~= start + part);
    check_one_of(schema, instance, ctx, frame, out);
    let ghost part = part + one_issues(c, s, v, p);
    assert(issues_view(out@) =~= start + part);
    check_not(schema, instance, ctx, frame, out);
    let ghost part = part + not_issues(c, s, v, p);
    assert(issues_view(out@) =~= start + part);
    check_if_then_else(schema, instance, ctx, frame, out);
    let ghost part = part + if_issues(c, s, v, p);
    assert(issues_view(out@) =~= start + part);
    proof {
        lemma_view(*instance);
    }
    match instance {
        Json::Object(_) => {
            check_object_keywords(schema, instance, ctx, frame, out);
            assert(issues_view(out@) =~= start + (part + object_issues(c, s, v, p)));
        },
        Json::List(_) => {
            check_array_keywords(schema, instance, ctx, frame, out);
            assert(issues_view(out@) =~= start + (part + array_issues(c, s, v, p)));
        },
        Json::Text(t) => {
            check_string_keywords(schema, t.as_str(), frame, out);
            assert(issues_view(out@) =~= start + (part + string_issues(s, t@, p)));
        },
        Json::Number(n) => {
            check_number_keywords(schema, n, ctx, frame, out);
            assert(issues_view(out@) =~= start + (part + number_issues(c, s, n@, p)));
        },
        _ => {
            assert(part + Seq::<IssueView>::empty() =~= part);
        },
    }
}

/// `$ref`.
fn check_ref(
    schema: &Json,
    instance: &Json,
    ctx: &Ctx<'_>,
    frame: &mut Frame,
    out: &mut Vec<ValidationIssue>,
)
    ensures
        issues_view(final(out)@) == issues_view(old(out)@) + ref_issues(
            ctx@,
            schema@,
            instance@,
            old(frame)@,
        ),
        final(frame)@ == old(frame)@,
    decreases MAX_REF_DEPTH - old(frame)@.depth, schema@, 5nat, 0nat,
{
    let ghost none = Seq::<IssueView>::empty();
    assert(issues_view(out@) =~= issues_view(old(out)@) + none);
    let reference = match schema.get("$ref") {
        Some(Json::Text(reference)) => reference,
        _ => {
            return;
        },
    };
    if frame.depth >= MAX_REF_DEPTH {
        return;
    }
    let letters = chars_of(reference.as_str());
    if letters.len() == 0 || letters[0] != '#' {
        return;
    }
    let fragment = part_from(letters.as_slice(), 1);
    assert(fragment@ =~= reference@.skip(1));
    let target = match resolve(ctx.root, fragment) {
        Some(target) => target,
        None => {
            return;
        },
    };
    let n: usize = frame.refs.len();
    let mut i: usize = 0;
    while i < n
        invariant
            i <= n,
            n == frame.refs@.len(),
            frame@ == old(frame)@,
            *out == *old(out),
            text_at(schema@, "$ref"@) == Some(reference@),
            issues_view(old(out)@) == issues_view(old(out)@) + Seq::<IssueView>::empty(),
            forall|j: int| 0 <= j < i ==> #[trigger] frame.refs@[j]@ != reference@,
        decreases n - i,
    {
        if str_eq(frame.refs[i].as_str(), reference.as_str()) {
            assert(frame@.refs[i as int] == reference@);
            assert(frame@.refs.contains(reference@));
            return;
        }
        i += 1;
    }
    assert(!frame@.refs.contains(reference@)) by {
        assert forall|j: int| 0 <= j < frame@.refs.len() implies frame@.refs[j] != reference@ by {
            assert(frame@.refs[j] == frame.refs@[j]@);
        }
    }
    frame.refs.push(reference.clone());
    frame.depth = frame.depth + 1;
    let ghost there = Place {
        path: old(frame)@.path,
        refs: old(frame)@.refs.push(reference@),
        depth: old(frame)@.depth + 1,
    };
    assert(frame@ =~= there);
    validate_node(target, instance, ctx, frame, out);
    frame.depth = frame.depth - 1;
    let _ = frame.refs.pop();
    assert(frame@.refs =~= there.refs.drop_last());
    assert(there.refs.drop_last() =~= old(frame)@.refs);
    assert(frame@ =~= old(frame)@);
}

/// `allOf`.
fn check_all_of(
    schema: &Json,
    instance: &Json,
    ctx: &Ctx<'_>,
    frame: &mut Frame,
    out: &mut Vec<ValidationIssue>,
)
    ensures
        issues_view(final(out)@) == issues_view(old(out)@) + all_issues(
            ctx@,
            schema@,
            instance@,
            old(frame)@,
            len_at(schema@, "allOf"@),
        ),
        final(frame)@ == old(frame)@,
    decreases MAX_REF_DEPTH - old(frame)@.depth, schema@, 5nat, 0nat,
{
    assert(issues_view(out@) =~= issues_view(old(out)@) + Seq::<IssueView>::empty());
    if let Some(x) = schema.get("allOf") {
        proof {
            lemma_view(*x);
        }
        if let Json::List(l) = x {
            let n: usize = l.len();
            let mut i: usize = 0;
            while i < n
                invariant
                    i <= n,
                    n == l@.len(),
                    list_at(schema@, "allOf"@) == Some(list_view(l@)),
                    frame@ == old(frame)@,
                    issues_view(out@) == issues_view(old(out)@) + all_issues(
                        ctx@,
                        schema@,
                        instance@,
                        old(frame)@,
                        i as nat,
                    ),
                decreases n - i,
            {
                proof {
                    lemma_list_smaller(schema@, "allOf"@, i as int);
                }
                let ghost before = issues_view(out@);
                validate_node(&l[i], instance, ctx, frame, out);
                let ghost found_here = node_issues(ctx@, l@[i as int]@, instance@, frame@);
                assert(list_view(l@)[i as int] == l@[i as int]@);
                i += 1;
                assert(issues_view(out@) =~= issues_view(old(out)@) + (all_issues(
                    ctx@,
                    schema@,
                    instance@,
                    frame@,
                    (i - 1) as nat,
                ) + found_here));
            }
        }
    }
}

/// How many schemas of a list are met.
fn count_met(
    schema: &Json,
    key: &str,
    l: &Vec<Json>,
    instance: &Json,
    ctx: &Ctx<'_>,
    frame: &mut Frame,
) -> (r: usize)
    requires
        list_at(schema@, key@) == Some(list_view(l@)),
    ensures
        r == met(ctx@, schema@, key@, instance@, old(frame)@, l@.len()),
        final(frame)@ == old(frame)@,
    decreases MAX_REF_DEPTH - old(frame)@.depth, schema@, 4nat, 0nat,
{
    let n: usize = l.len();
    let mut i: usize = 0;
    let mut r: usize = 0;
    while i < n
        invariant
            i <= n,
            n == l@.len(),
            list_at(schema@, key@) == Some(list_view(l@)),
            frame@ == old(frame)@,
            r == met(ctx@, schema@, key@, instance@, old(frame)@, i as nat),
            r <= i,
        decreases n - i,
    {
        proof {
            lemma_list_smaller(schema@, key@, i as int);
        }
        assert(list_view(l@)[i as int] == l@[i as int]@);
        if branch_passes(&l[i], instance, ctx, frame) {
            r += 1;
        }
        i += 1;
    }
    r
}

/// `anyOf`.
fn check_any_of(
    schema: &Json,
    instance: &Json,
    ctx: &Ctx<'_>,
    frame: &mut Frame,
    out: &mut Vec<ValidationIssue>,
)
    ensures
        issues_view(final(out)@) == issues_view(old(out)@) + any_issues(
            ctx@,
            schema@,
            instance@,
            old(frame)@,
        ),
        final(frame)@ == old(frame)@,
    decreases MAX_REF_DEPTH - old(frame)@.depth, schema@, 5nat, 0nat,
{
    if let Some(x) = schema.get("anyOf") {
        proof {
            lemma_view(*x);
        }
        if let Json::List(l) = x {
            if count_met(schema, "anyOf", l, instance, ctx, frame) == 0 {
                let mut message = "不满足 anyOf 中 ".to_owned();
                push_dec(&mut message, l.len() as u64);
                message.append(" 个分支的任意一个");
                push_issue(frame, "anyOf", message, true, out);
            }
        }
    }
    assert(issues_view(out@) =~= issues_view(old(out)@) + any_issues(
        ctx@,
        schema@,
        instance@,
        frame@,
    ));
}

/// `oneOf`.
fn check_one_of(
    schema: &Json,
    instance: &Json,
    ctx: &Ctx<'_>,
    frame: &mut Frame,
    out: &mut Vec<ValidationIssue>,
)
    ensures
        issues_view(final(out)@) == issues_view(old(out)@) + one_issues(
            ctx@,
            schema@,
            instance@,
            old(frame)@,
        ),
        final(frame)@ == old(frame)@,
    decreases MAX_REF_DEPTH - old(frame)@.depth, schema@, 5nat, 0nat,
{
    if let Some(x) = schema.get("oneOf") {
        proof {
            lemma_view(*x);
        }
        if let Json::List(l) = x {
            let passed: usize = count_met(schema, "oneOf", l, instance, ctx, frame);
            if passed == 0 {
                let mut message = "不满足 oneOf 中 ".to_owned();
                push_dec(&mut message, l.len() as u64);
                message.append(" 个分支的任何一个");
                push_issue(frame, "oneOf", message, true, out);
            } else if passed > 1 {
                let mut message = "同时满足 oneOf 中 ".to_owned();
                push_dec(&mut message, passed as u64);
                message.append(" 个分支（应恰好一个）");
                push_issue(frame, "oneOf", message, true, out);
            }
        }
    }
    assert(issues_view(out@) =~= issues_view(old(out)@) + one_issues(
        ctx@,
        schema@,
        instance@,
        frame@,
    ));
}

/// `not`.
fn check_not(
    schema: &Json,
    instance: &Json,
    ctx: &Ctx<'_>,
    frame: &mut Frame,
    out: &mut Vec<ValidationIssue>,
)
    ensures
        issues_view(final(out)@) == issues_view(old(out)@) + not_issues(
            ctx@,
            schema@,
            instance@,
            old(frame)@,
        ),
        final(frame)@ == old(frame)@,
    decreases MAX_REF_DEPTH - old(frame)@.depth, schema@, 5nat, 0nat,
{
    if let Some(sub) = schema.get("not") {
        proof {
            lemma_member_smaller(schema@, "not"@);
        }
        if branch_passes(sub, instance, ctx, frame) {
            push_issue(frame, "not", "取值不应满足 not 指定的 schema".to_owned(), false, out);
        }
    }
    assert(issues_view(out@) =~= issues_view(old(out)@) + not_issues(
        ctx@,
        schema@,
        instance@,
        frame@,
    ));
}

/// What the schema of a keyword asks of a value.
fn check_sub(
    schema: &Json,
    key: &str,
    instance: &Json,
    ctx: &Ctx<'_>,
    frame: &mut Frame,
    out: &mut Vec<ValidationIssue>,
)
    ensures
        issues_view(final(out)@) == issues_view(old(out)@) + sub_issues(
            ctx@,
            schema@,
            key@,
            instance@,
            old(frame)@,
        ),
        final(frame)@ == old(frame)@,
    decreases MAX_REF_DEPTH - old(frame)@.depth, schema@, 0nat, 0nat,
{
    assert(issues_view(out@) =~= issues_view(old(out)@) + Seq::<IssueView>::empty());
    if let Some(sub) = schema.get(key) {
        proof {
            lemma_member_smaller(schema@, key@);
        }
        validate_node(sub, instance, ctx, frame, out);
    }
}

/// `if`, `then` and `else`.
fn check_if_then_else(
    schema: &Json,
    instance: &Json,
    ctx: &Ctx<'_>,
    frame: &mut Frame,
    out: &mut Vec<ValidationIssue>,
)
    ensures
        issues_view(final(out)@) == issues_view(old(out)@) + if_issues(
            ctx@,
            schema@,
            instance@,
            old(frame)@,
        ),
        final(frame)@ == old(frame)@,
    decreases MAX_REF_DEPTH - old(frame)@.depth, schema@, 5nat, 0nat,
{
    assert(issues_view(out@) =~= issues_view(old(out)@) + Seq::<IssueView>::empty());
    if let Some(condition) = schema.get("if") {
        proof {
            lemma_member_smaller(schema@, "if"@);
        }
        if branch_passes(condition, instance, ctx, frame) {
            check_sub(schema, "then", instance, ctx, frame, out);
        } else {
            check_sub(schema, "else", instance, ctx, frame, out);
        }
    }
}

/// `properties`.
fn check_properties(
    schema: &Json,
    instance: &Json,
    ctx: &Ctx<'_>,
    frame: &mut Frame,
    out: &mut Vec<ValidationIssue>,
)
    ensures
        issues_view(final(out)@) == issues_view(old(out)@) + property_issues(
            ctx@,
            schema@,
            instance@,
            old(frame)@,
            width_at(schema@, "properties"@),
        ),
        final(frame)@ == old(frame)@,
    decreases MAX_REF_DEPTH - old(frame)@.depth, schema@, 4nat, 0nat,
{
    assert(issues_view(out@) =~= issues_view(old(out)@) + Seq::<IssueView>::empty());
    if let Some(x) = schema.get("properties") {
        proof {
            lemma_view(*x);
        }
        if let Json::Object(m) = x {
            let n: usize = m.len();
            let mut i: usize = 0;
            while i < n
                invariant
                    i <= n,
                    n == m@.len(),
                    object_at(schema@, "properties"@) == Some(members_view(m@)),
                    frame@ == old(frame)@,
                    issues_view(out@) == issues_view(old(out)@) + property_issues(
                        ctx@,
                        schema@,
                        instance@,
                        old(frame)@,
                        i as nat,
                    ),
                decreases n - i,
            {
                proof {
                    lemma_object_smaller(schema@, "properties"@, i as int);
                }
                assert(members_view(m@)[i as int] == m@[i as int]@);
                let ghost before = issues_view(out@);
                let ghost so_far = property_issues(
                    ctx@,
                    schema@,
                    instance@,
                    old(frame)@,
                    i as nat,
                );
                let name = &m[i].key;
                if let Some(value) = instance.get(name.as_str()) {
                    let saved = descend(frame, PathSegment::Key(name.clone()));
                    let ghost there = child(old(frame)@, SegmentView::Key(name@));
                    validate_node(&m[i].value, value, ctx, frame, out);
                    ascend(frame, saved);
                    assert(there.path.drop_last() =~= old(frame)@.path);
                    assert(issues_view(out@) =~= issues_view(old(out)@) + (so_far + node_issues(
                        ctx@,
                        m@[i as int].value@,
                        value@,
                        there,
                    )));
                } else {
                    assert(so_far + Seq::<IssueView>::empty() =~= so_far);
                }
                i += 1;
            }
        }
    }
}

/// `patternProperties`, for one member of a value.
fn check_patterns(
    schema: &Json,
    name: &String,
    value: &Json,
    ctx: &Ctx<'_>,
    frame: &mut Frame,
    out: &mut Vec<ValidationIssue>,
)
    ensures
        issues_view(final(out)@) == issues_view(old(out)@) + pattern_issues(
            ctx@,
            schema@,
            name@,
            value@,
            old(frame)@,
            width_at(schema@, "patternProperties"@),
        ),
        final(frame)@ == old(frame)@,
    decreases MAX_REF_DEPTH - old(frame)@.depth, schema@, 3nat, 0nat,
{
    assert(issues_view(out@) =~= issues_view(old(out)@) + Seq::<IssueView>::empty());
    if let Some(x) = schema.get("patternProperties") {
        proof {
            lemma_view(*x);
        }
        if let Json::Object(m) = x {
            let n: usize = m.len();
            let mut i: usize = 0;
            while i < n
                invariant
                    i <= n,
                    n == m@.len(),
                    object_at(schema@, "patternProperties"@) == Some(members_view(m@)),
                    frame@ == old(frame)@,
                    issues_view(out@) == issues_view(old(out)@) + pattern_issues(
                        ctx@,
                        schema@,
                        name@,
                        value@,
                        old(frame)@,
                        i as nat,
                    ),
                decreases n - i,
            {
                proof {
                    lemma_object_smaller(schema@, "patternProperties"@, i as int);
                }
                assert(members_view(m@)[i as int] == m@[i as int]@);
                let ghost so_far = pattern_issues(
                    ctx@,
                    schema@,
                    name@,
                    value@,
                    old(frame)@,
                    i as nat,
                );
                if matches_text(m[i].key.as_str(), name.as_str()) {
                    let saved = descend(frame, PathSegment::Key(name.clone()));
                    let ghost there = child(old(frame)@, SegmentView::Key(name@));
                    validate_node(&m[i].value, value, ctx, frame, out);
                    ascend(frame, saved);
                    assert(there.path.drop_last() =~= old(frame)@.path);
                    assert(issues_view(out@) =~= issues_view(old(out)@) + (so_far + node_issues(
                        ctx@,
                        m@[i as int].value@,
                        value@,
                        there,
                    )));
                } else {
                    assert(so_far + Seq::<IssueView>::empty() =~= so_far);
                }
                i += 1;
            }
        }
    }
}

/// Whether `properties` or `patternProperties` is for a name.
fn covered(schema: &Json, name: &str) -> (r: bool)
    ensures
        r == is_covered(schema@, name@),
{
    if let Some(x) = schema.get("properties") {
        proof {
            lemma_view(*x);
        }
        if let Json::Object(m) = x {
            if find(m, name).is_some() {
                return true;
            }
        }
    }
    if let Some(x) = schema.get("patternProperties") {
        proof {
            lemma_view(*x);
        }
        if let Json::Object(m) = x {
            let n: usize = m.len();
            let mut i: usize = 0;
            let mut r = false;
            while i < n
                invariant
                    i <= n,
                    n == m@.len(),
                    r == some_pattern(members_view(m@), name@, i as nat),
                decreases n - i,
            {
                assert(members_view(m@)[i as int] == m@[i as int]@);
                if matches_text(m[i].key.as_str(), name) {
                    r = true;
                }
                i += 1;
            }
            return r;
        }
    }
    false
}

/// `additionalProperties`, for one member of a value.
fn check_additional(
    schema: &Json,
    name: &String,
    value: &Json,
    ctx: &Ctx<'_>,
    frame: &mut Frame,
    out: &mut Vec<ValidationIssue>,
)
    ensures
        issues_view(final(out)@) == issues_view(old(out)@) + extra_issues(
            ctx@,
            schema@,
            name@,
            value@,
            old(frame)@,
        ),
        final(frame)@ == old(frame)@,
    decreases MAX_REF_DEPTH - old(frame)@.depth, schema@, 3nat, 0nat,
{
    assert(issues_view(out@) =~= issues_view(old(out)@) + Seq::<IssueView>::empty());
    if let Some(additional) = schema.get("additionalProperties") {
        if covered(schema, name.as_str()) {
            return;
        }
        proof {
            lemma_view(*additional);
        }
        let ghost there = child(old(frame)@, SegmentView::Key(name@));
        match additional {
            Json::Flag(true) => {},
            Json::Flag(false) => {
                let saved = descend(frame, PathSegment::Key(name.clone()));
                let mut message = "不允许额外属性 \"".to_owned();
                message.append(name.as_str());
                message.append("\"");
                push_issue(frame, "additionalProperties", message, false, out);
                ascend(frame, saved);
                assert(there.path.drop_last() =~= old(frame)@.path);
                assert(issues_view(out@) =~= issues_view(old(out)@) + extra_issues(
                    ctx@,
                    schema@,
                    name@,
                    value@,
                    old(frame)@,
                ));
            },
            _ => {
                let saved = descend(frame, PathSegment::Key(name.clone()));
                check_sub(schema, "additionalProperties", value, ctx, frame, out);
                ascend(frame, saved);
                assert(there.path.drop_last() =~= old(frame)@.path);
            },
        }
    }
}

/// `required`.
fn check_required(schema: &Json, instance: &Json, frame: &Frame, out: &mut Vec<ValidationIssue>)
    ensures
        issues_view(final(out)@) == issues_view(old(out)@) + match list_at(schema@, "required"@) {
            Some(l) => required_issues(l, instance@, frame@, l.len()),
            None => Seq::empty(),
        },
{
    assert(issues_view(out@) =~= issues_view(old(out)@) + Seq::<IssueView>::empty());
    if let Some(x) = schema.get("required") {
        proof {
            lemma_view(*x);
        }
        if let Json::List(l) = x {
            let n: usize = l.len();
            let mut i: usize = 0;
            while i < n
                invariant
                    i <= n,
                    n == l@.len(),
                    issues_view(out@) == issues_view(old(out)@) + required_issues(
                        list_view(l@),
                        instance@,
                        frame@,
                        i as nat,
                    ),
                decreases n - i,
            {
                assert(list_view(l@)[i as int] == l@[i as int]@);
                if let Json::Text(name) = &l[i] {
                    if instance.get(name.as_str()).is_none() {
                        let mut message = "缺少必需属性 \"".to_owned();
                        message.append(name.as_str());
                        message.append("\"");
                        push_issue(frame, "required", message, false, out);
                    }
                }
                i += 1;
                assert(issues_view(out@) =~= issues_view(old(out)@) + required_issues(
                    list_view(l@),
                    instance@,
                    frame@,
                    i as nat,
                ));
            }
        }
    }
}

/// One member of `dependentRequired`.
fn check_siblings(
    l: &Vec<Json>,
    trigger: &String,
    instance: &Json,
    frame: &Frame,
    out: &mut Vec<ValidationIssue>,
)
    ensures
        issues_view(final(out)@) == issues_view(old(out)@) + sibling_issues(
            list_view(l@),
            trigger@,
            instance@,
            frame@,
            l@.len(),
        ),
{
    assert(issues_view(out@) =~= issues_view(old(out)@) + Seq::<IssueView>::empty());
    let n: usize = l.len();
    let mut i: usize = 0;
    while i < n
        invariant
            i <= n,
            n == l@.len(),
            issues_view(out@) == issues_view(old(out)@) + sibling_issues(
                list_view(l@),
                trigger@,
                instance@,
                frame@,
                i as nat,
            ),
        decreases n - i,
    {
        assert(list_view(l@)[i as int] == l@[i as int]@);
        if let Json::Text(name) = &l[i] {
            if instance.get(name.as_str()).is_none() {
                let mut message = "属性 \"".to_owned();
                message.append(trigger.as_str());
                message.append("\" 存在时必须同时提供 \"");
                message.append(name.as_str());
                message.append("\"");
                push_issue(frame, "dependentRequired", message, false, out);
            }
        }
        i += 1;
        assert(issues_view(out@) =~= issues_view(old(out)@) + sibling_issues(
            list_view(l@),
            trigger@,
            instance@,
            frame@,
            i as nat,
        ));
    }
}

/// `dependentRequired`.
fn check_dependent_required(
    schema: &Json,
    instance: &Json,
    frame: &Frame,
    out: &mut Vec<ValidationIssue>,
)
    ensures
        issues_view(final(out)@) == issues_view(old(out)@) + match object_at(
            schema@,
            "dependentRequired"@,
        ) {
            Some(m) => dependent_issues(m, instance@, frame@, m.len()),
            None => Seq::empty(),
        },
{
    assert(issues_view(out@) =~= issues_view(old(out)@) + Seq::<IssueView>::empty());
    if let Some(x) = schema.get("dependentRequired") {
        proof {
            lemma_view(*x);
        }
        if let Json::Object(m) = x {
            let n: usize = m.len();
            let mut i: usize = 0;
            while i < n
                invariant
                    i <= n,
                    n == m@.len(),
                    issues_view(out@) == issues_view(old(out)@) + dependent_issues(
                        members_view(m@),
                        instance@,
                        frame@,
                        i as nat,
                    ),
                decreases n - i,
            {
                assert(members_view(m@)[i as int] == m@[i as int]@);
                let ghost so_far = dependent_issues(
                    members_view(m@),
                    instance@,
                    frame@,
                    i as nat,
                );
                assert(so_far + Seq::<IssueView>::empty() =~= so_far);
                proof {
                    lemma_view(m@[i as int].value);
                }
                if instance.get(m[i].key.as_str()).is_some() {
                    if let Json::List(l) = &m[i].value {
                        check_siblings(l, &m[i].key, instance, frame, out);
                        assert(issues_view(out@) =~= issues_view(old(out)@) + (so_far
                            + sibling_issues(
                            list_view(l@),
                            m@[i as int].key@,
                            instance@,
                            frame@,
                            l@.len(),
                        )));
                    }
                }
                i += 1;
            }
        }
    }
}

/// `dependentSchemas`.
fn check_dependent_schemas(
    schema: &Json,
    instance: &Json,
    ctx: &Ctx<'_>,
    frame: &mut Frame,
    out: &mut Vec<ValidationIssue>,
)
    ensures
        issues_view(final(out)@) == issues_view(old(out)@) + dependent_schema_issues(
            ctx@,
            schema@,
            instance@,
            old(frame)@,
            width_at(schema@, "dependentSchemas"@),
        ),
        final(frame)@ == old(frame)@,
    decreases MAX_REF_DEPTH - old(frame)@.depth, schema@, 4nat, 0nat,
{
    assert(issues_view(out@) =~= issues_view(old(out)@) + Seq::<IssueView>::empty());
    if let Some(x) = schema.get("dependentSchemas") {
        proof {
            lemma_view(*x);
        }
        if let Json::Object(m) = x {
            let n: usize = m.len();
            let mut i: usize = 0;
            while i < n
                invariant
                    i <= n,
                    n == m@.len(),
                    object_at(schema@, "dependentSchemas"@) == Some(members_view(m@)),
                    frame@ == old(frame)@,
                    issues_view(out@) == issues_view(old(out)@) + dependent_schema_issues(
                        ctx@,
                        schema@,
                        instance@,
                        old(frame)@,
                        i as nat,
                    ),
                decreases n - i,
            {
                proof {
                    lemma_object_smaller(schema@, "dependentSchemas"@, i as int);
                }
                assert(members_view(m@)[i as int] == m@[i as int]@);
                let ghost so_far = dependent_schema_issues(
                    ctx@,
                    schema@,
                    instance@,
                    old(frame)@,
                    i as nat,
                );
                if instance.get(m[i].key.as_str()).is_some() {
                    validate_node(&m[i].value, instance, ctx, frame, out);
                    assert(issues_view(out@) =~= issues_view(old(out)@) + (so_far + node_issues(
                        ctx@,
                        m@[i as int].value@,
                        instance@,
                        frame@,
                    )));
                } else {
                    assert(so_far + Seq::<IssueView>::empty() =~= so_far);
                }
                i += 1;
            }
        }
    }
}

/// `patternProperties`.
fn check_pattern_properties(
    schema: &Json,
    instance: &Json,
    m: &Vec<Member>,
    ctx: &Ctx<'_>,
    frame: &mut Frame,
    out: &mut Vec<ValidationIssue>,
)
    requires
        members(instance@) == members_view(m@),
    ensures
        issues_view(final(out)@) == issues_view(old(out)@) + patterns_issues(
            ctx@,
            schema@,
            instance@,
            old(frame)@,
            m@.len(),
        ),
        final(frame)@ == old(frame)@,
    decreases MAX_REF_DEPTH - old(frame)@.depth, schema@, 4nat, 0nat,
{
    assert(issues_view(out@) =~= issues_view(old(out)@) + Seq::<IssueView>::empty());
    let n: usize = m.len();
    let mut i: usize = 0;
    while i < n
        invariant
            i <= n,
            n == m@.len(),
            members(instance@) == members_view(m@),
            frame@ == old(frame)@,
            issues_view(out@) == issues_view(old(out)@) + patterns_issues(
                ctx@,
                schema@,
                instance@,
                old(frame)@,
                i as nat,
            ),
        decreases n - i,
    {
        assert(members_view(m@)[i as int] == m@[i as int]@);
        let ghost before = issues_view(out@);
        let ghost so_far = patterns_issues(ctx@, schema@, instance@, old(frame)@, i as nat);
        check_patterns(schema, &m[i].key, &m[i].value, ctx, frame, out);
        i += 1;
        assert(issues_view(out@) =~= issues_view(old(out)@) + patterns_issues(
            ctx@,
            schema@,
            instance@,
            old(frame)@,
            i as nat,
        ));
    }
}

/// `additionalProperties`.
fn check_additional_properties(
    schema: &Json,
    instance: &Json,
    m: &Vec<Member>,
    ctx: &Ctx<'_>,
    frame: &mut Frame,
    out: &mut Vec<ValidationIssue>,
)
    requires
        members(instance@) == members_view(m@),
    ensures
        issues_view(final(out)@) == issues_view(old(out)@) + additional_issues(
            ctx@,
            schema@,
            instance@,
            old(frame)@,
            m@.len(),
        ),
        final(frame)@ == old(frame)@,
    decreases MAX_REF_DEPTH - old(frame)@.depth, schema@, 4nat, 0nat,
{
    assert(issues_view(out@) =~= issues_view(old(out)@) + Seq::<IssueView>::empty());
    let n: usize = m.len();
    let mut i: usize = 0;
    while i < n
        invariant
            i <= n,
            n == m@.len(),
            members(instance@) == members_view(m@),
            frame@ == old(frame)@,
            issues_view(out@) == issues_view(old(out)@) + additional_issues(
                ctx@,
                schema@,
                instance@,
                old(frame)@,
                i as nat,
            ),
        decreases n - i,
    {
        assert(members_view(m@)[i as int] == m@[i as int]@);
        let ghost before = issues_view(out@);
        let ghost so_far = additional_issues(ctx@, schema@, instance@, old(frame)@, i as nat);
        check_additional(schema, &m[i].key, &m[i].value, ctx, frame, out);
        i += 1;
        assert(issues_view(out@) =~= issues_view(old(out)@) + additional_issues(
            ctx@,
            schema@,
            instance@,
            old(frame)@,
            i as nat,
        ));
    }
}

/// `propertyNames`.
fn check_property_names(
    schema: &Json,
    instance: &Json,
    m: &Vec<Member>,
    ctx: &Ctx<'_>,
    frame: &mut Frame,
    out: &mut Vec<ValidationIssue>,
)
    requires
        members(instance@) == members_view(m@),
    ensures
        issues_view(final(out)@) == issues_view(old(out)@) + name_issues(
            ctx@,
            schema@,
            instance@,
            old(frame)@,
            m@.len(),
        ),
        final(frame)@ == old(frame)@,
    decreases MAX_REF_DEPTH - old(frame)@.depth, schema@, 4nat, 0nat,
{
    assert(issues_view(out@) =~= issues_view(old(out)@) + Seq::<IssueView>::empty());
    let n: usize = m.len();
    let mut i: usize = 0;
    while i < n
        invariant
            i <= n,
            n == m@.len(),
            members(instance@) == members_view(m@),
            frame@ == old(frame)@,
            issues_view(out@) == issues_view(old(out)@) + name_issues(
                ctx@,
                schema@,
                instance@,
                old(frame)@,
                i as nat,
            ),
        decreases n - i,
    {
        assert(members_view(m@)[i as int] == m@[i as int]@);
        let ghost before = issues_view(out@);
        let ghost so_far = name_issues(ctx@, schema@, instance@, old(frame)@, i as nat);
        let name = Json::Text(m[i].key.clone());
        let saved = descend(frame, PathSegment::Key(m[i].key.clone()));
        let ghost there = child(old(frame)@, SegmentView::Key(m@[i as int].key@));
        check_sub(schema, "propertyNames", &name, ctx, frame, out);
        ascend(frame, saved);
        assert(there.path.drop_last() =~= old(frame)@.path);
        i += 1;
        assert(issues_view(out@) =~= issues_view(old(out)@) + name_issues(
            ctx@,
            schema@,
            instance@,
            old(frame)@,
            i as nat,
        ));
    }
}

proof fn lemma_join(start: Seq<IssueView>, a: Seq<IssueView>, b: Seq<IssueView>)
    ensures
        start + a + b == start + (a + b),
{
    assert(start + a + b =~= start + (a + b));
}

/// What a schema asks of an object.
fn check_object_keywords(
    schema: &Json,
    instance: &Json,
    ctx: &Ctx<'_>,
    frame: &mut Frame,
    out: &mut Vec<ValidationIssue>,
)
    ensures
        issues_view(final(out)@) == issues_view(old(out)@) + object_issues(
            ctx@,
            schema@,
            instance@,
            old(frame)@,
        ),
        final(frame)@ == old(frame)@,
    decreases MAX_REF_DEPTH - old(frame)@.depth, schema@, 5nat, 0nat,
{
    let ghost start = issues_view(old(out)@);
    let ghost (c, s, v, p) = (ctx@, schema@, instance@, frame@);
    proof {
        lemma_view(*instance);
    }
    let empty: Vec<Member> = Vec::new();
    let m = match instance {
        Json::Object(m) => m,
        _ => &empty,
    };
    assert(members(v) =~= members_view(m@));
    let ghost n = m@.len();
    check_properties(schema, instance, ctx, frame, out);
    let ghost part = property_issues(c, s, v, p, width_at(s, "properties"@));
    check_pattern_properties(schema, instance, m, ctx, frame, out);
    let ghost more = patterns_issues(c, s, v, p, n);
    proof {
        lemma_join(start, part, more);
    }
    let ghost part = part + more;
    check_additional_properties(schema, instance, m, ctx, frame, out);
    let ghost more = additional_issues(c, s, v, p, n);
    proof {
        lemma_join(start, part, more);
    }
    let ghost part = part + more;
    check_required(schema, instance, frame, out);
    let ghost more = match list_at(s, "required"@) {
        Some(l) => required_issues(l, v, p, l.len()),
        None => Seq::empty(),
    };
    proof {
        lemma_join(start, part, more);
    }
    let ghost part = part + more;
    check_min_max(schema, "minProperties", "maxProperties", m.len(), frame, out);
    let ghost low = least_issues(s, "minProperties"@, n, p);
    let ghost high = most_issues(s, "maxProperties"@, n, p);
    proof {
        lemma_join(start, part, low);
        lemma_join(start, part + low, high);
    }
    let ghost part = part + low + high;
    check_property_names(schema, instance, m, ctx, frame, out);
    let ghost more = name_issues(c, s, v, p, n);
    proof {
        lemma_join(start, part, more);
    }
    let ghost part = part + more;
    check_dependent_required(schema, instance, frame, out);
    let ghost more = match object_at(s, "dependentRequired"@) {
        Some(d) => dependent_issues(d, v, p, d.len()),
        None => Seq::empty(),
    };
    proof {
        lemma_join(start, part, more);
    }
    let ghost part = part + more;
    check_dependent_schemas(schema, instance, ctx, frame, out);
    let ghost more = dependent_schema_issues(c, s, v, p, width_at(s, "dependentSchemas"@));
    proof {
        lemma_join(start, part, more);
    }
    let ghost part = part + more;
}

/// `prefixItems`.
fn check_prefix_items(
    schema: &Json,
    instance: &Json,
    items: &Vec<Json>,
    ctx: &Ctx<'_>,
    frame: &mut Frame,
    out: &mut Vec<ValidationIssue>,
) -> (r: usize)
    requires
        elements(instance@) == list_view(items@),
    ensures
        r == len_at(schema@, "prefixItems"@),
        issues_view(final(out)@) == issues_view(old(out)@) + prefix_issues(
            ctx@,
            schema@,
            instance@,
            old(frame)@,
            len_at(schema@, "prefixItems"@),
        ),
        final(frame)@ == old(frame)@,
    decreases MAX_REF_DEPTH - old(frame)@.depth, schema@, 4nat, 0nat,
{
    assert(issues_view(out@) =~= issues_view(old(out)@) + Seq::<IssueView>::empty());
    if let Some(x) = schema.get("prefixItems") {
        proof {
            lemma_view(*x);
        }
        if let Json::List(l) = x {
            let n: usize = l.len();
            let mut i: usize = 0;
            while i < n
                invariant
                    i <= n,
                    n == l@.len(),
                    list_at(schema@, "prefixItems"@) == Some(list_view(l@)),
                    elements(instance@) == list_view(items@),
                    frame@ == old(frame)@,
                    issues_view(out@) == issues_view(old(out)@) + prefix_issues(
                        ctx@,
                        schema@,
                        instance@,
                        old(frame)@,
                        i as nat,
                    ),
                decreases n - i,
            {
                proof {
                    lemma_list_smaller(schema@, "prefixItems"@, i as int);
                }
                assert(list_view(l@)[i as int] == l@[i as int]@);
                let ghost so_far = prefix_issues(
                    ctx@,
                    schema@,
                    instance@,
                    old(frame)@,
                    i as nat,
                );
                if i < items.len() {
                    assert(list_view(items@)[i as int] == items@[i as int]@);
                    let saved = descend(frame, PathSegment::Index(i));
                    let ghost there = child(old(frame)@, SegmentView::Index(i as nat));
                    validate_node(&l[i], &items[i], ctx, frame, out);
                    ascend(frame, saved);
                    assert(there.path.drop_last() =~= old(frame)@.path);
                    assert(issues_view(out@) =~= issues_view(old(out)@) + (so_far + node_issues(
                        ctx@,
                        l@[i as int]@,
                        items@[i as int]@,
                        there,
                    )));
                } else {
                    assert(so_far + Seq::<IssueView>::empty() =~= so_far);
                }
                i += 1;
            }
            return n;
        }
    }
    0
}

/// `items`.
fn check_items(
    schema: &Json,
    instance: &Json,
    items: &Vec<Json>,
    from: usize,
    ctx: &Ctx<'_>,
    frame: &mut Frame,
    out: &mut Vec<ValidationIssue>,
)
    requires
        elements(instance@) == list_view(items@),
        from == len_at(schema@, "prefixItems"@),
    ensures
        issues_view(final(out)@) == issues_view(old(out)@) + item_issues(
            ctx@,
            schema@,
            instance@,
            old(frame)@,
            items@.len(),
        ),
        final(frame)@ == old(frame)@,
    decreases MAX_REF_DEPTH - old(frame)@.depth, schema@, 4nat, 0nat,
{
    assert(issues_view(out@) =~= issues_view(old(out)@) + Seq::<IssueView>::empty());
    let n: usize = items.len();
    if from >= n {
        return;
    }
    let mut i: usize = from;
    while i < n
        invariant
            from <= i <= n,
            n == items@.len(),
            elements(instance@) == list_view(items@),
            from == len_at(schema@, "prefixItems"@),
            frame@ == old(frame)@,
            issues_view(out@) == issues_view(old(out)@) + item_issues(
                ctx@,
                schema@,
                instance@,
                old(frame)@,
                i as nat,
            ),
        decreases n - i,
    {
        assert(list_view(items@)[i as int] == items@[i as int]@);
        let ghost so_far = item_issues(ctx@, schema@, instance@, old(frame)@, i as nat);
        let saved = descend(frame, PathSegment::Index(i));
        let ghost there = child(old(frame)@, SegmentView::Index(i as nat));
        check_sub(schema, "items", &items[i], ctx, frame, out);
        ascend(frame, saved);
        assert(there.path.drop_last() =~= old(frame)@.path);
        i += 1;
        assert(issues_view(out@) =~= issues_view(old(out)@) + (so_far + sub_issues(
            ctx@,
            schema@,
            "items"@,
            items@[i - 1]@,
            there,
        )));
    }
}

/// Whether two elements are the same.
fn find_twins(items: &Vec<Json>) -> (r: bool)
    ensures
        r == has_twins(list_view(items@)),
{
    let n: usize = items.len();
    let ghost l = list_view(items@);
    let mut i: usize = 0;
    while i < n
        invariant
            i <= n,
            n == items@.len(),
            l == list_view(items@),
            forall|a: int, b: int|
                0 <= a < i && a < b < n ==> !same_json(#[trigger] l[a], #[trigger] l[b]),
        decreases n - i,
    {
        let mut j: usize = i + 1;
        while j < n
            invariant
                i < j <= n,
                n == items@.len(),
                l == list_view(items@),
                forall|b: int| i < b < j ==> !same_json(l[i as int], #[trigger] l[b]),
            decreases n - j,
        {
            assert(l[i as int] == items@[i as int]@ && l[j as int] == items@[j as int]@);
            if items[i].same(&items[j]) {
                return true;
            }
            j += 1;
        }
        i += 1;
    }
    false
}

/// How many elements meet `contains`.
fn count_containing(
    schema: &Json,
    instance: &Json,
    sub: &Json,
    items: &Vec<Json>,
    ctx: &Ctx<'_>,
    frame: &mut Frame,
) -> (r: usize)
    requires
        elements(instance@) == list_view(items@),
        member(schema@, "contains"@) == Some(sub@),
    ensures
        r == containing(ctx@, schema@, instance@, old(frame)@, items@.len()),
        final(frame)@ == old(frame)@,
    decreases MAX_REF_DEPTH - old(frame)@.depth, schema@, 3nat, 0nat,
{
    let mut saved: Vec<String> = Vec::new();
    std::mem::swap(&mut saved, &mut frame.refs);
    assert(frame@ =~= inner(old(frame)@));
    let n: usize = items.len();
    let mut i: usize = 0;
    let mut r: usize = 0;
    while i < n
        invariant
            i <= n,
            n == items@.len(),
            elements(instance@) == list_view(items@),
            member(schema@, "contains"@) == Some(sub@),
            frame@ == inner(old(frame)@),
            r <= i,
            r == containing(ctx@, schema@, instance@, old(frame)@, i as nat),
        decreases n - i,
    {
        proof {
            lemma_member_smaller(schema@, "contains"@);
        }
        assert(list_view(items@)[i as int] == items@[i as int]@);
        assert(sub_issues(ctx@, schema@, "contains"@, items@[i as int]@, inner(old(frame)@))
            == node_issues(ctx@, sub@, items@[i as int]@, inner(old(frame)@)));
        if branch_passes(sub, &items[i], ctx, frame) {
            r += 1;
        }
        i += 1;
    }
    frame.refs = saved;
    assert(frame@ =~= old(frame)@);
    r
}

/// `contains`, `minContains` and `maxContains`.
fn check_contains(
    schema: &Json,
    instance: &Json,
    items: &Vec<Json>,
    ctx: &Ctx<'_>,
    frame: &mut Frame,
    out: &mut Vec<ValidationIssue>,
)
    requires
        elements(instance@) == list_view(items@),
    ensures
        issues_view(final(out)@) == issues_view(old(out)@) + contains_issues(
            ctx@,
            schema@,
            instance@,
            old(frame)@,
        ),
        final(frame)@ == old(frame)@,
    decreases MAX_REF_DEPTH - old(frame)@.depth, schema@, 4nat, 0nat,
{
    if let Some(sub) = schema.get("contains") {
        let matched: usize = count_containing(schema, instance, sub, items, ctx, frame);
        let min: usize = match count_of(schema, "minContains") {
            Some(n) => n,
            None => 1,
        };
        let (above, max) = match count_of(schema, "maxContains") {
            Some(n) => {
                let mut text = String::new();
                push_dec(&mut text, n as u64);
                (matched > n, text)
            },
            None => (false, "不限".to_owned()),
        };
        if matched < min || above {
            let mut message = "contains 要求匹配 ".to_owned();
            push_dec(&mut message, min as u64);
            message.append(" 到 ");
            message.append(max.as_str());
            message.append(" 次，实际匹配 ");
            push_dec(&mut message, matched as u64);
            message.append(" 次");
            push_issue(frame, "contains", message, false, out);
        }
    }
    assert(issues_view(out@) =~= issues_view(old(out)@) + contains_issues(
        ctx@,
        schema@,
        instance@,
        frame@,
    ));
}

/// What a schema asks of a list.
fn check_array_keywords(
    schema: &Json,
    instance: &Json,
    ctx: &Ctx<'_>,
    frame: &mut Frame,
    out: &mut Vec<ValidationIssue>,
)
    ensures
        issues_view(final(out)@) == issues_view(old(out)@) + array_issues(
            ctx@,
            schema@,
            instance@,
            old(frame)@,
        ),
        final(frame)@ == old(frame)@,
    decreases MAX_REF_DEPTH - old(frame)@.depth, schema@, 5nat, 0nat,
{
    let ghost start = issues_view(old(out)@);
    let ghost (c, s, v, p) = (ctx@, schema@, instance@, frame@);
    proof {
        lemma_view(*instance);
    }
    let empty: Vec<Json> = Vec::new();
    let items = match instance {
        Json::List(l) => l,
        _ => &empty,
    };
    assert(elements(v) =~= list_view(items@));
    let ghost n = items@.len();
    let from: usize = check_prefix_items(schema, instance, items, ctx, frame, out);
    let ghost part = prefix_issues(c, s, v, p, len_at(s, "prefixItems"@));
    check_items(schema, instance, items, from, ctx, frame, out);
    let ghost part = part + item_issues(c, s, v, p, n);
    assert(issues_view(out@) =~= start + part);
    check_min_max(schema, "minItems", "maxItems", items.len(), frame, out);
    let ghost part = part + least_issues(s, "minItems"@, n, p) + most_issues(s, "maxItems"@, n, p);
    assert(issues_view(out@) =~= start + part);
    if flag_set(schema, "uniqueItems") && find_twins(items) {
        push_issue(frame, "uniqueItems", "数组元素必须互不相同".to_owned(), false, out);
    }
    let ghost part = part + one_if(
        is_set(s, "uniqueItems"@) && has_twins(elements(v)),
        issue(p, "uniqueItems"@, "数组元素必须互不相同"@),
    );
    assert(issues_view(out@) =~= start + part);
    check_contains(schema, instance, items, ctx, frame, out);
    let ghost part = part + contains_issues(c, s, v, p);
    assert(issues_view(out@) =~= start + part);
}

/// Holds a value against a whole schema and notes what is wrong.
pub fn validate_root(
    root: &Json,
    uneven: &Vec<(u64, u64)>,
    instance: &Json,
    out: &mut Vec<ValidationIssue>,
)
    ensures
        issues_view(final(out)@) == issues_view(old(out)@) + schema_issues(
            root@,
            uneven@,
            instance@,
        ),
{
    let ctx = Ctx { root, uneven };
    let mut frame = Frame { path: Vec::new(), refs: Vec::new(), depth: 0 };
    assert(frame@ =~= (Place { path: Seq::empty(), refs: Seq::empty(), depth: 0 }));
    validate_node(root, instance, &ctx, &mut frame, out);
}

} // verus!
