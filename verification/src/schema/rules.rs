//! What a schema asks of a value: a subset of draft 2020-12.

use vstd::prelude::*;

use crate::regexes::{found, pattern_error, pattern_matches};
use crate::schema::error::{type_text, IssueView, JsonType, SegmentView};
use crate::schema::json::{
    as_count, elements, is_finite, is_whole, lemma_elements_smaller, lemma_member_smaller,
    lemma_members_smaller, lookup, member, members, order_key, same_json, JsonView, MemberView,
    NumberView,
};
use crate::schema::pointer::pointed;
use crate::strings::{dec, joined};

verus! {

broadcast use vstd::seq::group_seq_axioms;

/// How many references are followed one after the other.
pub const MAX_REF_DEPTH: usize = 64;

/// What stays the same while a value is held against a schema.
pub struct Setting {
    /// The whole schema, which references point into.
    pub root: JsonView,
    /// The numbers that are no multiples: each with the number that it is no multiple of, as
    /// doubles.
    pub uneven: Seq<(u64, u64)>,
}

/// Where in a value a check is.
#[verifier::ext_equal]
pub struct Place {
    /// The way from the root.
    pub path: Seq<SegmentView>,
    /// The references that are being followed for the part of the value at this place.
    pub refs: Seq<Seq<char>>,
    /// How many references are being followed in all.
    pub depth: nat,
}

/// The place of a member or an element.
pub open spec fn child(p: Place, segment: SegmentView) -> Place {
    Place { path: p.path.push(segment), refs: Seq::empty(), depth: p.depth }
}

/// The place of an element, where what is wrong with it is not told.
pub open spec fn inner(p: Place) -> Place {
    Place { path: p.path, refs: Seq::empty(), depth: p.depth }
}

/// An issue at a place.
pub open spec fn issue(p: Place, keyword: Seq<char>, message: Seq<char>) -> IssueView {
    IssueView {
        path: p.path,
        message,
        keyword,
        expected_types: Seq::empty(),
        from_union_branch: false,
    }
}

/// An issue of a keyword that asks for one of several schemas.
pub open spec fn union_issue(p: Place, keyword: Seq<char>, message: Seq<char>) -> IssueView {
    IssueView {
        path: p.path,
        message,
        keyword,
        expected_types: Seq::empty(),
        from_union_branch: true,
    }
}

/// One issue or none.
pub open spec fn one_if(wrong: bool, issue: IssueView) -> Seq<IssueView> {
    if wrong {
        seq![issue]
    } else {
        Seq::empty()
    }
}

/// The list that a keyword has.
pub open spec fn list_at(s: JsonView, key: Seq<char>) -> Option<Seq<JsonView>> {
    match member(s, key) {
        Some(JsonView::List(l)) => Some(l),
        _ => None,
    }
}

/// The object that a keyword has.
pub open spec fn object_at(s: JsonView, key: Seq<char>) -> Option<Seq<MemberView>> {
    match member(s, key) {
        Some(JsonView::Object(m)) => Some(m),
        _ => None,
    }
}

/// The string that a keyword has.
pub open spec fn text_at(s: JsonView, key: Seq<char>) -> Option<Seq<char>> {
    match member(s, key) {
        Some(JsonView::Text(t)) => Some(t),
        _ => None,
    }
}

/// The number that a keyword has.
pub open spec fn number_at(s: JsonView, key: Seq<char>) -> Option<NumberView> {
    match member(s, key) {
        Some(JsonView::Number(n)) => Some(n),
        _ => None,
    }
}

/// Whether a keyword is `true`.
pub open spec fn is_set(s: JsonView, key: Seq<char>) -> bool {
    member(s, key) == Some(JsonView::Flag(true))
}

/// The count that a keyword has, however it was written.
pub open spec fn count_at(s: JsonView, key: Seq<char>) -> Option<nat> {
    match member(s, key) {
        Some(JsonView::Number(n)) => as_count(n),
        _ => None,
    }
}

pub proof fn lemma_list_smaller(s: JsonView, key: Seq<char>, i: int)
    ensures
        list_at(s, key) matches Some(l) ==> 0 <= i < l.len() ==> decreases_to!(s => l[i]),
{
    lemma_member_smaller(s, key);
    if let Some(x) = member(s, key) {
        if 0 <= i < elements(x).len() {
            lemma_elements_smaller(x, i);
        }
    }
}

pub proof fn lemma_object_smaller(s: JsonView, key: Seq<char>, i: int)
    ensures
        object_at(s, key) matches Some(m) ==> 0 <= i < m.len() ==> decreases_to!(s => m[i].value),
{
    lemma_member_smaller(s, key);
    if let Some(x) = member(s, key) {
        if 0 <= i < members(x).len() {
            lemma_members_smaller(x, i);
        }
    }
}

// Types

/// The type of a name.
pub open spec fn type_named(name: Seq<char>) -> Option<JsonType> {
    if name == "null"@ {
        Some(JsonType::Null)
    } else if name == "boolean"@ {
        Some(JsonType::Boolean)
    } else if name == "object"@ {
        Some(JsonType::Object)
    } else if name == "array"@ {
        Some(JsonType::Array)
    } else if name == "number"@ {
        Some(JsonType::Number)
    } else if name == "integer"@ {
        Some(JsonType::Integer)
    } else if name == "string"@ {
        Some(JsonType::String)
    } else {
        None
    }
}

/// The type that a value names, if it does.
pub open spec fn type_of_value(v: JsonView) -> Option<JsonType> {
    match v {
        JsonView::Text(name) => type_named(name),
        _ => None,
    }
}

/// The types that a list names.
pub open spec fn types_in(l: Seq<JsonView>) -> Seq<JsonType>
    decreases l.len(),
{
    if l.len() == 0 {
        Seq::empty()
    } else {
        match type_of_value(l.last()) {
            Some(t) => types_in(l.drop_last()).push(t),
            None => types_in(l.drop_last()),
        }
    }
}

/// The types that the value of `type` names.
pub open spec fn type_list(t: JsonView) -> Seq<JsonType> {
    match t {
        JsonView::Text(name) => match type_named(name) {
            Some(x) => seq![x],
            None => Seq::empty(),
        },
        JsonView::List(l) => types_in(l),
        _ => Seq::empty(),
    }
}

/// The types of which a value has to have one; none where any will do. `nullable` adds `null`.
pub open spec fn expected_types(s: JsonView) -> Seq<JsonType> {
    match member(s, "type"@) {
        Some(t) => {
            let l = type_list(t);
            if l.len() > 0 && is_set(s, "nullable"@) && !l.contains(JsonType::Null) {
                l.push(JsonType::Null)
            } else {
                l
            }
        },
        None => Seq::empty(),
    }
}

/// Whether a value has a type.
pub open spec fn has_type(t: JsonType, v: JsonView) -> bool {
    match t {
        JsonType::Integer => match v {
            JsonView::Number(n) => is_finite(n.bits) && is_whole(n.bits),
            _ => false,
        },
        JsonType::Number => v is Number,
        JsonType::Null => v is Null,
        JsonType::Boolean => v is Flag,
        JsonType::Object => v is Object,
        JsonType::Array => v is List,
        JsonType::String => v is Text,
    }
}

/// The name of the type of a value.
pub open spec fn actual_type(v: JsonView) -> Seq<char> {
    match v {
        JsonView::Null => "null"@,
        JsonView::Flag(_) => "boolean"@,
        JsonView::Number(_) => "number"@,
        JsonView::Text(_) => "string"@,
        JsonView::List(_) => "array"@,
        JsonView::Object(_) => "object"@,
    }
}

/// The names of types.
pub open spec fn type_texts(l: Seq<JsonType>) -> Seq<Seq<char>> {
    Seq::new(l.len(), |i: int| type_text(l[i]))
}

/// `type`.
pub open spec fn type_issues(s: JsonView, v: JsonView, p: Place) -> Seq<IssueView> {
    let l = expected_types(s);
    let wrong = l.len() > 0 && forall|i: int| 0 <= i < l.len() ==> !has_type(#[trigger] l[i], v);
    one_if(
        wrong,
        IssueView {
            path: p.path,
            message: "期望类型为 "@ + joined(type_texts(l), " | "@) + "，实际是 "@ + actual_type(v),
            keyword: "type"@,
            expected_types: l,
            from_union_branch: false,
        },
    )
}

// Values

/// Whether a value is among those of a list.
pub open spec fn is_among(l: Seq<JsonView>, v: JsonView) -> bool {
    exists|i: int| 0 <= i < l.len() && same_json(#[trigger] l[i], v)
}

/// `enum`.
pub open spec fn enum_issues(s: JsonView, v: JsonView, p: Place) -> Seq<IssueView> {
    let wrong = match list_at(s, "enum"@) {
        Some(l) => !is_among(l, v),
        None => false,
    };
    one_if(wrong, issue(p, "enum"@, "取值不在 enum 允许的集合内"@))
}

/// `const`.
pub open spec fn const_issues(s: JsonView, v: JsonView, p: Place) -> Seq<IssueView> {
    let wrong = match member(s, "const"@) {
        Some(x) => !same_json(x, v),
        None => false,
    };
    one_if(wrong, issue(p, "const"@, "取值与 const 指定的常量不相等"@))
}

// Sizes

/// A message with two counts in it.
pub open spec fn counted(
    front: Seq<char>,
    limit: nat,
    middle: Seq<char>,
    actual: nat,
    back: Seq<char>,
) -> Seq<char> {
    front + dec(limit) + middle + dec(actual) + back
}

/// A keyword for the least count.
pub open spec fn least_issues(s: JsonView, key: Seq<char>, actual: nat, p: Place) -> Seq<
    IssueView,
> {
    match count_at(s, key) {
        Some(min) => one_if(
            actual < min,
            issue(p, key, key + counted(" 要求至少 "@, min, " 个，实际 "@, actual, " 个"@)),
        ),
        None => Seq::empty(),
    }
}

/// A keyword for the greatest count.
pub open spec fn most_issues(s: JsonView, key: Seq<char>, actual: nat, p: Place) -> Seq<IssueView> {
    match count_at(s, key) {
        Some(max) => one_if(
            actual > max,
            issue(p, key, key + counted(" 要求至多 "@, max, " 个，实际 "@, actual, " 个"@)),
        ),
        None => Seq::empty(),
    }
}

// Strings

/// What a schema asks of a string.
pub open spec fn string_issues(s: JsonView, t: Seq<char>, p: Place) -> Seq<IssueView> {
    let least = match count_at(s, "minLength"@) {
        Some(min) => one_if(
            t.len() < min,
            issue(
                p,
                "minLength"@,
                counted("字符串长度至少 "@, min, " 个码点，实际 "@, t.len(), " 个"@),
            ),
        ),
        None => Seq::empty(),
    };
    let most = match count_at(s, "maxLength"@) {
        Some(max) => one_if(
            t.len() > max,
            issue(
                p,
                "maxLength"@,
                counted("字符串长度至多 "@, max, " 个码点，实际 "@, t.len(), " 个"@),
            ),
        ),
        None => Seq::empty(),
    };
    let pattern = match text_at(s, "pattern"@) {
        Some(x) => one_if(
            pattern_error(x) is None && !pattern_matches(x, t),
            issue(p, "pattern"@, "字符串不匹配 pattern `"@ + x + "`"@),
        ),
        None => Seq::empty(),
    };
    least + most + pattern
}

// Numbers

/// Whether a number is on the wrong side of a bound.
pub enum Side {
    /// Below it.
    Below,
    /// Above it.
    Above,
    /// Not above it.
    NotAbove,
    /// Not below it.
    NotBelow,
}

/// Whether a number is on a side of a bound.
pub open spec fn on_side(n: NumberView, bound: NumberView, side: Side) -> bool {
    match side {
        Side::Below => order_key(n.bits) < order_key(bound.bits),
        Side::Above => order_key(n.bits) > order_key(bound.bits),
        Side::NotAbove => order_key(n.bits) <= order_key(bound.bits),
        Side::NotBelow => order_key(n.bits) >= order_key(bound.bits),
    }
}

/// A bound of numbers.
pub open spec fn bound_issues(
    s: JsonView,
    key: Seq<char>,
    side: Side,
    sign: Seq<char>,
    n: NumberView,
    p: Place,
) -> Seq<IssueView> {
    match number_at(s, key) {
        Some(bound) => one_if(
            on_side(n, bound, side),
            issue(p, key, "取值必须 "@ + sign + bound.text + "，实际是 "@ + n.text),
        ),
        None => Seq::empty(),
    }
}

/// `multipleOf`.
pub open spec fn multiple_issues(c: Setting, s: JsonView, n: NumberView, p: Place) -> Seq<
    IssueView,
> {
    match number_at(s, "multipleOf"@) {
        Some(m) => one_if(
            order_key(m.bits) > 0 && c.uneven.contains((n.bits, m.bits)),
            issue(
                p,
                "multipleOf"@,
                "取值必须是 "@ + m.text + " 的整数倍，实际是 "@ + n.text,
            ),
        ),
        None => Seq::empty(),
    }
}

/// What a schema asks of a number.
pub open spec fn number_issues(c: Setting, s: JsonView, n: NumberView, p: Place) -> Seq<
    IssueView,
> {
    bound_issues(s, "minimum"@, Side::Below, "≥ "@, n, p)
        + bound_issues(s, "maximum"@, Side::Above, "≤ "@, n, p)
        + bound_issues(s, "exclusiveMinimum"@, Side::NotAbove, "> "@, n, p)
        + bound_issues(s, "exclusiveMaximum"@, Side::NotBelow, "< "@, n, p)
        + multiple_issues(c, s, n, p)
}

// References and combinations

/// What a schema asks of a value at a place.
pub open spec fn node_issues(c: Setting, s: JsonView, v: JsonView, p: Place) -> Seq<IssueView>
    decreases MAX_REF_DEPTH - p.depth, s, 9nat, 0nat,
{
    match s {
        JsonView::Flag(false) => seq![
            issue(p, "schema"@, "该位置的 schema 恒为 false，任何取值都不满足"@),
        ],
        JsonView::Object(_) => object_schema_issues(c, s, v, p),
        _ => Seq::empty(),
    }
}

/// What a schema that is an object asks of a value.
pub open spec fn object_schema_issues(c: Setting, s: JsonView, v: JsonView, p: Place) -> Seq<
    IssueView,
>
    decreases MAX_REF_DEPTH - p.depth, s, 8nat, 0nat,
{
    type_issues(s, v, p) + enum_issues(s, v, p) + const_issues(s, v, p) + ref_issues(c, s, v, p)
        + all_issues(c, s, v, p, len_at(s, "allOf"@)) + any_issues(c, s, v, p) + one_issues(
        c,
        s,
        v,
        p,
    ) + not_issues(c, s, v, p) + if_issues(c, s, v, p) + match v {
        JsonView::Object(_) => object_issues(c, s, v, p),
        JsonView::List(_) => array_issues(c, s, v, p),
        JsonView::Text(t) => string_issues(s, t, p),
        JsonView::Number(n) => number_issues(c, s, n, p),
        _ => Seq::empty(),
    }
}

/// The length of the list that a keyword has.
pub open spec fn len_at(s: JsonView, key: Seq<char>) -> nat {
    match list_at(s, key) {
        Some(l) => l.len(),
        None => 0,
    }
}

/// The number of members of the object that a keyword has.
pub open spec fn width_at(s: JsonView, key: Seq<char>) -> nat {
    match object_at(s, key) {
        Some(m) => m.len(),
        None => 0,
    }
}

/// What a reference points to.
pub open spec fn ref_target(root: JsonView, reference: Seq<char>) -> Option<JsonView> {
    if reference.len() > 0 && reference[0] == '#' {
        pointed(root, reference.skip(1))
    } else {
        None
    }
}

/// `$ref`. A reference that is already being followed for this part of the value is not followed
/// again.
pub open spec fn ref_issues(c: Setting, s: JsonView, v: JsonView, p: Place) -> Seq<IssueView>
    decreases MAX_REF_DEPTH - p.depth, s, 5nat, 0nat,
{
    match text_at(s, "$ref"@) {
        Some(reference) => if p.depth < MAX_REF_DEPTH && !p.refs.contains(reference) {
            match ref_target(c.root, reference) {
                Some(target) => node_issues(
                    c,
                    target,
                    v,
                    Place { path: p.path, refs: p.refs.push(reference), depth: p.depth + 1 },
                ),
                None => Seq::empty(),
            }
        } else {
            Seq::empty()
        },
        None => Seq::empty(),
    }
}

/// The first `n` schemas of `allOf`.
pub open spec fn all_issues(c: Setting, s: JsonView, v: JsonView, p: Place, n: nat) -> Seq<
    IssueView,
>
    decreases MAX_REF_DEPTH - p.depth, s, 0nat, n,
{
    match list_at(s, "allOf"@) {
        Some(l) => if 0 < n <= l.len() {
            proof {
                lemma_list_smaller(s, "allOf"@, n - 1);
            }
            all_issues(c, s, v, p, (n - 1) as nat) + node_issues(c, l[n - 1], v, p)
        } else {
            Seq::empty()
        },
        None => Seq::empty(),
    }
}

/// How many of the first `n` schemas of a list are met.
pub open spec fn met(c: Setting, s: JsonView, key: Seq<char>, v: JsonView, p: Place, n: nat) -> nat
    decreases MAX_REF_DEPTH - p.depth, s, 0nat, n,
{
    match list_at(s, key) {
        Some(l) => if 0 < n <= l.len() {
            proof {
                lemma_list_smaller(s, key, n - 1);
            }
            met(c, s, key, v, p, (n - 1) as nat) + if node_issues(c, l[n - 1], v, p).len() == 0 {
                1nat
            } else {
                0nat
            }
        } else {
            0
        },
        None => 0,
    }
}

/// `anyOf`.
pub open spec fn any_issues(c: Setting, s: JsonView, v: JsonView, p: Place) -> Seq<IssueView>
    decreases MAX_REF_DEPTH - p.depth, s, 5nat, 0nat,
{
    match list_at(s, "anyOf"@) {
        Some(l) => one_if(
            met(c, s, "anyOf"@, v, p, l.len()) == 0,
            union_issue(
                p,
                "anyOf"@,
                "不满足 anyOf 中 "@ + dec(l.len()) + " 个分支的任意一个"@,
            ),
        ),
        None => Seq::empty(),
    }
}

/// `oneOf`.
pub open spec fn one_issues(c: Setting, s: JsonView, v: JsonView, p: Place) -> Seq<IssueView>
    decreases MAX_REF_DEPTH - p.depth, s, 5nat, 0nat,
{
    match list_at(s, "oneOf"@) {
        Some(l) => {
            let n = met(c, s, "oneOf"@, v, p, l.len());
            let message = if n == 0 {
                "不满足 oneOf 中 "@ + dec(l.len()) + " 个分支的任何一个"@
            } else {
                "同时满足 oneOf 中 "@ + dec(n) + " 个分支（应恰好一个）"@
            };
            one_if(n != 1, union_issue(p, "oneOf"@, message))
        },
        None => Seq::empty(),
    }
}

/// What the schema of a keyword asks of a value.
pub open spec fn sub_issues(
    c: Setting,
    s: JsonView,
    key: Seq<char>,
    v: JsonView,
    p: Place,
) -> Seq<IssueView>
    decreases MAX_REF_DEPTH - p.depth, s, 0nat, 0nat,
{
    match member(s, key) {
        Some(x) => {
            proof {
                lemma_member_smaller(s, key);
            }
            node_issues(c, x, v, p)
        },
        None => Seq::empty(),
    }
}

/// `not`.
pub open spec fn not_issues(c: Setting, s: JsonView, v: JsonView, p: Place) -> Seq<IssueView>
    decreases MAX_REF_DEPTH - p.depth, s, 5nat, 0nat,
{
    one_if(
        member(s, "not"@) is Some && sub_issues(c, s, "not"@, v, p).len() == 0,
        issue(p, "not"@, "取值不应满足 not 指定的 schema"@),
    )
}

/// `if`, `then` and `else`.
pub open spec fn if_issues(c: Setting, s: JsonView, v: JsonView, p: Place) -> Seq<IssueView>
    decreases MAX_REF_DEPTH - p.depth, s, 5nat, 0nat,
{
    if member(s, "if"@) is None {
        Seq::empty()
    } else if sub_issues(c, s, "if"@, v, p).len() == 0 {
        sub_issues(c, s, "then"@, v, p)
    } else {
        sub_issues(c, s, "else"@, v, p)
    }
}

// Objects

/// The first `n` members of `properties`.
pub open spec fn property_issues(c: Setting, s: JsonView, v: JsonView, p: Place, n: nat) -> Seq<
    IssueView,
>
    decreases MAX_REF_DEPTH - p.depth, s, 0nat, n,
{
    match object_at(s, "properties"@) {
        Some(m) => if 0 < n <= m.len() {
            proof {
                lemma_object_smaller(s, "properties"@, n - 1);
            }
            let name = m[n - 1].key;
            property_issues(c, s, v, p, (n - 1) as nat) + match member(v, name) {
                Some(x) => node_issues(c, m[n - 1].value, x, child(p, SegmentView::Key(name))),
                None => Seq::empty(),
            }
        } else {
            Seq::empty()
        },
        None => Seq::empty(),
    }
}

/// The first `n` members of `patternProperties`, for one member of a value.
pub open spec fn pattern_issues(
    c: Setting,
    s: JsonView,
    name: Seq<char>,
    x: JsonView,
    p: Place,
    n: nat,
) -> Seq<IssueView>
    decreases MAX_REF_DEPTH - p.depth, s, 0nat, n,
{
    match object_at(s, "patternProperties"@) {
        Some(m) => if 0 < n <= m.len() {
            proof {
                lemma_object_smaller(s, "patternProperties"@, n - 1);
            }
            pattern_issues(c, s, name, x, p, (n - 1) as nat) + if found(m[n - 1].key, name) {
                node_issues(c, m[n - 1].value, x, child(p, SegmentView::Key(name)))
            } else {
                Seq::empty()
            }
        } else {
            Seq::empty()
        },
        None => Seq::empty(),
    }
}

/// `patternProperties`, for the first `k` members of a value.
pub open spec fn patterns_issues(c: Setting, s: JsonView, v: JsonView, p: Place, k: nat) -> Seq<
    IssueView,
>
    decreases MAX_REF_DEPTH - p.depth, s, 1nat, k,
{
    if 0 < k <= members(v).len() {
        let m = members(v)[k - 1];
        patterns_issues(c, s, v, p, (k - 1) as nat) + pattern_issues(
            c,
            s,
            m.key,
            m.value,
            p,
            width_at(s, "patternProperties"@),
        )
    } else {
        Seq::empty()
    }
}

/// Whether one of the first `n` members of `patternProperties` is for a name.
pub open spec fn some_pattern(m: Seq<MemberView>, name: Seq<char>, n: nat) -> bool
    decreases n,
{
    if 0 < n <= m.len() {
        some_pattern(m, name, (n - 1) as nat) || found(m[n - 1].key, name)
    } else {
        false
    }
}

/// Whether `properties` or `patternProperties` is for a name.
pub open spec fn is_covered(s: JsonView, name: Seq<char>) -> bool {
    ||| match object_at(s, "properties"@) {
        Some(m) => lookup(m, name) is Some,
        None => false,
    }
    ||| match object_at(s, "patternProperties"@) {
        Some(m) => some_pattern(m, name, m.len()),
        None => false,
    }
}

/// `additionalProperties`, for one member of a value.
pub open spec fn extra_issues(
    c: Setting,
    s: JsonView,
    name: Seq<char>,
    x: JsonView,
    p: Place,
) -> Seq<IssueView>
    decreases MAX_REF_DEPTH - p.depth, s, 1nat, 0nat,
{
    let there = child(p, SegmentView::Key(name));
    if is_covered(s, name) {
        Seq::empty()
    } else {
        match member(s, "additionalProperties"@) {
            Some(JsonView::Flag(false)) => seq![
                issue(there, "additionalProperties"@, "不允许额外属性 \""@ + name + "\""@),
            ],
            Some(JsonView::Flag(true)) => Seq::empty(),
            Some(_) => sub_issues(c, s, "additionalProperties"@, x, there),
            None => Seq::empty(),
        }
    }
}

/// `additionalProperties`, for the first `k` members of a value.
pub open spec fn additional_issues(c: Setting, s: JsonView, v: JsonView, p: Place, k: nat) -> Seq<
    IssueView,
>
    decreases MAX_REF_DEPTH - p.depth, s, 2nat, k,
{
    if 0 < k <= members(v).len() {
        let m = members(v)[k - 1];
        additional_issues(c, s, v, p, (k - 1) as nat) + extra_issues(c, s, m.key, m.value, p)
    } else {
        Seq::empty()
    }
}

/// The first `n` names of `required`.
pub open spec fn required_issues(l: Seq<JsonView>, v: JsonView, p: Place, n: nat) -> Seq<IssueView>
    decreases n,
{
    if 0 < n <= l.len() {
        required_issues(l, v, p, (n - 1) as nat) + match l[n - 1] {
            JsonView::Text(name) => one_if(
                member(v, name) is None,
                issue(p, "required"@, "缺少必需属性 \""@ + name + "\""@),
            ),
            _ => Seq::empty(),
        }
    } else {
        Seq::empty()
    }
}

/// `propertyNames`, for the first `k` members of a value.
pub open spec fn name_issues(c: Setting, s: JsonView, v: JsonView, p: Place, k: nat) -> Seq<
    IssueView,
>
    decreases MAX_REF_DEPTH - p.depth, s, 1nat, k,
{
    if 0 < k <= members(v).len() {
        let name = members(v)[k - 1].key;
        name_issues(c, s, v, p, (k - 1) as nat) + sub_issues(
            c,
            s,
            "propertyNames"@,
            JsonView::Text(name),
            child(p, SegmentView::Key(name)),
        )
    } else {
        Seq::empty()
    }
}

/// The first `n` names that a member of `dependentRequired` asks for.
pub open spec fn sibling_issues(
    l: Seq<JsonView>,
    trigger: Seq<char>,
    v: JsonView,
    p: Place,
    n: nat,
) -> Seq<IssueView>
    decreases n,
{
    if 0 < n <= l.len() {
        sibling_issues(l, trigger, v, p, (n - 1) as nat) + match l[n - 1] {
            JsonView::Text(name) => one_if(
                member(v, name) is None,
                issue(
                    p,
                    "dependentRequired"@,
                    "属性 \""@ + trigger + "\" 存在时必须同时提供 \""@ + name + "\""@,
                ),
            ),
            _ => Seq::empty(),
        }
    } else {
        Seq::empty()
    }
}

/// The first `n` members of `dependentRequired`.
pub open spec fn dependent_issues(m: Seq<MemberView>, v: JsonView, p: Place, n: nat) -> Seq<
    IssueView,
>
    decreases n,
{
    if 0 < n <= m.len() {
        dependent_issues(m, v, p, (n - 1) as nat) + match (
            member(v, m[n - 1].key),
            m[n - 1].value,
        ) {
            (Some(_), JsonView::List(l)) => sibling_issues(l, m[n - 1].key, v, p, l.len()),
            _ => Seq::empty(),
        }
    } else {
        Seq::empty()
    }
}

/// The first `n` members of `dependentSchemas`.
pub open spec fn dependent_schema_issues(
    c: Setting,
    s: JsonView,
    v: JsonView,
    p: Place,
    n: nat,
) -> Seq<IssueView>
    decreases MAX_REF_DEPTH - p.depth, s, 0nat, n,
{
    match object_at(s, "dependentSchemas"@) {
        Some(m) => if 0 < n <= m.len() {
            proof {
                lemma_object_smaller(s, "dependentSchemas"@, n - 1);
            }
            dependent_schema_issues(c, s, v, p, (n - 1) as nat) + match member(v, m[n - 1].key) {
                Some(_) => node_issues(c, m[n - 1].value, v, p),
                None => Seq::empty(),
            }
        } else {
            Seq::empty()
        },
        None => Seq::empty(),
    }
}

/// What a schema asks of an object.
pub open spec fn object_issues(c: Setting, s: JsonView, v: JsonView, p: Place) -> Seq<IssueView>
    decreases MAX_REF_DEPTH - p.depth, s, 5nat, 0nat,
{
    let n = members(v).len();
    property_issues(c, s, v, p, width_at(s, "properties"@)) + patterns_issues(c, s, v, p, n)
        + additional_issues(c, s, v, p, n) + match list_at(s, "required"@) {
        Some(l) => required_issues(l, v, p, l.len()),
        None => Seq::empty(),
    } + least_issues(s, "minProperties"@, n, p) + most_issues(s, "maxProperties"@, n, p)
        + name_issues(c, s, v, p, n) + match object_at(s, "dependentRequired"@) {
        Some(m) => dependent_issues(m, v, p, m.len()),
        None => Seq::empty(),
    } + dependent_schema_issues(c, s, v, p, width_at(s, "dependentSchemas"@))
}

// Lists

/// The first `n` schemas of `prefixItems`.
pub open spec fn prefix_issues(c: Setting, s: JsonView, v: JsonView, p: Place, n: nat) -> Seq<
    IssueView,
>
    decreases MAX_REF_DEPTH - p.depth, s, 0nat, n,
{
    match list_at(s, "prefixItems"@) {
        Some(l) => if 0 < n <= l.len() {
            proof {
                lemma_list_smaller(s, "prefixItems"@, n - 1);
            }
            prefix_issues(c, s, v, p, (n - 1) as nat) + if n <= elements(v).len() {
                node_issues(
                    c,
                    l[n - 1],
                    elements(v)[n - 1],
                    child(p, SegmentView::Index((n - 1) as nat)),
                )
            } else {
                Seq::empty()
            }
        } else {
            Seq::empty()
        },
        None => Seq::empty(),
    }
}

/// `items`, for the elements up to the `k`th that no schema of `prefixItems` is for.
pub open spec fn item_issues(c: Setting, s: JsonView, v: JsonView, p: Place, k: nat) -> Seq<
    IssueView,
>
    decreases MAX_REF_DEPTH - p.depth, s, 1nat, k,
{
    if len_at(s, "prefixItems"@) < k <= elements(v).len() {
        item_issues(c, s, v, p, (k - 1) as nat) + sub_issues(
            c,
            s,
            "items"@,
            elements(v)[k - 1],
            child(p, SegmentView::Index((k - 1) as nat)),
        )
    } else {
        Seq::empty()
    }
}

/// Whether two elements are the same.
pub open spec fn has_twins(l: Seq<JsonView>) -> bool {
    exists|i: int, j: int| 0 <= i < j < l.len() && same_json(#[trigger] l[i], #[trigger] l[j])
}

/// How many of the first `k` elements meet `contains`.
pub open spec fn containing(c: Setting, s: JsonView, v: JsonView, p: Place, k: nat) -> nat
    decreases MAX_REF_DEPTH - p.depth, s, 1nat, k,
{
    if 0 < k <= elements(v).len() {
        containing(c, s, v, p, (k - 1) as nat) + if sub_issues(
            c,
            s,
            "contains"@,
            elements(v)[k - 1],
            inner(p),
        ).len() == 0 {
            1nat
        } else {
            0nat
        }
    } else {
        0
    }
}

/// `contains`, `minContains` and `maxContains`.
pub open spec fn contains_issues(c: Setting, s: JsonView, v: JsonView, p: Place) -> Seq<IssueView>
    decreases MAX_REF_DEPTH - p.depth, s, 4nat, 0nat,
{
    if member(s, "contains"@) is None {
        Seq::empty()
    } else {
        let n = containing(c, s, v, p, elements(v).len());
        let min = match count_at(s, "minContains"@) {
            Some(x) => x,
            None => 1,
        };
        let (above, max) = match count_at(s, "maxContains"@) {
            Some(x) => (n > x, dec(x)),
            None => (false, "不限"@),
        };
        one_if(
            n < min || above,
            issue(
                p,
                "contains"@,
                "contains 要求匹配 "@ + dec(min) + " 到 "@ + max + " 次，实际匹配 "@ + dec(n)
                    + " 次"@,
            ),
        )
    }
}

/// What a schema asks of a list.
pub open spec fn array_issues(c: Setting, s: JsonView, v: JsonView, p: Place) -> Seq<IssueView>
    decreases MAX_REF_DEPTH - p.depth, s, 5nat, 0nat,
{
    let n = elements(v).len();
    prefix_issues(c, s, v, p, len_at(s, "prefixItems"@)) + item_issues(c, s, v, p, n)
        + least_issues(s, "minItems"@, n, p) + most_issues(s, "maxItems"@, n, p) + one_if(
        is_set(s, "uniqueItems"@) && has_twins(elements(v)),
        issue(p, "uniqueItems"@, "数组元素必须互不相同"@),
    ) + contains_issues(c, s, v, p)
}

/// What a schema asks of a value.
pub open spec fn schema_issues(root: JsonView, uneven: Seq<(u64, u64)>, v: JsonView) -> Seq<
    IssueView,
> {
    node_issues(
        Setting { root, uneven },
        root,
        v,
        Place { path: Seq::empty(), refs: Seq::empty(), depth: 0 },
    )
}

} // verus!
