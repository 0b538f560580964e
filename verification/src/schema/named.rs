//! Each keyword that a value does not meet is named, at the place where it is not met.

use vstd::prelude::*;
use vstd::seq_lib::lemma_seq_concat_contains_all_elements;

use crate::regexes::{pattern_error, pattern_matches};
use crate::schema::error::{IssueView, SegmentView};
use crate::schema::json::{as_count, member, members, order_key, same_json, JsonView, NumberView};
use crate::schema::meaning::{
    accepts, has_key, is_declared, lemma_additional, lemma_extra, lemma_member_is_the_first, lemma_met,
    lemma_type_met, meets_only, meets_type, tells,
};
use crate::schema::rules::{
    additional_issues, any_issues, array_issues, bound_issues, const_issues, contains_issues,
    enum_issues, extra_issues, has_twins, least_issues, list_at, most_issues, multiple_issues,
    node_issues, not_issues, number_issues, object_issues, object_schema_issues, one_issues,
    required_issues, string_issues, type_issues, Place, Setting, Side,
};

verus! {

broadcast use vstd::seq::group_seq_axioms;

/// Whether an issue of a keyword is among those of a place.
pub open spec fn names(all: Seq<IssueView>, path: Seq<SegmentView>, keyword: Seq<char>) -> bool {
    exists|i: int| 0 <= i < all.len() && (#[trigger] all[i]).path == path && all[i].keyword == keyword
}

proof fn lemma_named(
    all: Seq<IssueView>,
    part: Seq<IssueView>,
    path: Seq<SegmentView>,
    keyword: Seq<char>,
)
    requires
        part.len() > 0,
        part[0].path == path,
        part[0].keyword == keyword,
        tells(all, part),
    ensures
        names(all, path, keyword),
{
    assert(part.contains(part[0]));
    assert(all.contains(part[0]));
    let i = choose|i: int| 0 <= i < all.len() && all[i] == part[0];
    assert(all[i].path == path);
}

/// A value of a wrong type, or that is none of those that are allowed, is told so.
pub proof fn lemma_wrong_value_is_named(c: Setting, s: JsonView, v: JsonView, p: Place)
    requires
        s is Object,
    ensures
        !meets_type(s, v) ==> names(node_issues(c, s, v, p), p.path, "type"@),
        member(s, "enum"@) matches Some(JsonView::List(l)) ==> (forall|i: int|
            0 <= i < l.len() ==> !same_json(#[trigger] l[i], v)) ==> names(
            node_issues(c, s, v, p),
            p.path,
            "enum"@,
        ),
        member(s, "const"@) matches Some(x) ==> !same_json(x, v) ==> names(
            node_issues(c, s, v, p),
            p.path,
            "const"@,
        ),
{
    broadcast use lemma_seq_concat_contains_all_elements;

    let all = node_issues(c, s, v, p);
    assert(all == object_schema_issues(c, s, v, p));
    lemma_type_met(s, v, p);
    assert(tells(all, type_issues(s, v, p)));
    assert(tells(all, enum_issues(s, v, p)));
    assert(tells(all, const_issues(s, v, p)));
    if !meets_type(s, v) {
        lemma_named(all, type_issues(s, v, p), p.path, "type"@);
    }
    if enum_issues(s, v, p).len() > 0 {
        lemma_named(all, enum_issues(s, v, p), p.path, "enum"@);
    }
    if const_issues(s, v, p).len() > 0 {
        lemma_named(all, const_issues(s, v, p), p.path, "const"@);
    }
}

/// A value that meets none of several schemas, or more than one of those of which it has to meet just
/// one, or one that it must not meet, is told so.
pub proof fn lemma_wrong_choice_is_named(c: Setting, s: JsonView, v: JsonView, p: Place)
    requires
        s is Object,
    ensures
        member(s, "anyOf"@) matches Some(JsonView::List(l)) ==> (forall|i: int|
            0 <= i < l.len() ==> !accepts(c, #[trigger] l[i], v, p)) ==> names(
            node_issues(c, s, v, p),
            p.path,
            "anyOf"@,
        ),
        member(s, "oneOf"@) matches Some(JsonView::List(l)) ==> (forall|i: int|
            !#[trigger] meets_only(c, l, v, p, i)) ==> names(node_issues(c, s, v, p), p.path, "oneOf"@),
        member(s, "not"@) matches Some(x) ==> accepts(c, x, v, p) ==> names(
            node_issues(c, s, v, p),
            p.path,
            "not"@,
        ),
{
    broadcast use lemma_seq_concat_contains_all_elements;

    let all = node_issues(c, s, v, p);
    assert(all == object_schema_issues(c, s, v, p));
    assert(tells(all, any_issues(c, s, v, p)));
    assert(tells(all, one_issues(c, s, v, p)));
    assert(tells(all, not_issues(c, s, v, p)));
    if let Some(l) = list_at(s, "anyOf"@) {
        lemma_met(c, s, "anyOf"@, v, p, l);
        if any_issues(c, s, v, p).len() > 0 {
            lemma_named(all, any_issues(c, s, v, p), p.path, "anyOf"@);
        }
    }
    if let Some(l) = list_at(s, "oneOf"@) {
        lemma_met(c, s, "oneOf"@, v, p, l);
        if one_issues(c, s, v, p).len() > 0 {
            lemma_named(all, one_issues(c, s, v, p), p.path, "oneOf"@);
        }
    }
    if not_issues(c, s, v, p).len() > 0 {
        lemma_named(all, not_issues(c, s, v, p), p.path, "not"@);
    }
}

/// Whether a count is below that of a keyword.
pub open spec fn is_below(s: JsonView, key: Seq<char>, n: nat) -> bool {
    member(s, key) matches Some(JsonView::Number(x)) && (as_count(x) matches Some(k) && n < k)
}

/// Whether a count is above that of a keyword.
pub open spec fn is_above(s: JsonView, key: Seq<char>, n: nat) -> bool {
    member(s, key) matches Some(JsonView::Number(x)) && (as_count(x) matches Some(k) && n > k)
}

/// A string that is too short, too long or does not match is told so.
pub proof fn lemma_wrong_text_is_named(c: Setting, s: JsonView, t: Seq<char>, p: Place)
    requires
        s is Object,
    ensures
        ({
            let all = node_issues(c, s, JsonView::Text(t), p);
            &&& is_below(s, "minLength"@, t.len()) ==> names(all, p.path, "minLength"@)
            &&& is_above(s, "maxLength"@, t.len()) ==> names(all, p.path, "maxLength"@)
            &&& member(s, "pattern"@) matches Some(JsonView::Text(x)) ==> pattern_error(x) is None
                && !pattern_matches(x, t) ==> names(all, p.path, "pattern"@)
        }),
{
    broadcast use lemma_seq_concat_contains_all_elements;

    let v = JsonView::Text(t);
    let all = node_issues(c, s, v, p);
    assert(all == object_schema_issues(c, s, v, p));
    let part = string_issues(s, t, p);
    assert(tells(all, part));
    if is_below(s, "minLength"@, t.len()) {
        assert(part[0].keyword == "minLength"@);
        lemma_named(all, part, p.path, "minLength"@);
    }
    if is_above(s, "maxLength"@, t.len()) {
        let k = if is_below(s, "minLength"@, t.len()) {
            1int
        } else {
            0
        };
        assert(part[k].keyword == "maxLength"@ && part[k].path == p.path);
        assert(part.contains(part[k]));
        let one = seq![part[k]];
        assert(tells(all, one)) by {
            assert forall|x: IssueView| one.contains(x) implies #[trigger] all.contains(x) by {
                assert(x == part[k]);
            }
        }
        lemma_named(all, one, p.path, "maxLength"@);
    }
    if let Some(JsonView::Text(x)) = member(s, "pattern"@) {
        if pattern_error(x) is None && !pattern_matches(x, t) {
            let k = part.len() - 1;
            assert(part[k].keyword == "pattern"@ && part[k].path == p.path);
            assert(part.contains(part[k]));
            let one = seq![part[k]];
            assert(tells(all, one)) by {
                assert forall|y: IssueView| one.contains(y) implies #[trigger] all.contains(y) by {
                    assert(y == part[k]);
                }
            }
            lemma_named(all, one, p.path, "pattern"@);
        }
    }
}

/// A number that is beyond a bound, or no multiple, is told so.
pub proof fn lemma_wrong_number_is_named(c: Setting, s: JsonView, n: NumberView, p: Place)
    requires
        s is Object,
    ensures
        ({
            let all = node_issues(c, s, JsonView::Number(n), p);
            let k = order_key(n.bits);
            &&& member(s, "minimum"@) matches Some(JsonView::Number(b)) ==> k < order_key(b.bits)
                ==> names(all, p.path, "minimum"@)
            &&& member(s, "maximum"@) matches Some(JsonView::Number(b)) ==> k > order_key(b.bits)
                ==> names(all, p.path, "maximum"@)
            &&& member(s, "exclusiveMinimum"@) matches Some(JsonView::Number(b)) ==> k <= order_key(
                b.bits,
            ) ==> names(all, p.path, "exclusiveMinimum"@)
            &&& member(s, "exclusiveMaximum"@) matches Some(JsonView::Number(b)) ==> k >= order_key(
                b.bits,
            ) ==> names(all, p.path, "exclusiveMaximum"@)
            &&& member(s, "multipleOf"@) matches Some(JsonView::Number(b)) ==> order_key(b.bits) > 0
                && c.uneven.contains((n.bits, b.bits)) ==> names(all, p.path, "multipleOf"@)
        }),
{
    broadcast use lemma_seq_concat_contains_all_elements;

    let v = JsonView::Number(n);
    let all = node_issues(c, s, v, p);
    assert(all == object_schema_issues(c, s, v, p));
    let part = number_issues(c, s, n, p);
    assert(tells(all, part));
    let a = bound_issues(s, "minimum"@, Side::Below, "≥ "@, n, p);
    let b = bound_issues(s, "maximum"@, Side::Above, "≤ "@, n, p);
    let d = bound_issues(s, "exclusiveMinimum"@, Side::NotAbove, "> "@, n, p);
    let e = bound_issues(s, "exclusiveMaximum"@, Side::NotBelow, "< "@, n, p);
    let f = multiple_issues(c, s, n, p);
    assert(part == a + b + d + e + f);
    assert(tells(all, a));
    assert(tells(all, b));
    assert(tells(all, d));
    assert(tells(all, e));
    assert(tells(all, f));
    if a.len() > 0 {
        lemma_named(all, a, p.path, "minimum"@);
    }
    if b.len() > 0 {
        lemma_named(all, b, p.path, "maximum"@);
    }
    if d.len() > 0 {
        lemma_named(all, d, p.path, "exclusiveMinimum"@);
    }
    if e.len() > 0 {
        lemma_named(all, e, p.path, "exclusiveMaximum"@);
    }
    if f.len() > 0 {
        lemma_named(all, f, p.path, "multipleOf"@);
    }
}

/// A list that is too short or too long, or has an element twice that must not be, is told so.
pub proof fn lemma_wrong_list_is_named(c: Setting, s: JsonView, l: Seq<JsonView>, p: Place)
    requires
        s is Object,
    ensures
        ({
            let all = node_issues(c, s, JsonView::List(l), p);
            &&& is_below(s, "minItems"@, l.len()) ==> names(all, p.path, "minItems"@)
            &&& is_above(s, "maxItems"@, l.len()) ==> names(all, p.path, "maxItems"@)
            &&& member(s, "uniqueItems"@) == Some(JsonView::Flag(true)) && (exists|i: int, j: int|
                0 <= i < j < l.len() && same_json(#[trigger] l[i], #[trigger] l[j])) ==> names(
                all,
                p.path,
                "uniqueItems"@,
            )
            &&& contains_issues(c, s, JsonView::List(l), p).len() > 0 ==> names(all, p.path, "contains"@)
        }),
{
    broadcast use lemma_seq_concat_contains_all_elements;

    let v = JsonView::List(l);
    let all = node_issues(c, s, v, p);
    let n = l.len();
    assert(all == object_schema_issues(c, s, v, p));
    let part = array_issues(c, s, v, p);
    assert(tells(all, part));
    let a = least_issues(s, "minItems"@, n, p);
    let b = most_issues(s, "maxItems"@, n, p);
    let d = crate::schema::rules::one_if(
        crate::schema::rules::is_set(s, "uniqueItems"@) && has_twins(l),
        crate::schema::rules::issue(p, "uniqueItems"@, "数组元素必须互不相同"@),
    );
    let e = contains_issues(c, s, v, p);
    assert(tells(all, a));
    assert(tells(all, b));
    assert(tells(all, d));
    assert(tells(all, e));
    if a.len() > 0 {
        lemma_named(all, a, p.path, "minItems"@);
    }
    if b.len() > 0 {
        lemma_named(all, b, p.path, "maxItems"@);
    }
    if d.len() > 0 {
        lemma_named(all, d, p.path, "uniqueItems"@);
    }
    if e.len() > 0 {
        lemma_named(all, e, p.path, "contains"@);
    }
}

proof fn lemma_required_named(l: Seq<JsonView>, v: JsonView, p: Place, n: nat, i: int, name: Seq<char>)
    requires
        0 <= i < n <= l.len(),
        l[i] == JsonView::Text(name),
        !has_key(v, name),
    ensures
        exists|x: IssueView| #[trigger]
            required_issues(l, v, p, n).contains(x) && x.path == p.path && x.keyword == "required"@
                && x.message == "缺少必需属性 \""@ + name + "\""@,
    decreases n,
{
    broadcast use lemma_seq_concat_contains_all_elements;

    let all = required_issues(l, v, p, n);
    let front = required_issues(l, v, p, (n - 1) as nat);
    if i == n - 1 {
        lemma_member_is_the_first(v, name);
        let x = all[all.len() - 1];
        assert(all.contains(x));
        assert(x.path == p.path && x.keyword == "required"@);
        assert(x.message == "缺少必需属性 \""@ + name + "\""@);
    } else {
        lemma_required_named(l, v, p, (n - 1) as nat, i, name);
        let x = choose|x: IssueView| #[trigger]
            front.contains(x) && x.path == p.path && x.keyword == "required"@ && x.message
                == "缺少必需属性 \""@ + name + "\""@;
        assert(all.contains(x));
    }
}

/// Each member that an object lacks is named, and so is each that it has and must not have, at the
/// place of that member; one with too few members, or too many, is told so.
pub proof fn lemma_wrong_members_are_named(c: Setting, s: JsonView, v: JsonView, p: Place)
    requires
        s is Object,
        v is Object,
    ensures
        member(s, "required"@) matches Some(JsonView::List(l)) ==> forall|i: int|
            0 <= i < l.len() ==> ((#[trigger] l[i]) matches JsonView::Text(name) ==> !has_key(v, name)
                ==> exists|x: IssueView| #[trigger]
                node_issues(c, s, v, p).contains(x) && x.path == p.path && x.keyword == "required"@
                    && x.message == "缺少必需属性 \""@ + name + "\""@),
        member(s, "additionalProperties"@) == Some(JsonView::Flag(false)) ==> forall|k: int|
            0 <= k < members(v).len() && !is_declared(s, (#[trigger] members(v)[k]).key) ==> names(
                node_issues(c, s, v, p),
                p.path.push(SegmentView::Key(members(v)[k].key)),
                "additionalProperties"@,
            ),
        is_below(s, "minProperties"@, members(v).len()) ==> names(
            node_issues(c, s, v, p),
            p.path,
            "minProperties"@,
        ),
        is_above(s, "maxProperties"@, members(v).len()) ==> names(
            node_issues(c, s, v, p),
            p.path,
            "maxProperties"@,
        ),
{
    broadcast use lemma_seq_concat_contains_all_elements;

    let all = node_issues(c, s, v, p);
    let n = members(v).len();
    assert(all == object_schema_issues(c, s, v, p));
    let part = object_issues(c, s, v, p);
    assert(tells(all, part));
    let a = least_issues(s, "minProperties"@, n, p);
    let b = most_issues(s, "maxProperties"@, n, p);
    let d = additional_issues(c, s, v, p, n);
    assert(tells(all, a));
    assert(tells(all, b));
    assert(tells(all, d));
    if a.len() > 0 {
        lemma_named(all, a, p.path, "minProperties"@);
    }
    if b.len() > 0 {
        lemma_named(all, b, p.path, "maxProperties"@);
    }
    lemma_additional(c, s, v, p, n);
    if member(s, "additionalProperties"@) == Some(JsonView::Flag(false)) {
        assert forall|k: int|
            0 <= k < members(v).len() && !is_declared(s, (#[trigger] members(v)[k]).key) implies names(
            all,
            p.path.push(SegmentView::Key(members(v)[k].key)),
            "additionalProperties"@,
        ) by {
            let m = members(v)[k];
            lemma_extra(c, s, m.key, m.value, p);
            let e = extra_issues(c, s, m.key, m.value, p);
            assert(tells(d, e));
            assert(tells(all, e));
            lemma_named(all, e, p.path.push(SegmentView::Key(m.key)), "additionalProperties"@);
        }
    }
    if let Some(l) = list_at(s, "required"@) {
        let r = required_issues(l, v, p, l.len());
        assert(tells(all, r));
        assert forall|i: int| 0 <= i < l.len() implies ((#[trigger] l[i]) matches JsonView::Text(name)
            ==> !has_key(v, name) ==> exists|x: IssueView| #[trigger]
            all.contains(x) && x.path == p.path && x.keyword == "required"@ && x.message
                == "缺少必需属性 \""@ + name + "\""@) by {
            if let JsonView::Text(name) = l[i] {
                if !has_key(v, name) {
                    lemma_required_named(l, v, p, l.len(), i, name);
                    let x = choose|x: IssueView| #[trigger]
                        r.contains(x) && x.path == p.path && x.keyword == "required"@ && x.message
                            == "缺少必需属性 \""@ + name + "\""@;
                    assert(all.contains(x));
                }
            }
        }
    }
}

} // verus!
