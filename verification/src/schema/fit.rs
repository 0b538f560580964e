//! What holds of all that is said against a value.

use vstd::prelude::*;

use crate::schema::error::IssueView;
use crate::schema::json::{elements, lemma_member_smaller, member, members, JsonView, MemberView};
use crate::schema::rules::{
    additional_issues, all_issues, any_issues, array_issues, bound_issues, child, const_issues,
    contains_issues, dependent_issues, dependent_schema_issues, enum_issues, extra_issues,
    if_issues, is_set, has_twins, issue, item_issues, least_issues, lemma_list_smaller,
    lemma_object_smaller, len_at, list_at, most_issues, multiple_issues, name_issues, node_issues,
    not_issues, number_issues, object_at, object_issues, object_schema_issues, one_if, one_issues,
    pattern_issues, patterns_issues, prefix_issues, property_issues, ref_issues, ref_target,
    required_issues, schema_issues, sibling_issues, string_issues, sub_issues, text_at, type_issues,
    width_at, Place, Setting, Side, MAX_REF_DEPTH,
};
use crate::schema::error::SegmentView;

verus! {

broadcast use vstd::seq::group_seq_axioms;

/// Whether an issue is about a place or something in it, and only marked as one of a union where
/// the keyword is a union's own.
pub open spec fn is_fit(p: Place, x: IssueView) -> bool {
    &&& p.path.is_prefix_of(x.path)
    &&& x.from_union_branch ==> x.keyword == "anyOf"@ || x.keyword == "oneOf"@
}

/// Whether all issues are fit.
pub open spec fn are_fit(p: Place, s: Seq<IssueView>) -> bool {
    forall|i: int| 0 <= i < s.len() ==> is_fit(p, #[trigger] s[i])
}

proof fn lemma_fit_concat(p: Place, a: Seq<IssueView>, b: Seq<IssueView>)
    requires
        are_fit(p, a),
        are_fit(p, b),
    ensures
        are_fit(p, a + b),
{
    assert forall|i: int| 0 <= i < (a + b).len() implies is_fit(p, #[trigger] (a + b)[i]) by {
        if i < a.len() {
            assert((a + b)[i] == a[i]);
        } else {
            assert((a + b)[i] == b[i - a.len()]);
        }
    }
}

proof fn lemma_fit_child(p: Place, segment: SegmentView, a: Seq<IssueView>)
    requires
        are_fit(child(p, segment), a),
    ensures
        are_fit(p, a),
{
    assert forall|i: int| 0 <= i < a.len() implies is_fit(p, #[trigger] a[i]) by {
        assert(is_fit(child(p, segment), a[i]));
        let q = p.path.push(segment);
        assert(q.is_prefix_of(a[i].path));
        assert(p.path =~= a[i].path.subrange(0, p.path.len() as int)) by {
            assert(q =~= a[i].path.subrange(0, q.len() as int));
            assert forall|j: int| 0 <= j < p.path.len() implies p.path[j] == a[i].path[j] by {
                assert(q[j] == a[i].path.subrange(0, q.len() as int)[j]);
            }
        }
    }
}

proof fn lemma_node_fit(c: Setting, s: JsonView, v: JsonView, p: Place)
    ensures
        are_fit(p, node_issues(c, s, v, p)),
    decreases MAX_REF_DEPTH - p.depth, s, 9nat, 0nat,
{
    if s is Object {
        lemma_object_schema_fit(c, s, v, p);
    }
}

proof fn lemma_object_schema_fit(c: Setting, s: JsonView, v: JsonView, p: Place)
    ensures
        are_fit(p, object_schema_issues(c, s, v, p)),
    decreases MAX_REF_DEPTH - p.depth, s, 8nat, 0nat,
{
    let a = type_issues(s, v, p) + enum_issues(s, v, p);
    lemma_fit_concat(p, type_issues(s, v, p), enum_issues(s, v, p));
    lemma_fit_concat(p, a, const_issues(s, v, p));
    let a = a + const_issues(s, v, p);
    lemma_ref_fit(c, s, v, p);
    lemma_fit_concat(p, a, ref_issues(c, s, v, p));
    let a = a + ref_issues(c, s, v, p);
    lemma_all_fit(c, s, v, p, len_at(s, "allOf"@));
    lemma_fit_concat(p, a, all_issues(c, s, v, p, len_at(s, "allOf"@)));
    let a = a + all_issues(c, s, v, p, len_at(s, "allOf"@));
    lemma_fit_concat(p, a, any_issues(c, s, v, p));
    let a = a + any_issues(c, s, v, p);
    lemma_fit_concat(p, a, one_issues(c, s, v, p));
    let a = a + one_issues(c, s, v, p);
    lemma_fit_concat(p, a, not_issues(c, s, v, p));
    let a = a + not_issues(c, s, v, p);
    lemma_sub_fit(c, s, "then"@, v, p);
    lemma_sub_fit(c, s, "else"@, v, p);
    lemma_fit_concat(p, a, if_issues(c, s, v, p));
    let a = a + if_issues(c, s, v, p);
    match v {
        JsonView::Object(_) => {
            lemma_object_fit(c, s, v, p);
            lemma_fit_concat(p, a, object_issues(c, s, v, p));
        },
        JsonView::List(_) => {
            lemma_array_fit(c, s, v, p);
            lemma_fit_concat(p, a, array_issues(c, s, v, p));
        },
        JsonView::Text(t) => {
            lemma_string_fit(s, t, p);
            lemma_fit_concat(p, a, string_issues(s, t, p));
        },
        JsonView::Number(n) => {
            lemma_number_fit(c, s, v, p);
            lemma_fit_concat(p, a, number_issues(c, s, n, p));
        },
        _ => {
            lemma_fit_concat(p, a, Seq::empty());
        },
    }
}

proof fn lemma_string_fit(s: JsonView, t: Seq<char>, p: Place)
    ensures
        are_fit(p, string_issues(s, t, p)),
{
    let all = string_issues(s, t, p);
    assert forall|i: int| 0 <= i < all.len() implies is_fit(p, #[trigger] all[i]) by {}
}

proof fn lemma_number_fit(c: Setting, s: JsonView, v: JsonView, p: Place)
    ensures
        v matches JsonView::Number(n) ==> are_fit(p, number_issues(c, s, n, p)),
{
    if let JsonView::Number(n) = v {
        let a = bound_issues(s, "minimum"@, Side::Below, "≥ "@, n, p);
        let b = bound_issues(s, "maximum"@, Side::Above, "≤ "@, n, p);
        lemma_fit_concat(p, a, b);
        let a = a + b;
        let b = bound_issues(s, "exclusiveMinimum"@, Side::NotAbove, "> "@, n, p);
        lemma_fit_concat(p, a, b);
        let a = a + b;
        let b = bound_issues(s, "exclusiveMaximum"@, Side::NotBelow, "< "@, n, p);
        lemma_fit_concat(p, a, b);
        lemma_fit_concat(p, a + b, multiple_issues(c, s, n, p));
    }
}

proof fn lemma_ref_fit(c: Setting, s: JsonView, v: JsonView, p: Place)
    ensures
        are_fit(p, ref_issues(c, s, v, p)),
    decreases MAX_REF_DEPTH - p.depth, s, 5nat, 0nat,
{
    if let Some(reference) = text_at(s, "$ref"@) {
        if p.depth < MAX_REF_DEPTH {
            if let Some(target) = ref_target(c.root, reference) {
                let q = Place { path: p.path, refs: p.refs.push(reference), depth: p.depth + 1 };
                lemma_node_fit(c, target, v, q);
                let found = node_issues(c, target, v, q);
                assert forall|i: int| 0 <= i < found.len() implies is_fit(
                    p,
                    #[trigger] found[i],
                ) by {
                    assert(is_fit(q, found[i]));
                }
            }
        }
    }
}

proof fn lemma_sub_fit(c: Setting, s: JsonView, key: Seq<char>, v: JsonView, p: Place)
    ensures
        are_fit(p, sub_issues(c, s, key, v, p)),
    decreases MAX_REF_DEPTH - p.depth, s, 0nat, 0nat,
{
    lemma_member_smaller(s, key);
    if let Some(x) = member(s, key) {
        lemma_node_fit(c, x, v, p);
    }
}

proof fn lemma_all_fit(c: Setting, s: JsonView, v: JsonView, p: Place, n: nat)
    ensures
        are_fit(p, all_issues(c, s, v, p, n)),
    decreases MAX_REF_DEPTH - p.depth, s, 0nat, n,
{
    if let Some(l) = list_at(s, "allOf"@) {
        if 0 < n <= l.len() {
            lemma_list_smaller(s, "allOf"@, n - 1);
            lemma_all_fit(c, s, v, p, (n - 1) as nat);
            lemma_node_fit(c, l[n - 1], v, p);
            lemma_fit_concat(
                p,
                all_issues(c, s, v, p, (n - 1) as nat),
                node_issues(c, l[n - 1], v, p),
            );
        }
    }
}

proof fn lemma_property_fit(c: Setting, s: JsonView, v: JsonView, p: Place, n: nat)
    ensures
        are_fit(p, property_issues(c, s, v, p, n)),
    decreases MAX_REF_DEPTH - p.depth, s, 0nat, n,
{
    if let Some(m) = object_at(s, "properties"@) {
        if 0 < n <= m.len() {
            lemma_object_smaller(s, "properties"@, n - 1);
            let front = property_issues(c, s, v, p, (n - 1) as nat);
            lemma_property_fit(c, s, v, p, (n - 1) as nat);
            match member(v, m[n - 1].key) {
                Some(x) => {
                    let segment = SegmentView::Key(m[n - 1].key);
                    let found = node_issues(c, m[n - 1].value, x, child(p, segment));
                    lemma_node_fit(c, m[n - 1].value, x, child(p, segment));
                    lemma_fit_child(p, segment, found);
                    lemma_fit_concat(p, front, found);
                },
                None => {
                    lemma_fit_concat(p, front, Seq::empty());
                },
            }
        }
    }
}

proof fn lemma_pattern_fit(c: Setting, s: JsonView, name: Seq<char>, x: JsonView, p: Place, n: nat)
    ensures
        are_fit(p, pattern_issues(c, s, name, x, p, n)),
    decreases MAX_REF_DEPTH - p.depth, s, 0nat, n,
{
    if let Some(m) = object_at(s, "patternProperties"@) {
        if 0 < n <= m.len() {
            lemma_object_smaller(s, "patternProperties"@, n - 1);
            let front = pattern_issues(c, s, name, x, p, (n - 1) as nat);
            lemma_pattern_fit(c, s, name, x, p, (n - 1) as nat);
            let segment = SegmentView::Key(name);
            let found = node_issues(c, m[n - 1].value, x, child(p, segment));
            lemma_node_fit(c, m[n - 1].value, x, child(p, segment));
            lemma_fit_child(p, segment, found);
            lemma_fit_concat(p, front, found);
            lemma_fit_concat(p, front, Seq::empty());
        }
    }
}

proof fn lemma_dependent_schema_fit(c: Setting, s: JsonView, v: JsonView, p: Place, n: nat)
    ensures
        are_fit(p, dependent_schema_issues(c, s, v, p, n)),
    decreases MAX_REF_DEPTH - p.depth, s, 0nat, n,
{
    if let Some(m) = object_at(s, "dependentSchemas"@) {
        if 0 < n <= m.len() {
            lemma_object_smaller(s, "dependentSchemas"@, n - 1);
            let front = dependent_schema_issues(c, s, v, p, (n - 1) as nat);
            lemma_dependent_schema_fit(c, s, v, p, (n - 1) as nat);
            lemma_node_fit(c, m[n - 1].value, v, p);
            lemma_fit_concat(p, front, node_issues(c, m[n - 1].value, v, p));
            lemma_fit_concat(p, front, Seq::empty());
        }
    }
}

proof fn lemma_prefix_fit(c: Setting, s: JsonView, v: JsonView, p: Place, n: nat)
    ensures
        are_fit(p, prefix_issues(c, s, v, p, n)),
    decreases MAX_REF_DEPTH - p.depth, s, 0nat, n,
{
    if let Some(m) = list_at(s, "prefixItems"@) {
        if 0 < n <= m.len() {
            lemma_list_smaller(s, "prefixItems"@, n - 1);
            let front = prefix_issues(c, s, v, p, (n - 1) as nat);
            lemma_prefix_fit(c, s, v, p, (n - 1) as nat);
            let segment = SegmentView::Index((n - 1) as nat);
            if n <= elements(v).len() {
                let found = node_issues(c, m[n - 1], elements(v)[n - 1], child(p, segment));
                lemma_node_fit(c, m[n - 1], elements(v)[n - 1], child(p, segment));
                lemma_fit_child(p, segment, found);
                lemma_fit_concat(p, front, found);
            } else {
                lemma_fit_concat(p, front, Seq::empty());
            }
        }
    }
}

proof fn lemma_patterns_fit(c: Setting, s: JsonView, v: JsonView, p: Place, k: nat)
    ensures
        are_fit(p, patterns_issues(c, s, v, p, k)),
    decreases MAX_REF_DEPTH - p.depth, s, 1nat, k,
{
    if 0 < k <= members(v).len() {
        let front = patterns_issues(c, s, v, p, (k - 1) as nat);
        lemma_patterns_fit(c, s, v, p, (k - 1) as nat);
        let m = members(v)[k - 1];
        let n = width_at(s, "patternProperties"@);
        lemma_pattern_fit(c, s, m.key, m.value, p, n);
        lemma_fit_concat(p, front, pattern_issues(c, s, m.key, m.value, p, n));
    }
}

proof fn lemma_extra_fit(c: Setting, s: JsonView, name: Seq<char>, x: JsonView, p: Place)
    ensures
        are_fit(p, extra_issues(c, s, name, x, p)),
    decreases MAX_REF_DEPTH - p.depth, s, 1nat, 0nat,
{
    let segment = SegmentView::Key(name);
    let there = child(p, segment);
    lemma_sub_fit(c, s, "additionalProperties"@, x, there);
    lemma_fit_child(p, segment, sub_issues(c, s, "additionalProperties"@, x, there));
    assert(are_fit(there, extra_issues(c, s, name, x, p)));
    lemma_fit_child(p, segment, extra_issues(c, s, name, x, p));
}

proof fn lemma_additional_fit(c: Setting, s: JsonView, v: JsonView, p: Place, k: nat)
    ensures
        are_fit(p, additional_issues(c, s, v, p, k)),
    decreases MAX_REF_DEPTH - p.depth, s, 2nat, k,
{
    if 0 < k <= members(v).len() {
        let front = additional_issues(c, s, v, p, (k - 1) as nat);
        lemma_additional_fit(c, s, v, p, (k - 1) as nat);
        let m = members(v)[k - 1];
        lemma_extra_fit(c, s, m.key, m.value, p);
        lemma_fit_concat(p, front, extra_issues(c, s, m.key, m.value, p));
    }
}

proof fn lemma_name_fit(c: Setting, s: JsonView, v: JsonView, p: Place, k: nat)
    ensures
        are_fit(p, name_issues(c, s, v, p, k)),
    decreases MAX_REF_DEPTH - p.depth, s, 1nat, k,
{
    if 0 < k <= members(v).len() {
        let front = name_issues(c, s, v, p, (k - 1) as nat);
        lemma_name_fit(c, s, v, p, (k - 1) as nat);
        let segment = SegmentView::Key(members(v)[k - 1].key);
        let text = JsonView::Text(members(v)[k - 1].key);
        let found = sub_issues(c, s, "propertyNames"@, text, child(p, segment));
        lemma_sub_fit(c, s, "propertyNames"@, text, child(p, segment));
        lemma_fit_child(p, segment, found);
        lemma_fit_concat(p, front, found);
    }
}

proof fn lemma_item_fit(c: Setting, s: JsonView, v: JsonView, p: Place, k: nat)
    ensures
        are_fit(p, item_issues(c, s, v, p, k)),
    decreases MAX_REF_DEPTH - p.depth, s, 1nat, k,
{
    if len_at(s, "prefixItems"@) < k <= elements(v).len() {
        let front = item_issues(c, s, v, p, (k - 1) as nat);
        lemma_item_fit(c, s, v, p, (k - 1) as nat);
        let segment = SegmentView::Index((k - 1) as nat);
        let found = sub_issues(c, s, "items"@, elements(v)[k - 1], child(p, segment));
        lemma_sub_fit(c, s, "items"@, elements(v)[k - 1], child(p, segment));
        lemma_fit_child(p, segment, found);
        lemma_fit_concat(p, front, found);
    }
}

proof fn lemma_required_fit(l: Seq<JsonView>, v: JsonView, p: Place, n: nat)
    ensures
        are_fit(p, required_issues(l, v, p, n)),
    decreases n,
{
    if 0 < n <= l.len() {
        lemma_required_fit(l, v, p, (n - 1) as nat);
    }
}

proof fn lemma_sibling_fit(l: Seq<JsonView>, name: Seq<char>, v: JsonView, p: Place, n: nat)
    ensures
        are_fit(p, sibling_issues(l, name, v, p, n)),
    decreases n,
{
    if 0 < n <= l.len() {
        lemma_sibling_fit(l, name, v, p, (n - 1) as nat);
    }
}

proof fn lemma_dependent_fit(m: Seq<MemberView>, v: JsonView, p: Place, n: nat)
    ensures
        are_fit(p, dependent_issues(m, v, p, n)),
    decreases n,
{
    if 0 < n <= m.len() {
        let front = dependent_issues(m, v, p, (n - 1) as nat);
        lemma_dependent_fit(m, v, p, (n - 1) as nat);
        lemma_fit_concat(p, front, Seq::empty());
        if let JsonView::List(l) = m[n - 1].value {
            lemma_sibling_fit(l, m[n - 1].key, v, p, l.len());
            lemma_fit_concat(p, front, sibling_issues(l, m[n - 1].key, v, p, l.len()));
        }
    }
}

proof fn lemma_object_fit(c: Setting, s: JsonView, v: JsonView, p: Place)
    ensures
        are_fit(p, object_issues(c, s, v, p)),
    decreases MAX_REF_DEPTH - p.depth, s, 5nat, 0nat,
{
    let n = members(v).len();
    let a = property_issues(c, s, v, p, width_at(s, "properties"@));
    lemma_property_fit(c, s, v, p, width_at(s, "properties"@));
    lemma_patterns_fit(c, s, v, p, n);
    lemma_fit_concat(p, a, patterns_issues(c, s, v, p, n));
    let a = a + patterns_issues(c, s, v, p, n);
    lemma_additional_fit(c, s, v, p, n);
    lemma_fit_concat(p, a, additional_issues(c, s, v, p, n));
    let a = a + additional_issues(c, s, v, p, n);
    let b = match list_at(s, "required"@) {
        Some(l) => required_issues(l, v, p, l.len()),
        None => Seq::empty(),
    };
    if let Some(l) = list_at(s, "required"@) {
        lemma_required_fit(l, v, p, l.len());
    }
    lemma_fit_concat(p, a, b);
    let a = a + b;
    lemma_fit_concat(p, a, least_issues(s, "minProperties"@, n, p));
    let a = a + least_issues(s, "minProperties"@, n, p);
    lemma_fit_concat(p, a, most_issues(s, "maxProperties"@, n, p));
    let a = a + most_issues(s, "maxProperties"@, n, p);
    lemma_name_fit(c, s, v, p, n);
    lemma_fit_concat(p, a, name_issues(c, s, v, p, n));
    let a = a + name_issues(c, s, v, p, n);
    let b = match object_at(s, "dependentRequired"@) {
        Some(m) => dependent_issues(m, v, p, m.len()),
        None => Seq::empty(),
    };
    if let Some(m) = object_at(s, "dependentRequired"@) {
        lemma_dependent_fit(m, v, p, m.len());
    }
    lemma_fit_concat(p, a, b);
    let a = a + b;
    lemma_dependent_schema_fit(c, s, v, p, width_at(s, "dependentSchemas"@));
    lemma_fit_concat(p, a, dependent_schema_issues(c, s, v, p, width_at(s, "dependentSchemas"@)));
}

proof fn lemma_array_fit(c: Setting, s: JsonView, v: JsonView, p: Place)
    ensures
        are_fit(p, array_issues(c, s, v, p)),
    decreases MAX_REF_DEPTH - p.depth, s, 5nat, 0nat,
{
    let n = elements(v).len();
    let a = prefix_issues(c, s, v, p, len_at(s, "prefixItems"@));
    lemma_prefix_fit(c, s, v, p, len_at(s, "prefixItems"@));
    lemma_item_fit(c, s, v, p, n);
    lemma_fit_concat(p, a, item_issues(c, s, v, p, n));
    let a = a + item_issues(c, s, v, p, n);
    lemma_fit_concat(p, a, least_issues(s, "minItems"@, n, p));
    let a = a + least_issues(s, "minItems"@, n, p);
    lemma_fit_concat(p, a, most_issues(s, "maxItems"@, n, p));
    let a = a + most_issues(s, "maxItems"@, n, p);
    let b = one_if(
        is_set(s, "uniqueItems"@) && has_twins(elements(v)),
        issue(p, "uniqueItems"@, "数组元素必须互不相同"@),
    );
    lemma_fit_concat(p, a, b);
    lemma_fit_concat(p, a + b, contains_issues(c, s, v, p));
}

/// Only the issues that say which of several schemas are met are marked as those of a union.
pub proof fn lemma_union_marks(root: JsonView, uneven: Seq<(u64, u64)>, v: JsonView, i: int)
    requires
        0 <= i < schema_issues(root, uneven, v).len(),
    ensures
        schema_issues(root, uneven, v)[i].from_union_branch ==> schema_issues(
            root,
            uneven,
            v,
        )[i].keyword == "anyOf"@ || schema_issues(root, uneven, v)[i].keyword == "oneOf"@,
{
    let p = Place { path: Seq::empty(), refs: Seq::empty(), depth: 0 };
    lemma_node_fit(Setting { root, uneven }, root, v, p);
    assert(is_fit(p, schema_issues(root, uneven, v)[i]));
}

/// What is said against a part of a value is said of that part or of something in it.
pub proof fn lemma_issues_stay_inside(c: Setting, s: JsonView, v: JsonView, p: Place, i: int)
    requires
        0 <= i < node_issues(c, s, v, p).len(),
    ensures
        p.path.is_prefix_of(node_issues(c, s, v, p)[i].path),
{
    lemma_node_fit(c, s, v, p);
    assert(is_fit(p, node_issues(c, s, v, p)[i]));
}

} // verus!
