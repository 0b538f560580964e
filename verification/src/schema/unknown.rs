//! What keywords that mean nothing do to a schema: nothing.

use vstd::prelude::*;

use crate::schema::error::SegmentView;
use crate::schema::json::{
    elements, find_key, lemma_find_key, member, members, JsonView, MemberView, NumberView,
};
use crate::schema::rules::{
    additional_issues, all_issues, any_issues, array_issues, child, const_issues, containing,
    contains_issues, dependent_schema_issues, enum_issues, expected_types, extra_issues, if_issues, inner, item_issues, len_at, met, name_issues,
    node_issues, not_issues, number_issues, object_issues, object_schema_issues, one_issues, pattern_issues,
    patterns_issues, prefix_issues, property_issues, ref_issues, string_issues, sub_issues, type_issues,
    width_at, Place, Setting,
};

verus! {

broadcast use vstd::seq::group_seq_axioms;

/// The keywords that mean something.
pub open spec fn is_keyword(key: Seq<char>) -> bool {
    ||| key == "type"@
    ||| key == "nullable"@
    ||| key == "enum"@
    ||| key == "const"@
    ||| key == "$ref"@
    ||| key == "allOf"@
    ||| key == "anyOf"@
    ||| key == "oneOf"@
    ||| key == "not"@
    ||| key == "if"@
    ||| key == "then"@
    ||| key == "else"@
    ||| key == "properties"@
    ||| key == "patternProperties"@
    ||| key == "additionalProperties"@
    ||| key == "required"@
    ||| key == "minProperties"@
    ||| key == "maxProperties"@
    ||| key == "propertyNames"@
    ||| key == "dependentRequired"@
    ||| key == "dependentSchemas"@
    ||| key == "prefixItems"@
    ||| key == "items"@
    ||| key == "minItems"@
    ||| key == "maxItems"@
    ||| key == "uniqueItems"@
    ||| key == "contains"@
    ||| key == "minContains"@
    ||| key == "maxContains"@
    ||| key == "minLength"@
    ||| key == "maxLength"@
    ||| key == "pattern"@
    ||| key == "minimum"@
    ||| key == "maximum"@
    ||| key == "exclusiveMinimum"@
    ||| key == "exclusiveMaximum"@
    ||| key == "multipleOf"@
}

/// Whether two schemas have the same keywords that mean something.
pub open spec fn agree(s: JsonView, t: JsonView) -> bool {
    forall|key: Seq<char>| is_keyword(key) ==> #[trigger] member(s, key) == member(t, key)
}

proof fn lemma_sub(c: Setting, s: JsonView, t: JsonView, key: Seq<char>, v: JsonView, p: Place)
    requires
        member(s, key) == member(t, key),
    ensures
        sub_issues(c, s, key, v, p) == sub_issues(c, t, key, v, p),
{
}

proof fn lemma_extra(
    c: Setting,
    s: JsonView,
    t: JsonView,
    name: Seq<char>,
    x: JsonView,
    p: Place,
)
    requires
        agree(s, t),
    ensures
        extra_issues(c, s, name, x, p) == extra_issues(c, t, name, x, p),
{
    assert(is_keyword("properties"@));
    assert(is_keyword("patternProperties"@));
    assert(is_keyword("additionalProperties"@));
    lemma_sub(c, s, t, "additionalProperties"@, x, child(p, SegmentView::Key(name)));
}

proof fn lemma_all(c: Setting, s: JsonView, t: JsonView, v: JsonView, p: Place, n: nat)
    requires
        agree(s, t),
    ensures
        all_issues(c, s, v, p, n) == all_issues(c, t, v, p, n),
    decreases n,
{
    if n > 0 {
        lemma_all(c, s, t, v, p, (n - 1) as nat);
        assert(is_keyword("allOf"@));
    }
}

proof fn lemma_met(
    c: Setting,
    s: JsonView,
    t: JsonView,
    key: Seq<char>,
    v: JsonView,
    p: Place,
    n: nat,
)
    requires
        member(s, key) == member(t, key),
    ensures
        met(c, s, key, v, p, n) == met(c, t, key, v, p, n),
    decreases n,
{
    if n > 0 {
        lemma_met(c, s, t, key, v, p, (n - 1) as nat);
    }
}

proof fn lemma_property(c: Setting, s: JsonView, t: JsonView, v: JsonView, p: Place, n: nat)
    requires
        agree(s, t),
    ensures
        property_issues(c, s, v, p, n) == property_issues(c, t, v, p, n),
    decreases n,
{
    if n > 0 {
        lemma_property(c, s, t, v, p, (n - 1) as nat);
        assert(is_keyword("properties"@));
    }
}

proof fn lemma_pattern(c: Setting, s: JsonView, t: JsonView, name: Seq<char>, x: JsonView, p: Place, n: nat)
    requires
        agree(s, t),
    ensures
        pattern_issues(c, s, name, x, p, n) == pattern_issues(c, t, name, x, p, n),
    decreases n,
{
    if n > 0 {
        lemma_pattern(c, s, t, name, x, p, (n - 1) as nat);
        assert(is_keyword("patternProperties"@));
    }
}

proof fn lemma_patterns(c: Setting, s: JsonView, t: JsonView, v: JsonView, p: Place, k: nat)
    requires
        agree(s, t),
    ensures
        patterns_issues(c, s, v, p, k) == patterns_issues(c, t, v, p, k),
    decreases k,
{
    if k > 0 {
        lemma_patterns(c, s, t, v, p, (k - 1) as nat);
        assert(is_keyword("patternProperties"@));
        let m = members(v)[k - 1];
        lemma_pattern(c, s, t, m.key, m.value, p, width_at(s, "patternProperties"@));
    }
}

proof fn lemma_additional(c: Setting, s: JsonView, t: JsonView, v: JsonView, p: Place, k: nat)
    requires
        agree(s, t),
    ensures
        additional_issues(c, s, v, p, k) == additional_issues(c, t, v, p, k),
    decreases k,
{
    if k > 0 {
        lemma_additional(c, s, t, v, p, (k - 1) as nat);
        let m = members(v)[k - 1];
        lemma_extra(c, s, t, m.key, m.value, p);
    }
}

proof fn lemma_name(c: Setting, s: JsonView, t: JsonView, v: JsonView, p: Place, k: nat)
    requires
        agree(s, t),
    ensures
        name_issues(c, s, v, p, k) == name_issues(c, t, v, p, k),
    decreases k,
{
    if k > 0 {
        lemma_name(c, s, t, v, p, (k - 1) as nat);
        assert(is_keyword("propertyNames"@));
        let name = members(v)[k - 1].key;
        lemma_sub(
            c,
            s,
            t,
            "propertyNames"@,
            JsonView::Text(name),
            child(p, SegmentView::Key(name)),
        );
    }
}

proof fn lemma_dependent_schema(c: Setting, s: JsonView, t: JsonView, v: JsonView, p: Place, n: nat)
    requires
        agree(s, t),
    ensures
        dependent_schema_issues(c, s, v, p, n) == dependent_schema_issues(c, t, v, p, n),
    decreases n,
{
    if n > 0 {
        lemma_dependent_schema(c, s, t, v, p, (n - 1) as nat);
        assert(is_keyword("dependentSchemas"@));
    }
}

proof fn lemma_prefix(c: Setting, s: JsonView, t: JsonView, v: JsonView, p: Place, n: nat)
    requires
        agree(s, t),
    ensures
        prefix_issues(c, s, v, p, n) == prefix_issues(c, t, v, p, n),
    decreases n,
{
    if n > 0 {
        lemma_prefix(c, s, t, v, p, (n - 1) as nat);
        assert(is_keyword("prefixItems"@));
    }
}

proof fn lemma_item(c: Setting, s: JsonView, t: JsonView, v: JsonView, p: Place, k: nat)
    requires
        agree(s, t),
    ensures
        item_issues(c, s, v, p, k) == item_issues(c, t, v, p, k),
    decreases k,
{
    assert(is_keyword("prefixItems"@));
    if k > 0 {
        lemma_item(c, s, t, v, p, (k - 1) as nat);
        assert(is_keyword("items"@));
        lemma_sub(
            c,
            s,
            t,
            "items"@,
            elements(v)[k - 1],
            child(p, SegmentView::Index((k - 1) as nat)),
        );
    }
}

proof fn lemma_containing(c: Setting, s: JsonView, t: JsonView, v: JsonView, p: Place, k: nat)
    requires
        agree(s, t),
    ensures
        containing(c, s, v, p, k) == containing(c, t, v, p, k),
    decreases k,
{
    if k > 0 {
        lemma_containing(c, s, t, v, p, (k - 1) as nat);
        assert(is_keyword("contains"@));
        lemma_sub(c, s, t, "contains"@, elements(v)[k - 1], inner(p));
    }
}

proof fn lemma_contains(c: Setting, s: JsonView, t: JsonView, v: JsonView, p: Place)
    requires
        agree(s, t),
    ensures
        contains_issues(c, s, v, p) == contains_issues(c, t, v, p),
{
    assert(is_keyword("contains"@));
    assert(is_keyword("minContains"@));
    assert(is_keyword("maxContains"@));
    lemma_containing(c, s, t, v, p, elements(v).len());
}

proof fn lemma_array(c: Setting, s: JsonView, t: JsonView, v: JsonView, p: Place)
    requires
        agree(s, t),
    ensures
        array_issues(c, s, v, p) == array_issues(c, t, v, p),
{
    assert(is_keyword("prefixItems"@));
    assert(is_keyword("minItems"@));
    assert(is_keyword("maxItems"@));
    assert(is_keyword("uniqueItems"@));
    lemma_prefix(c, s, t, v, p, len_at(s, "prefixItems"@));
    lemma_item(c, s, t, v, p, elements(v).len());
    lemma_contains(c, s, t, v, p);
}

proof fn lemma_object(c: Setting, s: JsonView, t: JsonView, v: JsonView, p: Place)
    requires
        agree(s, t),
    ensures
        object_issues(c, s, v, p) == object_issues(c, t, v, p),
{
    assert(is_keyword("properties"@));
    assert(is_keyword("required"@));
    assert(is_keyword("minProperties"@));
    assert(is_keyword("maxProperties"@));
    assert(is_keyword("dependentRequired"@));
    assert(is_keyword("dependentSchemas"@));
    let n = members(v).len();
    lemma_property(c, s, t, v, p, width_at(s, "properties"@));
    lemma_patterns(c, s, t, v, p, n);
    lemma_additional(c, s, t, v, p, n);
    lemma_name(c, s, t, v, p, n);
    lemma_dependent_schema(c, s, t, v, p, width_at(s, "dependentSchemas"@));
}

proof fn lemma_any(c: Setting, s: JsonView, t: JsonView, v: JsonView, p: Place)
    requires
        agree(s, t),
    ensures
        any_issues(c, s, v, p) == any_issues(c, t, v, p),
{
    assert(is_keyword("anyOf"@));
    lemma_met(c, s, t, "anyOf"@, v, p, len_at(s, "anyOf"@));
}

proof fn lemma_one(c: Setting, s: JsonView, t: JsonView, v: JsonView, p: Place)
    requires
        agree(s, t),
    ensures
        one_issues(c, s, v, p) == one_issues(c, t, v, p),
{
    assert(is_keyword("oneOf"@));
    lemma_met(c, s, t, "oneOf"@, v, p, len_at(s, "oneOf"@));
}

proof fn lemma_not(c: Setting, s: JsonView, t: JsonView, v: JsonView, p: Place)
    requires
        agree(s, t),
    ensures
        not_issues(c, s, v, p) == not_issues(c, t, v, p),
{
    assert(is_keyword("not"@));
    lemma_sub(c, s, t, "not"@, v, p);
}

proof fn lemma_if(c: Setting, s: JsonView, t: JsonView, v: JsonView, p: Place)
    requires
        agree(s, t),
    ensures
        if_issues(c, s, v, p) == if_issues(c, t, v, p),
{
    assert(is_keyword("if"@));
    assert(is_keyword("then"@));
    assert(is_keyword("else"@));
    lemma_sub(c, s, t, "if"@, v, p);
    lemma_sub(c, s, t, "then"@, v, p);
    lemma_sub(c, s, t, "else"@, v, p);
}

proof fn lemma_ref(c: Setting, s: JsonView, t: JsonView, v: JsonView, p: Place)
    requires
        agree(s, t),
    ensures
        ref_issues(c, s, v, p) == ref_issues(c, t, v, p),
{
    assert(is_keyword("$ref"@));
}

proof fn lemma_plain(s: JsonView, t: JsonView, v: JsonView, p: Place)
    requires
        agree(s, t),
    ensures
        type_issues(s, v, p) == type_issues(t, v, p),
        enum_issues(s, v, p) == enum_issues(t, v, p),
        const_issues(s, v, p) == const_issues(t, v, p),
{
    assert(is_keyword("type"@));
    assert(is_keyword("nullable"@));
    assert(is_keyword("enum"@));
    assert(is_keyword("const"@));
    assert(expected_types(s) == expected_types(t));
}

proof fn lemma_string(s: JsonView, t: JsonView, text: Seq<char>, p: Place)
    requires
        agree(s, t),
    ensures
        string_issues(s, text, p) == string_issues(t, text, p),
{
    assert(is_keyword("minLength"@));
    assert(is_keyword("maxLength"@));
    assert(is_keyword("pattern"@));
}

proof fn lemma_number(c: Setting, s: JsonView, t: JsonView, n: NumberView, p: Place)
    requires
        agree(s, t),
    ensures
        number_issues(c, s, n, p) == number_issues(c, t, n, p),
{
    assert(is_keyword("minimum"@));
    assert(is_keyword("maximum"@));
    assert(is_keyword("exclusiveMinimum"@));
    assert(is_keyword("exclusiveMaximum"@));
    assert(is_keyword("multipleOf"@));
}

/// A schema asks the same as another one that has the same keywords that mean something, whatever
/// else the two have.
pub proof fn lemma_unknown_keywords(c: Setting, s: JsonView, t: JsonView, v: JsonView, p: Place)
    requires
        s is Object,
        t is Object,
        agree(s, t),
    ensures
        node_issues(c, s, v, p) == node_issues(c, t, v, p),
{
    assert(is_keyword("allOf"@));
    lemma_plain(s, t, v, p);
    lemma_ref(c, s, t, v, p);
    lemma_all(c, s, t, v, p, len_at(s, "allOf"@));
    lemma_any(c, s, t, v, p);
    lemma_one(c, s, t, v, p);
    lemma_not(c, s, t, v, p);
    lemma_if(c, s, t, v, p);
    match v {
        JsonView::Object(_) => {
            lemma_object(c, s, t, v, p);
        },
        JsonView::List(_) => {
            lemma_array(c, s, t, v, p);
        },
        JsonView::Text(text) => {
            lemma_string(s, t, text, p);
        },
        JsonView::Number(n) => {
            lemma_number(c, s, t, n, p);
        },
        _ => {},
    }
    assert(object_schema_issues(c, s, v, p) == object_schema_issues(c, t, v, p));
}

proof fn lemma_find_pushed(m: Seq<MemberView>, x: MemberView, key: Seq<char>, i: int)
    requires
        0 <= i <= m.len(),
        x.key != key,
    ensures
        find_key(m.push(x), key, i) == find_key(m, key, i),
    decreases m.len() - i,
{
    if i < m.len() {
        assert(m.push(x)[i] == m[i]);
        lemma_find_pushed(m, x, key, i + 1);
    } else {
        assert(m.push(x)[i] == x);
        assert(find_key(m.push(x), key, i + 1) is None);
    }
}

/// A keyword that means nothing may be added to a schema, and it asks the same.
pub proof fn lemma_added_keyword(c: Setting, m: Seq<MemberView>, x: MemberView, v: JsonView, p: Place)
    requires
        !is_keyword(x.key),
    ensures
        node_issues(c, JsonView::Object(m.push(x)), v, p) == node_issues(
            c,
            JsonView::Object(m),
            v,
            p,
        ),
{
    let s = JsonView::Object(m.push(x));
    let t = JsonView::Object(m);
    assert forall|key: Seq<char>| is_keyword(key) implies #[trigger] member(s, key) == member(
        t,
        key,
    ) by {
        lemma_find_pushed(m, x, key, 0);
        lemma_find_key(m, key, 0);
        if let Some(i) = find_key(m, key, 0) {
            assert(m.push(x)[i] == m[i]);
        }
    }
    lemma_unknown_keywords(c, s, t, v, p);
}

} // verus!
