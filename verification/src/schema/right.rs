//! Which schemas are right, keyword by keyword.

use vstd::prelude::*;

use crate::regexes::pattern_error;
use crate::schema::compile::{ignored_keywords, schema_findings};
use crate::schema::json::{
    as_count, elements, is_finite, member, members, order_key, JsonView, MemberView,
};
use crate::schema::meaning::{is_type_name, lemma_type_names};
use crate::schema::pointer::pointed;
use crate::schema::rules::{list_at, object_at};
use crate::schema::shape::{
    all_texts, bad_siblings, below, both, branch_findings, count_error, dependent_error,
    elements_findings, findings, is_chain, map_findings, maps_findings, own_findings,
    pattern_map_findings, patterns_findings, prefix_findings, ref_error, sub_findings,
    subs_findings, type_error, unknown_type, values_findings,
};
use crate::strings::dec;

verus! {

broadcast use vstd::seq::group_seq_axioms;

/// Whether nothing is wrong with a schema.
pub open spec fn is_right(pointer: Seq<char>, s: JsonView, root: JsonView) -> bool {
    findings(pointer, s, root).error is None
}

/// Whether a value is a list of strings.
pub open spec fn is_text_list(v: JsonView) -> bool {
    v matches JsonView::List(l) && forall|i: int| 0 <= i < l.len() ==> (#[trigger] l[i]) is Text
}

/// Whether a value names a type, or is a list of such names.
pub open spec fn names_types(v: JsonView) -> bool {
    match v {
        JsonView::Text(name) => is_type_name(name),
        JsonView::List(l) => forall|i: int|
            0 <= i < l.len() ==> ((#[trigger] l[i]) matches JsonView::Text(name) && is_type_name(name)),
        _ => false,
    }
}

/// Whether a keyword is not there, or a count.
pub open spec fn is_count(s: JsonView, key: Seq<char>) -> bool {
    member(s, key) matches Some(x) ==> (x matches JsonView::Number(n) && as_count(n) is Some)
}

/// Whether a keyword is not there, or a number.
pub open spec fn is_bound(s: JsonView, key: Seq<char>) -> bool {
    member(s, key) matches Some(x) ==> x is Number
}

/// What a schema needs of the keywords that hold no schema.
pub open spec fn is_well_shaped(s: JsonView, root: JsonView) -> bool {
    &&& member(s, "type"@) matches Some(x) ==> names_types(x)
    &&& member(s, "enum"@) matches Some(x) ==> x is List && elements(x).len() > 0
    &&& member(s, "required"@) matches Some(x) ==> is_text_list(x)
    &&& member(s, "uniqueItems"@) matches Some(x) ==> x is Flag
    &&& is_count(s, "minLength"@)
    &&& is_count(s, "maxLength"@)
    &&& is_count(s, "minItems"@)
    &&& is_count(s, "maxItems"@)
    &&& is_count(s, "minProperties"@)
    &&& is_count(s, "maxProperties"@)
    &&& is_count(s, "minContains"@)
    &&& is_count(s, "maxContains"@)
    &&& is_bound(s, "minimum"@)
    &&& is_bound(s, "maximum"@)
    &&& is_bound(s, "exclusiveMinimum"@)
    &&& is_bound(s, "exclusiveMaximum"@)
    &&& member(s, "multipleOf"@) matches Some(x) ==> (x matches JsonView::Number(n) && is_finite(n.bits)
        && order_key(n.bits) > 0)
    &&& member(s, "dependentRequired"@) matches Some(x) ==> x is Object && forall|i: int|
        0 <= i < members(x).len() ==> is_text_list((#[trigger] members(x)[i]).value)
    &&& member(s, "pattern"@) matches Some(x) ==> (x matches JsonView::Text(e) && pattern_error(e) is None)
    &&& member(s, "$ref"@) matches Some(x) ==> (x matches JsonView::Text(r) && r.len() > 0 && r[0] == '#'
        && pointed(root, r.skip(1)) is Some && !is_chain(root, r, 64))
}

/// The pointer of a schema of an object of them.
pub open spec fn value_place(pointer: Seq<char>, key: Seq<char>, name: Seq<char>) -> Seq<char> {
    pointer + "/"@ + key + "/"@ + name
}

/// Whether a keyword is not there, or an object of schemas that are right.
pub open spec fn is_map(pointer: Seq<char>, s: JsonView, key: Seq<char>, root: JsonView) -> bool {
    member(s, key) matches Some(x) ==> x is Object && forall|i: int|
        0 <= i < members(x).len() ==> is_right(
            value_place(pointer, key, (#[trigger] members(x)[i]).key),
            members(x)[i].value,
            root,
        )
}

/// Whether a keyword is not there, or a schema that is right.
pub open spec fn is_sub(pointer: Seq<char>, s: JsonView, key: Seq<char>, root: JsonView) -> bool {
    member(s, key) matches Some(x) ==> is_right(pointer + "/"@ + key, x, root)
}

/// Whether a keyword is not there, or a list of schemas that are right.
pub open spec fn is_list(pointer: Seq<char>, s: JsonView, key: Seq<char>, root: JsonView) -> bool {
    member(s, key) matches Some(x) ==> x is List && forall|i: int|
        0 <= i < elements(x).len() ==> is_right(
            value_place(pointer, key, dec(i as nat)),
            #[trigger] elements(x)[i],
            root,
        )
}

/// What a schema needs of the schemas in it.
pub open spec fn has_right_parts(pointer: Seq<char>, s: JsonView, root: JsonView) -> bool {
    &&& is_map(pointer, s, "properties"@, root)
    &&& is_map(pointer, s, "dependentSchemas"@, root)
    &&& is_map(pointer, s, "$defs"@, root)
    &&& is_map(pointer, s, "definitions"@, root)
    &&& is_map(pointer, s, "patternProperties"@, root)
    &&& member(s, "patternProperties"@) matches Some(x) ==> forall|i: int|
        0 <= i < members(x).len() ==> pattern_error((#[trigger] members(x)[i]).key) is None
    &&& is_sub(pointer, s, "additionalProperties"@, root)
    &&& is_sub(pointer, s, "propertyNames"@, root)
    &&& is_sub(pointer, s, "items"@, root)
    &&& is_sub(pointer, s, "contains"@, root)
    &&& is_sub(pointer, s, "not"@, root)
    &&& is_sub(pointer, s, "if"@, root)
    &&& is_sub(pointer, s, "then"@, root)
    &&& is_sub(pointer, s, "else"@, root)
    &&& is_list(pointer, s, "prefixItems"@, root)
    &&& is_list(pointer, s, "allOf"@, root)
    &&& is_list(pointer, s, "anyOf"@, root)
    &&& is_list(pointer, s, "oneOf"@, root)
    &&& member(s, "allOf"@) matches Some(x) ==> elements(x).len() > 0
    &&& member(s, "anyOf"@) matches Some(x) ==> elements(x).len() > 0
    &&& member(s, "oneOf"@) matches Some(x) ==> elements(x).len() > 0
}

proof fn lemma_places(pointer: Seq<char>, key: Seq<char>, name: Seq<char>)
    ensures
        below(below(pointer, key), name) == value_place(pointer, key, name),
        below(pointer, key) == pointer + "/"@ + key,
{
    assert(below(below(pointer, key), name) =~= value_place(pointer, key, name));
}

proof fn lemma_values(pointer: Seq<char>, s: JsonView, key: Seq<char>, root: JsonView, m: Seq<MemberView>, n: nat)
    requires
        object_at(s, key) == Some(m),
        n <= m.len(),
    ensures
        values_findings(pointer, s, key, root, n).error is None <==> forall|i: int|
            0 <= i < n ==> is_right(value_place(pointer, key, (#[trigger] m[i]).key), m[i].value, root),
    decreases n,
{
    if n > 0 {
        lemma_values(pointer, s, key, root, m, (n - 1) as nat);
        lemma_places(pointer, key, m[n - 1].key);
        if forall|i: int|
            0 <= i < n ==> is_right(value_place(pointer, key, (#[trigger] m[i]).key), m[i].value, root) {
            assert(is_right(value_place(pointer, key, m[n - 1].key), m[n - 1].value, root));
        }
    }
}

proof fn lemma_patterns(pointer: Seq<char>, s: JsonView, root: JsonView, m: Seq<MemberView>, n: nat)
    requires
        object_at(s, "patternProperties"@) == Some(m),
        n <= m.len(),
    ensures
        patterns_findings(pointer, s, root, n).error is None <==> {
            &&& forall|i: int|
                0 <= i < n ==> is_right(
                    value_place(pointer, "patternProperties"@, (#[trigger] m[i]).key),
                    m[i].value,
                    root,
                )
            &&& forall|i: int| 0 <= i < n ==> pattern_error((#[trigger] m[i]).key) is None
        },
    decreases n,
{
    if n > 0 {
        lemma_patterns(pointer, s, root, m, (n - 1) as nat);
        lemma_places(pointer, "patternProperties"@, m[n - 1].key);
        let x = m[n - 1];
    }
}

proof fn lemma_elements(pointer: Seq<char>, s: JsonView, key: Seq<char>, root: JsonView, l: Seq<JsonView>, n: nat)
    requires
        list_at(s, key) == Some(l),
        n <= l.len(),
    ensures
        elements_findings(pointer, s, key, root, n).error is None <==> forall|i: int|
            0 <= i < n ==> is_right(value_place(pointer, key, dec(i as nat)), #[trigger] l[i], root),
    decreases n,
{
    if n > 0 {
        lemma_elements(pointer, s, key, root, l, (n - 1) as nat);
        lemma_places(pointer, key, dec((n - 1) as nat));
        if forall|i: int|
            0 <= i < n ==> is_right(value_place(pointer, key, dec(i as nat)), #[trigger] l[i], root) {
            assert(is_right(value_place(pointer, key, dec((n - 1) as nat)), l[n - 1], root));
        }
    }
}

proof fn lemma_map(pointer: Seq<char>, s: JsonView, key: Seq<char>, root: JsonView)
    ensures
        map_findings(pointer, s, key, root).error is None <==> is_map(pointer, s, key, root),
{
    if let Some(m) = object_at(s, key) {
        lemma_values(pointer, s, key, root, m, m.len());
        assert(members(JsonView::Object(m)) == m);
    }
}

proof fn lemma_pattern_map(pointer: Seq<char>, s: JsonView, root: JsonView)
    ensures
        pattern_map_findings(pointer, s, root).error is None <==> {
            &&& is_map(pointer, s, "patternProperties"@, root)
            &&& member(s, "patternProperties"@) matches Some(x) ==> forall|i: int|
                0 <= i < members(x).len() ==> pattern_error((#[trigger] members(x)[i]).key) is None
        },
{
    if let Some(m) = object_at(s, "patternProperties"@) {
        lemma_patterns(pointer, s, root, m, m.len());
        assert(members(JsonView::Object(m)) == m);
    }
}

proof fn lemma_branch(pointer: Seq<char>, s: JsonView, key: Seq<char>, root: JsonView)
    ensures
        branch_findings(pointer, s, key, root).error is None <==> {
            &&& is_list(pointer, s, key, root)
            &&& member(s, key) matches Some(x) ==> elements(x).len() > 0
        },
        key == "prefixItems"@ ==> (prefix_findings(pointer, s, root).error is None <==> is_list(
            pointer,
            s,
            key,
            root,
        )),
{
    if let Some(l) = list_at(s, key) {
        lemma_elements(pointer, s, key, root, l, l.len());
        assert(elements(JsonView::List(l)) == l);
    }
}

proof fn lemma_sub(pointer: Seq<char>, s: JsonView, key: Seq<char>, root: JsonView)
    ensures
        sub_findings(pointer, s, key, root).error is None <==> is_sub(pointer, s, key, root),
{
    lemma_places(pointer, key, Seq::empty());
}

proof fn lemma_unknown_type(l: Seq<JsonView>, n: nat)
    requires
        n <= l.len(),
        all_texts(l),
    ensures
        unknown_type(l, n) is None <==> forall|i: int|
            0 <= i < n ==> ((#[trigger] l[i]) matches JsonView::Text(name) && is_type_name(name)),
    decreases n,
{
    if n > 0 {
        lemma_unknown_type(l, (n - 1) as nat);
        assert(l[n - 1] is Text);
        lemma_type_names(l[n - 1]->Text_0, JsonView::Null);
        if forall|i: int|
            0 <= i < n ==> ((#[trigger] l[i]) matches JsonView::Text(name) && is_type_name(name)) {
            assert(l[n - 1] matches JsonView::Text(name) && is_type_name(name));
        }
    }
}

proof fn lemma_type_right(s: JsonView, pointer: Seq<char>)
    ensures
        type_error(s, pointer) is None <==> (member(s, "type"@) matches Some(x) ==> names_types(x)),
{
    match member(s, "type"@) {
        Some(JsonView::Text(name)) => {
            lemma_type_names(name, JsonView::Null);
        },
        Some(JsonView::List(l)) => {
            if all_texts(l) {
                lemma_unknown_type(l, l.len());
            } else {
                let i = choose|i: int| 0 <= i < l.len() && !((#[trigger] l[i]) is Text);
                assert(!(l[i] is Text));
            }
        },
        _ => {},
    }
}

proof fn lemma_siblings(m: Seq<MemberView>, n: nat)
    requires
        n <= m.len(),
    ensures
        bad_siblings(m, n) is None <==> forall|i: int|
            0 <= i < n ==> is_text_list((#[trigger] m[i]).value),
    decreases n,
{
    if n > 0 {
        lemma_siblings(m, (n - 1) as nat);
        if forall|i: int| 0 <= i < n ==> is_text_list((#[trigger] m[i]).value) {
            assert(is_text_list(m[n - 1].value));
        }
    }
}

proof fn lemma_shape(s: JsonView, root: JsonView, pointer: Seq<char>)
    ensures
        own_findings(s, root, pointer).error is None <==> is_well_shaped(s, root),
{
    lemma_type_right(s, pointer);
    if let Some(m) = object_at(s, "dependentRequired"@) {
        lemma_siblings(m, m.len());
        assert(members(JsonView::Object(m)) == m);
    }
    assert(dependent_error(s, pointer) is None <==> (member(s, "dependentRequired"@) matches Some(x) ==> x
        is Object && forall|i: int|
        0 <= i < members(x).len() ==> is_text_list((#[trigger] members(x)[i]).value)));
    assert(count_error(s, "minLength"@, pointer) is None <==> is_count(s, "minLength"@));
    assert(count_error(s, "maxLength"@, pointer) is None <==> is_count(s, "maxLength"@));
    assert(count_error(s, "minItems"@, pointer) is None <==> is_count(s, "minItems"@));
    assert(count_error(s, "maxItems"@, pointer) is None <==> is_count(s, "maxItems"@));
    assert(count_error(s, "minProperties"@, pointer) is None <==> is_count(s, "minProperties"@));
    assert(count_error(s, "maxProperties"@, pointer) is None <==> is_count(s, "maxProperties"@));
    assert(count_error(s, "minContains"@, pointer) is None <==> is_count(s, "minContains"@));
    assert(count_error(s, "maxContains"@, pointer) is None <==> is_count(s, "maxContains"@));
    assert(ref_error(s, root, pointer) is None <==> (member(s, "$ref"@) matches Some(x) ==> (
    x matches JsonView::Text(r) && r.len() > 0 && r[0] == '#' && pointed(root, r.skip(1)) is Some
        && !is_chain(root, r, 64))));
}

/// A schema is right just where it is `true` or `false`, or an object in which each keyword has a value
/// that it can have and each schema is right.
pub proof fn lemma_right_in_each_part(pointer: Seq<char>, s: JsonView, root: JsonView)
    ensures
        is_right(pointer, s, root) <==> match s {
            JsonView::Flag(_) => true,
            JsonView::Object(_) => is_well_shaped(s, root) && has_right_parts(pointer, s, root),
            _ => false,
        },
{
    lemma_shape(s, root, pointer);
    lemma_map(pointer, s, "properties"@, root);
    lemma_map(pointer, s, "dependentSchemas"@, root);
    lemma_map(pointer, s, "$defs"@, root);
    lemma_map(pointer, s, "definitions"@, root);
    lemma_pattern_map(pointer, s, root);
    lemma_sub(pointer, s, "additionalProperties"@, root);
    lemma_sub(pointer, s, "propertyNames"@, root);
    lemma_sub(pointer, s, "items"@, root);
    lemma_sub(pointer, s, "contains"@, root);
    lemma_sub(pointer, s, "not"@, root);
    lemma_sub(pointer, s, "if"@, root);
    lemma_sub(pointer, s, "then"@, root);
    lemma_sub(pointer, s, "else"@, root);
    lemma_branch(pointer, s, "prefixItems"@, root);
    lemma_branch(pointer, s, "allOf"@, root);
    lemma_branch(pointer, s, "anyOf"@, root);
    lemma_branch(pointer, s, "oneOf"@, root);
    if s is Object {
        let own = own_findings(s, root, pointer);
        let maps = maps_findings(pointer, s, root);
        let subs = subs_findings(pointer, s, root);
        assert(findings(pointer, s, root) == both(own, both(maps, subs)));
    }
}

/// Keywords that have no effect are named where they stand in a schema.
pub proof fn lemma_ignored_keywords_are_named(schema: JsonView)
    requires
        schema is Object,
        schema_findings(schema).error is None,
    ensures
        member(schema, "unevaluatedProperties"@) is Some ==> ignored_keywords(
            schema_findings(schema),
        ).contains("unevaluatedProperties"@),
        member(schema, "unevaluatedItems"@) is Some ==> ignored_keywords(
            schema_findings(schema),
        ).contains("unevaluatedItems"@),
{
    let own = own_findings(schema, schema, Seq::empty());
    let maps = maps_findings(Seq::empty(), schema, schema);
    let subs = subs_findings(Seq::empty(), schema, schema);
    let f = schema_findings(schema);
    assert(f == both(own, both(maps, subs)));
    let l = ignored_keywords(f);
    if f.items {
        assert(l[0] == "unevaluatedItems"@);
    }
    if f.properties {
        assert(l[l.len() - 1] == "unevaluatedProperties"@);
    }
}

} // verus!
