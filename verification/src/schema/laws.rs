//! What holds of schemas that compile, of the cache and of what is shown of arguments.

use std::sync::Arc;

use vstd::prelude::*;

use crate::regexes::pattern_error;
use crate::digest::{mixed, text_digest};
use crate::schema::cache::{digest, is_cached, sum_digest};
use crate::schema::compile::CompiledSchema;
use crate::schema::json::{
    elements, find_key, lookup, member, members, same_json, JsonView, MemberView,
};
use crate::schema::render::{cut, MAX_TRUNCATE_DEPTH};
use crate::schema::rules::{
    count_at, list_at, node_issues, object_at, ref_target, text_at, Place, Setting,
};
use crate::schema::shape::{
    below, branch_findings, count_error, elements_findings, findings, map_findings, maps_findings,
    pattern_map_findings, patterns_findings, prefix_findings, shape_error, single_findings,
    sub_findings, subs_findings, values_findings,
};
use crate::strings::dec;

verus! {

broadcast use vstd::seq::group_seq_axioms;

// Compiled schemas

/// The keywords that are objects of schemas.
pub open spec fn holds_map(key: Seq<char>) -> bool {
    ||| key == "properties"@
    ||| key == "dependentSchemas"@
    ||| key == "$defs"@
    ||| key == "definitions"@
    ||| key == "patternProperties"@
}

/// The keywords that are schemas.
pub open spec fn holds_schema(key: Seq<char>) -> bool {
    ||| key == "additionalProperties"@
    ||| key == "propertyNames"@
    ||| key == "items"@
    ||| key == "contains"@
    ||| key == "not"@
    ||| key == "if"@
    ||| key == "then"@
    ||| key == "else"@
}

/// The keywords that are lists of schemas.
pub open spec fn holds_list(key: Seq<char>) -> bool {
    ||| key == "prefixItems"@
    ||| key == "allOf"@
    ||| key == "anyOf"@
    ||| key == "oneOf"@
}

/// Whether `t` is the `i`th schema of a keyword of `s`.
pub open spec fn is_part(s: JsonView, t: JsonView, key: Seq<char>, i: int) -> bool {
    ||| holds_map(key) && (object_at(s, key) matches Some(m) && 0 <= i < m.len() && m[i].value == t)
    ||| holds_schema(key) && member(s, key) == Some(t)
    ||| holds_list(key) && (list_at(s, key) matches Some(l) && 0 <= i < l.len() && l[i] == t)
}

proof fn lemma_values_right(
    pointer: Seq<char>,
    s: JsonView,
    key: Seq<char>,
    root: JsonView,
    n: nat,
    i: int,
)
    requires
        values_findings(pointer, s, key, root, n).error is None,
        object_at(s, key) matches Some(m) && 0 <= i < n <= m.len(),
    ensures
        object_at(s, key) matches Some(m) && findings(
            below(below(pointer, key), m[i].key),
            m[i].value,
            root,
        ).error is None,
    decreases n,
{
    if i < n - 1 {
        lemma_values_right(pointer, s, key, root, (n - 1) as nat, i);
    }
}

proof fn lemma_patterns_right(pointer: Seq<char>, s: JsonView, root: JsonView, n: nat, i: int)
    requires
        patterns_findings(pointer, s, root, n).error is None,
        object_at(s, "patternProperties"@) matches Some(m) && 0 <= i < n <= m.len(),
    ensures
        object_at(s, "patternProperties"@) matches Some(m) && pattern_error(m[i].key) is None
            && findings(
            below(below(pointer, "patternProperties"@), m[i].key),
            m[i].value,
            root,
        ).error is None,
    decreases n,
{
    if i < n - 1 {
        lemma_patterns_right(pointer, s, root, (n - 1) as nat, i);
    }
}

proof fn lemma_elements_right(
    pointer: Seq<char>,
    s: JsonView,
    key: Seq<char>,
    root: JsonView,
    n: nat,
    i: int,
)
    requires
        elements_findings(pointer, s, key, root, n).error is None,
        list_at(s, key) matches Some(l) && 0 <= i < n <= l.len(),
    ensures
        list_at(s, key) matches Some(l) && findings(
            below(below(pointer, key), dec(i as nat)),
            l[i],
            root,
        ).error is None,
    decreases n,
{
    if i < n - 1 {
        lemma_elements_right(pointer, s, key, root, (n - 1) as nat, i);
    }
}

/// Where no error is found in a schema, every regular expression of it is one that the engine
/// accepts, so that none of them goes unchecked, and its reference points to something.
pub proof fn lemma_nothing_unchecked(pointer: Seq<char>, s: JsonView, root: JsonView)
    requires
        findings(pointer, s, root).error is None,
        s is Object,
    ensures
        text_at(s, "pattern"@) matches Some(x) ==> pattern_error(x) is None,
        object_at(s, "patternProperties"@) matches Some(m) ==> forall|i: int|
            0 <= i < m.len() ==> pattern_error((#[trigger] m[i]).key) is None,
        text_at(s, "$ref"@) matches Some(x) ==> ref_target(root, x) is Some,
{
    if let Some(m) = object_at(s, "patternProperties"@) {
        assert(maps_findings(pointer, s, root).error is None);
        assert(pattern_map_findings(pointer, s, root).error is None);
        assert forall|i: int| 0 <= i < m.len() implies pattern_error((#[trigger] m[i]).key) is None by {
            lemma_patterns_right(pointer, s, root, m.len(), i);
        }
    }
}

/// The keywords that are counts.
pub open spec fn holds_count(key: Seq<char>) -> bool {
    ||| key == "minLength"@
    ||| key == "maxLength"@
    ||| key == "minItems"@
    ||| key == "maxItems"@
    ||| key == "minProperties"@
    ||| key == "maxProperties"@
    ||| key == "minContains"@
    ||| key == "maxContains"@
}

/// Where no error is found in a schema, each count that it has is read, however it was written, so
/// that none of them goes unchecked.
pub proof fn lemma_no_count_unread(pointer: Seq<char>, s: JsonView, root: JsonView, key: Seq<char>)
    requires
        findings(pointer, s, root).error is None,
        s is Object,
        holds_count(key),
        member(s, key) is Some,
    ensures
        count_at(s, key) is Some,
{
    assert(shape_error(s, pointer) is None);
    assert(count_error(s, key, pointer) is None);
}

/// Where no error is found in a schema, none is found in any schema that it holds.
pub proof fn lemma_parts_right(
    pointer: Seq<char>,
    s: JsonView,
    root: JsonView,
    t: JsonView,
    key: Seq<char>,
    i: int,
) -> (q: Seq<char>)
    requires
        findings(pointer, s, root).error is None,
        s is Object,
        is_part(s, t, key, i),
    ensures
        findings(q, t, root).error is None,
{
    assert(maps_findings(pointer, s, root).error is None);
    assert(subs_findings(pointer, s, root).error is None);
    if holds_map(key) && (object_at(s, key) matches Some(m) && 0 <= i < m.len() && m[i].value == t) {
        let m = object_at(s, key)->Some_0;
        if key == "patternProperties"@ {
            assert(pattern_map_findings(pointer, s, root).error is None);
            lemma_patterns_right(pointer, s, root, m.len(), i);
        } else {
            assert(map_findings(pointer, s, key, root).error is None);
            lemma_values_right(pointer, s, key, root, m.len(), i);
        }
        below(below(pointer, key), m[i].key)
    } else if holds_schema(key) && member(s, key) == Some(t) {
        assert(single_findings(pointer, s, root).error is None);
        assert(sub_findings(pointer, s, key, root).error is None);
        below(pointer, key)
    } else {
        let l = list_at(s, key)->Some_0;
        if key == "prefixItems"@ {
            assert(prefix_findings(pointer, s, root).error is None);
        } else {
            assert(branch_findings(pointer, s, key, root).error is None);
        }
        lemma_elements_right(pointer, s, key, root, l.len(), i);
        below(below(pointer, key), dec(i as nat))
    }
}

/// A schema that is `true` asks nothing, and no value meets one that is `false`.
pub proof fn lemma_boolean_schemas(c: Setting, v: JsonView, p: Place)
    ensures
        node_issues(c, JsonView::Flag(true), v, p).len() == 0,
        node_issues(c, JsonView::Flag(false), v, p).len() == 1,
{
}

// The cache

/// Whether no object in a value has a key twice.
pub open spec fn has_distinct_keys(v: JsonView) -> bool
    decreases v,
{
    match v {
        JsonView::List(l) => forall|i: int|
            0 <= i < l.len() ==> has_distinct_keys(#[trigger] l[i]),
        JsonView::Object(m) => {
            &&& are_distinct(m)
            &&& forall|i: int| 0 <= i < m.len() ==> has_distinct_keys((#[trigger] m[i]).value)
        },
        _ => true,
    }
}

/// Whether no two members have the same key.
pub open spec fn are_distinct(m: Seq<MemberView>) -> bool {
    forall|i: int, j: int|
        0 <= i < j < m.len() ==> (#[trigger] m[i]).key != (#[trigger] m[j]).key
}

proof fn lemma_find_distinct(m: Seq<MemberView>, i: int, from: int)
    requires
        are_distinct(m),
        0 <= from <= i < m.len(),
    ensures
        find_key(m, m[i].key, from) == Some(i),
    decreases i - from,
{
    if from < i {
        assert(m[from].key != m[i].key);
        lemma_find_distinct(m, i, from + 1);
    }
}

/// A value is the same as itself.
pub proof fn lemma_same_as_itself(v: JsonView)
    requires
        has_distinct_keys(v),
    ensures
        same_json(v, v),
    decreases v,
{
    match v {
        JsonView::List(l) => {
            assert forall|i: int| 0 <= i < l.len() implies same_json(#[trigger] l[i], l[i]) by {
                lemma_same_as_itself(l[i]);
            }
        },
        JsonView::Object(m) => {
            assert forall|i: int| 0 <= i < m.len() implies match lookup(
                m,
                (#[trigger] m[i]).key,
            ) {
                Some(w) => same_json(m[i].value, w),
                None => false,
            } by {
                lemma_find_distinct(m, i, 0);
                lemma_same_as_itself(m[i].value);
            }
        },
        _ => {},
    }
}

/// A schema that was compiled and kept is found again.
pub proof fn lemma_kept(
    m: Map<u64, Arc<CompiledSchema>>,
    schema: JsonView,
    compiled: Arc<CompiledSchema>,
)
    requires
        has_distinct_keys(schema),
        compiled.schema() == schema,
    ensures
        is_cached(m.insert(digest(schema), compiled), schema),
{
    lemma_same_as_itself(schema);
}

/// The digest of one member.
#[verifier::opaque]
pub open spec fn member_digest(m: MemberView) -> u64 {
    mixed(text_digest(m.key), digest(m.value))
}

/// The sum of the digests of members.
pub open spec fn total(m: Seq<MemberView>) -> int
    decreases m.len(),
{
    if m.len() == 0 {
        0
    } else {
        total(m.drop_last()) + member_digest(m.last())
    }
}

proof fn lemma_add_wraps(sum: u64, d: u64, a: int)
    requires
        sum as int == a % 0x1_0000_0000_0000_0000,
    ensures
        sum.wrapping_add(d) as int == (a + d) % 0x1_0000_0000_0000_0000,
{
}

proof fn lemma_sum_step(m: Seq<MemberView>, n: nat)
    requires
        0 < n <= m.len(),
    ensures
        sum_digest(JsonView::Object(m), n) == sum_digest(
            JsonView::Object(m),
            (n - 1) as nat,
        ).wrapping_add(member_digest(m[n - 1])),
{
    reveal(member_digest);
}

proof fn lemma_sum_is_total(m: Seq<MemberView>, n: nat)
    requires
        n <= m.len(),
    ensures
        sum_digest(JsonView::Object(m), n) as int == total(m.take(n as int)) % 0x1_0000_0000_0000_0000,
    decreases n,
{
    if n > 0 {
        lemma_sum_is_total(m, (n - 1) as nat);
        assert(m.take(n as int).drop_last() =~= m.take(n - 1));
        lemma_sum_step(m, n);
        lemma_add_wraps(
            sum_digest(JsonView::Object(m), (n - 1) as nat),
            member_digest(m[n - 1]),
            total(m.take(n - 1)),
        );
    } else {
        assert(total(m.take(0)) == 0);
    }
}

proof fn lemma_total_without(m: Seq<MemberView>, i: int)
    requires
        0 <= i < m.len(),
    ensures
        total(m) == total(m.remove(i)) + member_digest(m[i]),
    decreases m.len(),
{
    if i == m.len() - 1 {
        assert(m.remove(i) =~= m.drop_last());
    } else {
        lemma_total_without(m.drop_last(), i);
        assert(m.remove(i).drop_last() =~= m.drop_last().remove(i));
        assert(m.remove(i).last() == m.last());
    }
}

proof fn lemma_total_order(a: Seq<MemberView>, b: Seq<MemberView>)
    requires
        a.to_multiset() == b.to_multiset(),
    ensures
        a.len() == b.len(),
        total(a) == total(b),
    decreases a.len(),
{
    broadcast use vstd::seq_lib::group_to_multiset_ensures;

    assert(a.len() == a.to_multiset().len());
    assert(b.len() == b.to_multiset().len());
    if a.len() > 0 {
        let x = a.last();
        assert(a.contains(x)) by {
            assert(a[a.len() - 1] == x);
        }
        assert(b.to_multiset().count(x) > 0);
        assert(b.contains(x));
        let j = choose|j: int| 0 <= j < b.len() && b[j] == x;
        assert(a.remove(a.len() - 1).to_multiset() =~= a.to_multiset().remove(x));
        assert(b.remove(j).to_multiset() =~= b.to_multiset().remove(x));
        lemma_total_order(a.remove(a.len() - 1), b.remove(j));
        lemma_total_without(a, a.len() - 1);
        lemma_total_without(b, j);
    }
}

/// The order in which an object's members stand does not change its digest.
pub proof fn lemma_digest_ignores_order(a: Seq<MemberView>, b: Seq<MemberView>)
    requires
        a.to_multiset() == b.to_multiset(),
    ensures
        digest(JsonView::Object(a)) == digest(JsonView::Object(b)),
{
    lemma_total_order(a, b);
    lemma_sum_is_total(a, a.len());
    lemma_sum_is_total(b, b.len());
    assert(a.take(a.len() as int) =~= a);
    assert(b.take(b.len() as int) =~= b);
}

// What is shown of arguments

/// Whether a value is nested no deeper than `k` levels.
pub open spec fn is_within(v: JsonView, k: int) -> bool
    decreases v,
{
    match v {
        JsonView::List(l) => k > 0 && forall|i: int|
            0 <= i < l.len() ==> is_within(#[trigger] l[i], k - 1),
        JsonView::Object(m) => k > 0 && forall|i: int|
            0 <= i < m.len() ==> is_within((#[trigger] m[i]).value, k - 1),
        _ => true,
    }
}

/// What is shown of arguments is never nested deeper than the limit.
pub proof fn lemma_cut_is_within(v: JsonView, depth: nat)
    requires
        depth <= MAX_TRUNCATE_DEPTH,
    ensures
        is_within(cut(v, depth), MAX_TRUNCATE_DEPTH - depth),
    decreases v,
{
    if depth < MAX_TRUNCATE_DEPTH {
        match v {
            JsonView::List(l) => {
                let r = elements(cut(v, depth));
                assert forall|i: int| 0 <= i < r.len() implies is_within(
                    #[trigger] r[i],
                    MAX_TRUNCATE_DEPTH - depth - 1,
                ) by {
                    lemma_cut_is_within(l[i], depth + 1);
                }
            },
            JsonView::Object(m) => {
                let r = members(cut(v, depth));
                assert forall|i: int| 0 <= i < r.len() implies is_within(
                    (#[trigger] r[i]).value,
                    MAX_TRUNCATE_DEPTH - depth - 1,
                ) by {
                    lemma_cut_is_within(m[i].value, depth + 1);
                }
            },
            _ => {},
        }
    }
}

} // verus!
