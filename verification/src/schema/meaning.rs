//! What it means that a value meets a schema, keyword by keyword.

use vstd::prelude::*;
use vstd::seq_lib::lemma_seq_concat_contains_all_elements;

use crate::regexes::{found, pattern_error, pattern_matches};
use crate::schema::error::{IssueView, JsonType, SegmentView};
use crate::schema::json::{
    as_count, elements, find_key, is_finite, is_whole, member, members, order_key, same_json,
    JsonView, MemberView, NumberView,
};
use crate::schema::pointer::pointed;
use crate::schema::rules::{
    additional_issues, all_issues, any_issues, array_issues, containing, contains_issues,
    dependent_issues, dependent_schema_issues, expected_types, extra_issues, has_type, if_issues,
    inner, is_covered, item_issues, least_issues, len_at, list_at, met, most_issues, name_issues,
    node_issues, not_issues, number_issues, object_at, object_issues, object_schema_issues,
    one_issues, pattern_issues, patterns_issues, prefix_issues, property_issues, ref_issues,
    required_issues, sibling_issues, some_pattern, string_issues, sub_issues, type_issues,
    type_list, type_named, type_of_value, types_in, width_at, Place, Setting,
};

verus! {

broadcast use vstd::seq::group_seq_axioms;

// Places

/// Whether nothing is said against a value.
pub open spec fn accepts(c: Setting, s: JsonView, v: JsonView, p: Place) -> bool {
    node_issues(c, s, v, p).len() == 0
}

/// The place of a member.
pub open spec fn at_key(p: Place, key: Seq<char>) -> Place {
    Place { path: p.path.push(SegmentView::Key(key)), refs: Seq::empty(), depth: p.depth }
}

/// The place of an element.
pub open spec fn at_index(p: Place, i: int) -> Place {
    Place { path: p.path.push(SegmentView::Index(i as nat)), refs: Seq::empty(), depth: p.depth }
}

/// Whether all that some issues say is said.
pub open spec fn tells(whole: Seq<IssueView>, part: Seq<IssueView>) -> bool {
    forall|x: IssueView| part.contains(x) ==> #[trigger] whole.contains(x)
}

proof fn lemma_tells_concat(a: Seq<IssueView>, b: Seq<IssueView>)
    ensures
        tells(a + b, a),
        tells(a + b, b),
{
    broadcast use lemma_seq_concat_contains_all_elements;

}

/// Whether an object has a key.
pub open spec fn has_key(v: JsonView, key: Seq<char>) -> bool {
    exists|i: int| 0 <= i < members(v).len() && (#[trigger] members(v)[i]).key == key
}

proof fn lemma_find_first(m: Seq<MemberView>, key: Seq<char>, i: int)
    requires
        0 <= i,
    ensures
        match find_key(m, key, i) {
            Some(k) => i <= k < m.len() && m[k].key == key && forall|j: int|
                i <= j < k ==> (#[trigger] m[j]).key != key,
            None => forall|j: int| i <= j < m.len() ==> (#[trigger] m[j]).key != key,
        },
    decreases m.len() - i,
{
    if i < m.len() && m[i].key != key {
        lemma_find_first(m, key, i + 1);
    }
}

/// The value of a key is that of the first member that has it, and there is one just where a member
/// has it.
pub proof fn lemma_member_is_the_first(v: JsonView, key: Seq<char>)
    ensures
        member(v, key) is Some <==> has_key(v, key),
        forall|i: int|
            0 <= i < members(v).len() && (#[trigger] members(v)[i]).key == key && (forall|j: int|
                0 <= j < i ==> (#[trigger] members(v)[j]).key != key) ==> member(v, key) == Some(
                members(v)[i].value,
            ),
{
    lemma_find_first(members(v), key, 0);
}

// Lists of schemas and of names

proof fn lemma_all_of(c: Setting, s: JsonView, v: JsonView, p: Place, l: Seq<JsonView>, n: nat)
    requires
        list_at(s, "allOf"@) == Some(l),
        n <= l.len(),
    ensures
        all_issues(c, s, v, p, n).len() == 0 <==> forall|i: int|
            0 <= i < n ==> accepts(c, #[trigger] l[i], v, p),
        forall|i: int|
            0 <= i < n ==> tells(all_issues(c, s, v, p, n), node_issues(c, #[trigger] l[i], v, p)),
    decreases n,
{
    if n > 0 {
        lemma_all_of(c, s, v, p, l, (n - 1) as nat);
        let a = all_issues(c, s, v, p, (n - 1) as nat);
        let b = node_issues(c, l[n - 1], v, p);
        lemma_tells_concat(a, b);
        assert(all_issues(c, s, v, p, n) == a + b);
        assert forall|i: int| 0 <= i < n implies tells(
            all_issues(c, s, v, p, n),
            node_issues(c, #[trigger] l[i], v, p),
        ) by {
            if i < n - 1 {
                assert(tells(a, node_issues(c, l[i], v, p)));
            }
        }
        if all_issues(c, s, v, p, n).len() == 0 {
            assert forall|i: int| 0 <= i < n implies accepts(c, #[trigger] l[i], v, p) by {
                if i == n - 1 {
                    assert(b.len() == 0);
                }
            }
        } else if forall|i: int| 0 <= i < n ==> accepts(c, #[trigger] l[i], v, p) {
            assert(accepts(c, l[n - 1], v, p));
            assert(b.len() == 0);
        }
    }
}

proof fn lemma_prefix(c: Setting, s: JsonView, v: JsonView, p: Place, l: Seq<JsonView>, n: nat)
    requires
        list_at(s, "prefixItems"@) == Some(l),
        n <= l.len(),
    ensures
        prefix_issues(c, s, v, p, n).len() == 0 <==> forall|i: int|
            0 <= i < n ==> (
                i < elements(v).len() ==> accepts(
                    c,
                    #[trigger] l[i],
                    elements(v)[i],
                    at_index(p, i),
                )
            ),
        forall|i: int|
            0 <= i < n ==> tells(
                prefix_issues(c, s, v, p, n),
                (
                    if i < elements(v).len() {
                        node_issues(c, #[trigger] l[i], elements(v)[i], at_index(p, i))
                    } else {
                        Seq::empty()
                    }
                ),
            ),
    decreases n,
{
    if n > 0 {
        lemma_prefix(c, s, v, p, l, (n - 1) as nat);
        let a = prefix_issues(c, s, v, p, (n - 1) as nat);
        let b = (
            if n - 1 < elements(v).len() {
                node_issues(c, l[n - 1], elements(v)[n - 1], at_index(p, n - 1))
            } else {
                Seq::empty()
            }
        );
        lemma_tells_concat(a, b);
        assert(prefix_issues(c, s, v, p, n) == a + b);
        assert forall|i: int| 0 <= i < n implies tells(
            prefix_issues(c, s, v, p, n),
            (
                if i < elements(v).len() {
                    node_issues(c, #[trigger] l[i], elements(v)[i], at_index(p, i))
                } else {
                    Seq::empty()
                }
            ),
        ) by {
            if i < n - 1 {
                assert(
                    tells(
                        a,
                        (
                            if i < elements(v).len() {
                                node_issues(c, l[i], elements(v)[i], at_index(p, i))
                            } else {
                                Seq::empty()
                            }
                        ),
                    )
                );
            }
        }
        if prefix_issues(c, s, v, p, n).len() == 0 {
            assert forall|i: int| 0 <= i < n implies (
                i < elements(v).len() ==> accepts(
                    c,
                    #[trigger] l[i],
                    elements(v)[i],
                    at_index(p, i),
                )
            ) by {
                if i == n - 1 {
                    assert(b.len() == 0);
                }
            }
        } else if forall|i: int| 0 <= i < n ==> (
            i < elements(v).len() ==> accepts(c, #[trigger] l[i], elements(v)[i], at_index(p, i))
        ) {
            assert(
                (
                    n - 1 < elements(v).len() ==> accepts(
                        c,
                        l[n - 1],
                        elements(v)[n - 1],
                        at_index(p, n - 1),
                    )
                )
            );
            assert(b.len() == 0);
        }
    }
}

proof fn lemma_properties(
    c: Setting,
    s: JsonView,
    v: JsonView,
    p: Place,
    m: Seq<MemberView>,
    n: nat,
)
    requires
        object_at(s, "properties"@) == Some(m),
        n <= m.len(),
    ensures
        property_issues(c, s, v, p, n).len() == 0 <==> forall|i: int|
            0 <= i < n ==> (
                member(v, (#[trigger] m[i]).key) matches Some(x) ==> accepts(
                    c,
                    m[i].value,
                    x,
                    at_key(p, m[i].key),
                )
            ),
        forall|i: int|
            0 <= i < n ==> tells(
                property_issues(c, s, v, p, n),
                (
                    match member(v, (#[trigger] m[i]).key) {
                        Some(x) => node_issues(c, m[i].value, x, at_key(p, m[i].key)),
                        None => Seq::empty(),
                    }
                ),
            ),
    decreases n,
{
    if n > 0 {
        lemma_properties(c, s, v, p, m, (n - 1) as nat);
        let a = property_issues(c, s, v, p, (n - 1) as nat);
        let b = (
            match member(v, m[n - 1].key) {
                Some(x) => node_issues(c, m[n - 1].value, x, at_key(p, m[n - 1].key)),
                None => Seq::empty(),
            }
        );
        lemma_tells_concat(a, b);
        assert(property_issues(c, s, v, p, n) == a + b);
        assert forall|i: int| 0 <= i < n implies tells(
            property_issues(c, s, v, p, n),
            (
                match member(v, (#[trigger] m[i]).key) {
                    Some(x) => node_issues(c, m[i].value, x, at_key(p, m[i].key)),
                    None => Seq::empty(),
                }
            ),
        ) by {
            if i < n - 1 {
                assert(
                    tells(
                        a,
                        (
                            match member(v, m[i].key) {
                                Some(x) => node_issues(c, m[i].value, x, at_key(p, m[i].key)),
                                None => Seq::empty(),
                            }
                        ),
                    )
                );
            }
        }
        if property_issues(c, s, v, p, n).len() == 0 {
            assert forall|i: int| 0 <= i < n implies (
                member(v, (#[trigger] m[i]).key) matches Some(x) ==> accepts(
                    c,
                    m[i].value,
                    x,
                    at_key(p, m[i].key),
                )
            ) by {
                if i == n - 1 {
                    assert(b.len() == 0);
                }
            }
        } else if forall|i: int| 0 <= i < n ==> (
            member(v, (#[trigger] m[i]).key) matches Some(x) ==> accepts(
                c,
                m[i].value,
                x,
                at_key(p, m[i].key),
            )
        ) {
            assert(
                (
                    member(v, m[n - 1].key) matches Some(x) ==> accepts(
                        c,
                        m[n - 1].value,
                        x,
                        at_key(p, m[n - 1].key),
                    )
                )
            );
            assert(b.len() == 0);
        }
    }
}

proof fn lemma_pattern(
    c: Setting,
    s: JsonView,
    name: Seq<char>,
    x: JsonView,
    p: Place,
    m: Seq<MemberView>,
    n: nat,
)
    requires
        object_at(s, "patternProperties"@) == Some(m),
        n <= m.len(),
    ensures
        pattern_issues(c, s, name, x, p, n).len() == 0 <==> forall|i: int|
            0 <= i < n ==> (
                found((#[trigger] m[i]).key, name) ==> accepts(c, m[i].value, x, at_key(p, name))
            ),
        forall|i: int|
            0 <= i < n ==> tells(
                pattern_issues(c, s, name, x, p, n),
                (
                    if found((#[trigger] m[i]).key, name) {
                        node_issues(c, m[i].value, x, at_key(p, name))
                    } else {
                        Seq::empty()
                    }
                ),
            ),
    decreases n,
{
    if n > 0 {
        lemma_pattern(c, s, name, x, p, m, (n - 1) as nat);
        let a = pattern_issues(c, s, name, x, p, (n - 1) as nat);
        let b = (
            if found(m[n - 1].key, name) {
                node_issues(c, m[n - 1].value, x, at_key(p, name))
            } else {
                Seq::empty()
            }
        );
        lemma_tells_concat(a, b);
        assert(pattern_issues(c, s, name, x, p, n) == a + b);
        assert forall|i: int| 0 <= i < n implies tells(
            pattern_issues(c, s, name, x, p, n),
            (
                if found((#[trigger] m[i]).key, name) {
                    node_issues(c, m[i].value, x, at_key(p, name))
                } else {
                    Seq::empty()
                }
            ),
        ) by {
            if i < n - 1 {
                assert(
                    tells(
                        a,
                        (
                            if found(m[i].key, name) {
                                node_issues(c, m[i].value, x, at_key(p, name))
                            } else {
                                Seq::empty()
                            }
                        ),
                    )
                );
            }
        }
        if pattern_issues(c, s, name, x, p, n).len() == 0 {
            assert forall|i: int| 0 <= i < n implies (
                found((#[trigger] m[i]).key, name) ==> accepts(c, m[i].value, x, at_key(p, name))
            ) by {
                if i == n - 1 {
                    assert(b.len() == 0);
                }
            }
        } else if forall|i: int| 0 <= i < n ==> (
            found((#[trigger] m[i]).key, name) ==> accepts(c, m[i].value, x, at_key(p, name))
        ) {
            assert((found(m[n - 1].key, name) ==> accepts(c, m[n - 1].value, x, at_key(p, name))));
            assert(b.len() == 0);
        }
    }
}

proof fn lemma_patterns(c: Setting, s: JsonView, v: JsonView, p: Place, n: nat)
    requires
        n <= members(v).len(),
    ensures
        patterns_issues(c, s, v, p, n).len() == 0 <==> forall|i: int|
            0 <= i < n ==> (
                pattern_issues(
                    c,
                    s,
                    (#[trigger] members(v)[i]).key,
                    members(v)[i].value,
                    p,
                    width_at(s, "patternProperties"@),
                ).len() == 0
            ),
        forall|i: int|
            0 <= i < n ==> tells(
                patterns_issues(c, s, v, p, n),
                pattern_issues(
                    c,
                    s,
                    (#[trigger] members(v)[i]).key,
                    members(v)[i].value,
                    p,
                    width_at(s, "patternProperties"@),
                ),
            ),
    decreases n,
{
    if n > 0 {
        lemma_patterns(c, s, v, p, (n - 1) as nat);
        let a = patterns_issues(c, s, v, p, (n - 1) as nat);
        let b = pattern_issues(
            c,
            s,
            members(v)[n - 1].key,
            members(v)[n - 1].value,
            p,
            width_at(s, "patternProperties"@),
        );
        lemma_tells_concat(a, b);
        assert(patterns_issues(c, s, v, p, n) == a + b);
        assert forall|i: int| 0 <= i < n implies tells(
            patterns_issues(c, s, v, p, n),
            pattern_issues(
                c,
                s,
                (#[trigger] members(v)[i]).key,
                members(v)[i].value,
                p,
                width_at(s, "patternProperties"@),
            ),
        ) by {
            if i < n - 1 {
                assert(
                    tells(
                        a,
                        pattern_issues(
                            c,
                            s,
                            members(v)[i].key,
                            members(v)[i].value,
                            p,
                            width_at(s, "patternProperties"@),
                        ),
                    )
                );
            }
        }
        if patterns_issues(c, s, v, p, n).len() == 0 {
            assert forall|i: int| 0 <= i < n implies (
                pattern_issues(
                    c,
                    s,
                    (#[trigger] members(v)[i]).key,
                    members(v)[i].value,
                    p,
                    width_at(s, "patternProperties"@),
                ).len() == 0
            ) by {
                if i == n - 1 {
                    assert(b.len() == 0);
                }
            }
        } else if forall|i: int| 0 <= i < n ==> (
            pattern_issues(
                c,
                s,
                (#[trigger] members(v)[i]).key,
                members(v)[i].value,
                p,
                width_at(s, "patternProperties"@),
            ).len() == 0
        ) {
            assert(
                (
                    pattern_issues(
                        c,
                        s,
                        members(v)[n - 1].key,
                        members(v)[n - 1].value,
                        p,
                        width_at(s, "patternProperties"@),
                    ).len() == 0
                )
            );
            assert(b.len() == 0);
        }
    }
}

/// Nothing is told of the members that no other keyword is for where it is of none of them, and what is
/// told of one is told in all.
pub proof fn lemma_additional(c: Setting, s: JsonView, v: JsonView, p: Place, n: nat)
    requires
        n <= members(v).len(),
    ensures
        additional_issues(c, s, v, p, n).len() == 0 <==> forall|i: int|
            0 <= i < n ==> (
                extra_issues(
                    c,
                    s,
                    (#[trigger] members(v)[i]).key,
                    members(v)[i].value,
                    p,
                ).len() == 0
            ),
        forall|i: int|
            0 <= i < n ==> tells(
                additional_issues(c, s, v, p, n),
                extra_issues(c, s, (#[trigger] members(v)[i]).key, members(v)[i].value, p),
            ),
    decreases n,
{
    if n > 0 {
        lemma_additional(c, s, v, p, (n - 1) as nat);
        let a = additional_issues(c, s, v, p, (n - 1) as nat);
        let b = extra_issues(c, s, members(v)[n - 1].key, members(v)[n - 1].value, p);
        lemma_tells_concat(a, b);
        assert(additional_issues(c, s, v, p, n) == a + b);
        assert forall|i: int| 0 <= i < n implies tells(
            additional_issues(c, s, v, p, n),
            extra_issues(c, s, (#[trigger] members(v)[i]).key, members(v)[i].value, p),
        ) by {
            if i < n - 1 {
                assert(tells(a, extra_issues(c, s, members(v)[i].key, members(v)[i].value, p)));
            }
        }
        if additional_issues(c, s, v, p, n).len() == 0 {
            assert forall|i: int| 0 <= i < n implies (
                extra_issues(
                    c,
                    s,
                    (#[trigger] members(v)[i]).key,
                    members(v)[i].value,
                    p,
                ).len() == 0
            ) by {
                if i == n - 1 {
                    assert(b.len() == 0);
                }
            }
        } else if forall|i: int| 0 <= i < n ==> (
            extra_issues(c, s, (#[trigger] members(v)[i]).key, members(v)[i].value, p).len() == 0
        ) {
            assert(
                (extra_issues(c, s, members(v)[n - 1].key, members(v)[n - 1].value, p).len() == 0)
            );
            assert(b.len() == 0);
        }
    }
}

proof fn lemma_names(c: Setting, s: JsonView, v: JsonView, p: Place, n: nat)
    requires
        n <= members(v).len(),
    ensures
        name_issues(c, s, v, p, n).len() == 0 <==> forall|i: int|
            0 <= i < n ==> (
                sub_issues(
                    c,
                    s,
                    "propertyNames"@,
                    JsonView::Text((#[trigger] members(v)[i]).key),
                    at_key(p, members(v)[i].key),
                ).len() == 0
            ),
        forall|i: int|
            0 <= i < n ==> tells(
                name_issues(c, s, v, p, n),
                sub_issues(
                    c,
                    s,
                    "propertyNames"@,
                    JsonView::Text((#[trigger] members(v)[i]).key),
                    at_key(p, members(v)[i].key),
                ),
            ),
    decreases n,
{
    if n > 0 {
        lemma_names(c, s, v, p, (n - 1) as nat);
        let a = name_issues(c, s, v, p, (n - 1) as nat);
        let b = sub_issues(
            c,
            s,
            "propertyNames"@,
            JsonView::Text(members(v)[n - 1].key),
            at_key(p, members(v)[n - 1].key),
        );
        lemma_tells_concat(a, b);
        assert(name_issues(c, s, v, p, n) == a + b);
        assert forall|i: int| 0 <= i < n implies tells(
            name_issues(c, s, v, p, n),
            sub_issues(
                c,
                s,
                "propertyNames"@,
                JsonView::Text((#[trigger] members(v)[i]).key),
                at_key(p, members(v)[i].key),
            ),
        ) by {
            if i < n - 1 {
                assert(
                    tells(
                        a,
                        sub_issues(
                            c,
                            s,
                            "propertyNames"@,
                            JsonView::Text(members(v)[i].key),
                            at_key(p, members(v)[i].key),
                        ),
                    )
                );
            }
        }
        if name_issues(c, s, v, p, n).len() == 0 {
            assert forall|i: int| 0 <= i < n implies (
                sub_issues(
                    c,
                    s,
                    "propertyNames"@,
                    JsonView::Text((#[trigger] members(v)[i]).key),
                    at_key(p, members(v)[i].key),
                ).len() == 0
            ) by {
                if i == n - 1 {
                    assert(b.len() == 0);
                }
            }
        } else if forall|i: int| 0 <= i < n ==> (
            sub_issues(
                c,
                s,
                "propertyNames"@,
                JsonView::Text((#[trigger] members(v)[i]).key),
                at_key(p, members(v)[i].key),
            ).len() == 0
        ) {
            assert(
                (
                    sub_issues(
                        c,
                        s,
                        "propertyNames"@,
                        JsonView::Text(members(v)[n - 1].key),
                        at_key(p, members(v)[n - 1].key),
                    ).len() == 0
                )
            );
            assert(b.len() == 0);
        }
    }
}

proof fn lemma_dependent_schemas(
    c: Setting,
    s: JsonView,
    v: JsonView,
    p: Place,
    m: Seq<MemberView>,
    n: nat,
)
    requires
        object_at(s, "dependentSchemas"@) == Some(m),
        n <= m.len(),
    ensures
        dependent_schema_issues(c, s, v, p, n).len() == 0 <==> forall|i: int|
            0 <= i < n ==> (
                member(v, (#[trigger] m[i]).key) is Some ==> accepts(c, m[i].value, v, p)
            ),
        forall|i: int|
            0 <= i < n ==> tells(
                dependent_schema_issues(c, s, v, p, n),
                (
                    match member(v, (#[trigger] m[i]).key) {
                        Some(_) => node_issues(c, m[i].value, v, p),
                        None => Seq::empty(),
                    }
                ),
            ),
    decreases n,
{
    if n > 0 {
        lemma_dependent_schemas(c, s, v, p, m, (n - 1) as nat);
        let a = dependent_schema_issues(c, s, v, p, (n - 1) as nat);
        let b = (
            match member(v, m[n - 1].key) {
                Some(_) => node_issues(c, m[n - 1].value, v, p),
                None => Seq::empty(),
            }
        );
        lemma_tells_concat(a, b);
        assert(dependent_schema_issues(c, s, v, p, n) == a + b);
        assert forall|i: int| 0 <= i < n implies tells(
            dependent_schema_issues(c, s, v, p, n),
            (
                match member(v, (#[trigger] m[i]).key) {
                    Some(_) => node_issues(c, m[i].value, v, p),
                    None => Seq::empty(),
                }
            ),
        ) by {
            if i < n - 1 {
                assert(
                    tells(
                        a,
                        (
                            match member(v, m[i].key) {
                                Some(_) => node_issues(c, m[i].value, v, p),
                                None => Seq::empty(),
                            }
                        ),
                    )
                );
            }
        }
        if dependent_schema_issues(c, s, v, p, n).len() == 0 {
            assert forall|i: int| 0 <= i < n implies (
                member(v, (#[trigger] m[i]).key) is Some ==> accepts(c, m[i].value, v, p)
            ) by {
                if i == n - 1 {
                    assert(b.len() == 0);
                }
            }
        } else if forall|i: int| 0 <= i < n ==> (
            member(v, (#[trigger] m[i]).key) is Some ==> accepts(c, m[i].value, v, p)
        ) {
            assert((member(v, m[n - 1].key) is Some ==> accepts(c, m[n - 1].value, v, p)));
            assert(b.len() == 0);
        }
    }
}

proof fn lemma_items(c: Setting, s: JsonView, v: JsonView, p: Place, n: nat)
    requires
        n <= elements(v).len(),
    ensures
        item_issues(c, s, v, p, n).len() == 0 <==> forall|i: int|
            len_at(s, "prefixItems"@) <= i < n ==> sub_issues(
                c,
                s,
                "items"@,
                #[trigger] elements(v)[i],
                at_index(p, i),
            ).len() == 0,
        forall|i: int|
            len_at(s, "prefixItems"@) <= i < n ==> tells(
                item_issues(c, s, v, p, n),
                sub_issues(c, s, "items"@, #[trigger] elements(v)[i], at_index(p, i)),
            ),
    decreases n,
{
    let from = len_at(s, "prefixItems"@);
    if from < n {
        lemma_items(c, s, v, p, (n - 1) as nat);
        let a = item_issues(c, s, v, p, (n - 1) as nat);
        let b = sub_issues(c, s, "items"@, elements(v)[n - 1], at_index(p, n - 1));
        let all = item_issues(c, s, v, p, n);
        assert(all == a + b);
        lemma_tells_concat(a, b);
        assert forall|i: int| from <= i < n implies tells(
            all,
            sub_issues(c, s, "items"@, #[trigger] elements(v)[i], at_index(p, i)),
        ) by {
            if i < n - 1 {
                assert(tells(a, sub_issues(c, s, "items"@, elements(v)[i], at_index(p, i))));
            }
        }
        if forall|i: int|
            from <= i < n ==> sub_issues(
                c,
                s,
                "items"@,
                #[trigger] elements(v)[i],
                at_index(p, i),
            ).len() == 0 {
            assert(sub_issues(c, s, "items"@, elements(v)[n - 1], at_index(p, n - 1)).len() == 0);
        }
    }
}

spec fn counted(l: Seq<JsonView>, g: spec_fn(JsonView) -> bool, n: nat) -> nat
    decreases n,
{
    if n == 0 {
        0
    } else {
        counted(l, g, (n - 1) as nat) + if g(l[n - 1]) {
            1nat
        } else {
            0nat
        }
    }
}

proof fn lemma_none_counted(l: Seq<JsonView>, g: spec_fn(JsonView) -> bool, n: nat)
    requires
        n <= l.len(),
    ensures
        counted(l, g, n) == 0 <==> forall|i: int| 0 <= i < n ==> !g(#[trigger] l[i]),
    decreases n,
{
    if n > 0 {
        lemma_none_counted(l, g, (n - 1) as nat);
        if forall|i: int| 0 <= i < n ==> !g(#[trigger] l[i]) {
            assert(!g(l[n - 1]));
        }
    }
}

spec fn is_alone(l: Seq<JsonView>, g: spec_fn(JsonView) -> bool, n: nat, i: int) -> bool {
    &&& 0 <= i < n
    &&& g(l[i])
    &&& forall|j: int| 0 <= j < n && j != i ==> !g(#[trigger] l[j])
}

proof fn lemma_one_counted(l: Seq<JsonView>, g: spec_fn(JsonView) -> bool, n: nat)
    requires
        n <= l.len(),
    ensures
        counted(l, g, n) == 1 <==> exists|i: int| #[trigger] is_alone(l, g, n, i),
    decreases n,
{
    if n > 0 {
        let k = (n - 1) as nat;
        lemma_none_counted(l, g, k);
        lemma_one_counted(l, g, k);
        if counted(l, g, n) == 1 {
            if g(l[n - 1]) {
                assert(is_alone(l, g, n, n - 1));
            } else {
                let i = choose|i: int| #[trigger] is_alone(l, g, k, i);
                assert(is_alone(l, g, n, i));
            }
        }
        if exists|i: int| #[trigger] is_alone(l, g, n, i) {
            let i = choose|i: int| #[trigger] is_alone(l, g, n, i);
            if i == n - 1 {
                assert(counted(l, g, k) == 0);
            } else {
                assert(!g(l[n - 1]));
                assert(is_alone(l, g, k, i));
            }
        }
    } else {
        assert forall|i: int| !(#[trigger] is_alone(l, g, n, i)) by {}
    }
}

proof fn lemma_met_counted(
    c: Setting,
    s: JsonView,
    key: Seq<char>,
    v: JsonView,
    p: Place,
    l: Seq<JsonView>,
    n: nat,
)
    requires
        list_at(s, key) == Some(l),
        n <= l.len(),
    ensures
        met(c, s, key, v, p, n) == counted(l, |x: JsonView| accepts(c, x, v, p), n),
    decreases n,
{
    if n > 0 {
        lemma_met_counted(c, s, key, v, p, l, (n - 1) as nat);
    }
}

/// Whether a value meets a schema of a list and none of the others.
pub open spec fn meets_only(c: Setting, l: Seq<JsonView>, v: JsonView, p: Place, i: int) -> bool {
    &&& 0 <= i < l.len()
    &&& accepts(c, l[i], v, p)
    &&& forall|j: int| 0 <= j < l.len() && j != i ==> !accepts(c, #[trigger] l[j], v, p)
}

/// Of a list of schemas none is met where each rejects the value, and one where just that one accepts it.
pub proof fn lemma_met(
    c: Setting,
    s: JsonView,
    key: Seq<char>,
    v: JsonView,
    p: Place,
    l: Seq<JsonView>,
)
    requires
        list_at(s, key) == Some(l),
    ensures
        met(c, s, key, v, p, l.len()) == 0 <==> forall|i: int|
            0 <= i < l.len() ==> !accepts(c, #[trigger] l[i], v, p),
        met(c, s, key, v, p, l.len()) == 1 <==> exists|i: int| #[trigger] meets_only(c, l, v, p, i),
{
    let g = |x: JsonView| accepts(c, x, v, p);
    let n = l.len();
    lemma_met_counted(c, s, key, v, p, l, n);
    lemma_none_counted(l, g, n);
    lemma_one_counted(l, g, n);
    assert forall|i: int| #[trigger] is_alone(l, g, n, i) == meets_only(c, l, v, p, i) by {
        if is_alone(l, g, n, i) {
            assert forall|j: int| 0 <= j < n && j != i implies !accepts(
                c,
                #[trigger] l[j],
                v,
                p,
            ) by {
                assert(!g(l[j]));
            }
        }
    }
    if exists|i: int| #[trigger] meets_only(c, l, v, p, i) {
        let i = choose|i: int| #[trigger] meets_only(c, l, v, p, i);
        assert(is_alone(l, g, n, i));
    }
    if exists|i: int| #[trigger] is_alone(l, g, n, i) {
        let i = choose|i: int| #[trigger] is_alone(l, g, n, i);
        assert(meets_only(c, l, v, p, i));
    }
    assert((forall|i: int| 0 <= i < n ==> !g(#[trigger] l[i])) == (forall|i: int|
        0 <= i < n ==> !accepts(c, #[trigger] l[i], v, p)));
}

proof fn lemma_containing(c: Setting, s: JsonView, v: JsonView, p: Place, x: JsonView, k: nat)
    requires
        member(s, "contains"@) == Some(x),
        k <= elements(v).len(),
    ensures
        containing(c, s, v, p, k) == elements(v).take(k as int).filter(
            |e: JsonView| accepts(
                c,
                x,
                e,
                Place { path: p.path, refs: Seq::empty(), depth: p.depth },
            ),
        ).len(),
    decreases k,
{
    reveal(Seq::filter);
    let pred = |e: JsonView|
        accepts(c, x, e, Place { path: p.path, refs: Seq::empty(), depth: p.depth });
    let t = elements(v).take(k as int);
    if k > 0 {
        lemma_containing(c, s, v, p, x, (k - 1) as nat);
        assert(t.drop_last() =~= elements(v).take(k - 1));
        assert(t.last() == elements(v)[k - 1]);
        let q = inner(p);
        assert(sub_issues(c, s, "contains"@, elements(v)[k - 1], q) == node_issues(
            c,
            x,
            elements(v)[k - 1],
            q,
        ));
        assert(pred(t.last()) == (sub_issues(c, s, "contains"@, elements(v)[k - 1], q).len() == 0));
    }
}

proof fn lemma_required(l: Seq<JsonView>, v: JsonView, p: Place, n: nat)
    requires
        n <= l.len(),
    ensures
        required_issues(l, v, p, n).len() == 0 <==> forall|i: int|
            0 <= i < n ==> ((#[trigger] l[i]) matches JsonView::Text(name) ==> has_key(v, name)),
    decreases n,
{
    if n > 0 {
        lemma_required(l, v, p, (n - 1) as nat);
        if let JsonView::Text(name) = l[n - 1] {
            lemma_member_is_the_first(v, name);
        }
        if forall|i: int|
            0 <= i < n ==> ((#[trigger] l[i]) matches JsonView::Text(name) ==> has_key(v, name)) {
            assert(l[n - 1] matches JsonView::Text(name) ==> has_key(v, name));
        }
    }
}

proof fn lemma_siblings(l: Seq<JsonView>, trigger: Seq<char>, v: JsonView, p: Place, n: nat)
    requires
        n <= l.len(),
    ensures
        sibling_issues(l, trigger, v, p, n).len() == 0 <==> forall|i: int|
            0 <= i < n ==> ((#[trigger] l[i]) matches JsonView::Text(name) ==> has_key(v, name)),
    decreases n,
{
    if n > 0 {
        lemma_siblings(l, trigger, v, p, (n - 1) as nat);
        if let JsonView::Text(name) = l[n - 1] {
            lemma_member_is_the_first(v, name);
        }
        if forall|i: int|
            0 <= i < n ==> ((#[trigger] l[i]) matches JsonView::Text(name) ==> has_key(v, name)) {
            assert(l[n - 1] matches JsonView::Text(name) ==> has_key(v, name));
        }
    }
}

/// Whether an object has all the keys that a list names.
pub open spec fn has_all(v: JsonView, names: JsonView) -> bool {
    forall|i: int|
        0 <= i < elements(names).len() ==> ((#[trigger] elements(names)[i]) matches JsonView::Text(
            name,
        ) ==> has_key(v, name))
}

proof fn lemma_dependent(m: Seq<MemberView>, v: JsonView, p: Place, n: nat)
    requires
        n <= m.len(),
    ensures
        dependent_issues(m, v, p, n).len() == 0 <==> forall|i: int|
            0 <= i < n && has_key(v, (#[trigger] m[i]).key) ==> has_all(v, m[i].value),
    decreases n,
{
    if n > 0 {
        lemma_dependent(m, v, p, (n - 1) as nat);
        let x = m[n - 1];
        lemma_member_is_the_first(v, x.key);
        if let JsonView::List(l) = x.value {
            lemma_siblings(l, x.key, v, p, l.len());
            assert(has_all(v, x.value) <==> forall|i: int|
                0 <= i < l.len() ==> ((#[trigger] l[i]) matches JsonView::Text(name) ==> has_key(
                    v,
                    name,
                )));
        }
        if forall|i: int|
            0 <= i < n && has_key(v, (#[trigger] m[i]).key) ==> has_all(v, m[i].value) {
            assert(has_key(v, m[n - 1].key) ==> has_all(v, m[n - 1].value));
        }
    }
}

proof fn lemma_some_pattern(m: Seq<MemberView>, name: Seq<char>, n: nat)
    requires
        n <= m.len(),
    ensures
        some_pattern(m, name, n) <==> exists|i: int| 0 <= i < n && found(
            (#[trigger] m[i]).key,
            name,
        ),
    decreases n,
{
    if n > 0 {
        lemma_some_pattern(m, name, (n - 1) as nat);
        if found(m[n - 1].key, name) {
            assert(found(m[n - 1].key, name));
        }
    }
}

// Types

/// Whether a word names a type.
pub open spec fn is_type_name(name: Seq<char>) -> bool {
    ||| name == "null"@
    ||| name == "boolean"@
    ||| name == "object"@
    ||| name == "array"@
    ||| name == "number"@
    ||| name == "integer"@
    ||| name == "string"@
}

/// Whether a value is of the type that a word names.
pub open spec fn is_a(name: Seq<char>, v: JsonView) -> bool {
    ||| name == "null"@ && v is Null
    ||| name == "boolean"@ && v is Flag
    ||| name == "object"@ && v is Object
    ||| name == "array"@ && v is List
    ||| name == "number"@ && v is Number
    ||| name == "integer"@ && (
        v matches JsonView::Number(n) && is_finite(n.bits) && is_whole(n.bits)
    )
    ||| name == "string"@ && v is Text
}

/// Whether the value of `type` has a word: it is that word, or a list with it.
pub open spec fn names(t: JsonView, name: Seq<char>) -> bool {
    t == JsonView::Text(name) || elements(t).contains(JsonView::Text(name))
}

/// What `type` and `nullable` ask: one of the types that are named, if any is known.
pub open spec fn meets_type(s: JsonView, v: JsonView) -> bool {
    match member(s, "type"@) {
        None => true,
        Some(t) => {
            ||| forall|name: Seq<char>| #[trigger] names(t, name) ==> !is_type_name(name)
            ||| exists|name: Seq<char>| #[trigger] names(t, name) && is_a(name, v)
            ||| v is Null && member(s, "nullable"@) == Some(JsonView::Flag(true))
        },
    }
}

/// There are seven names of types, and a value is of the type that such a name stands for.
pub proof fn lemma_type_names(name: Seq<char>, v: JsonView)
    ensures
        type_named(name) is Some <==> is_type_name(name),
        is_a(name, v) <==> (type_named(name) matches Some(t) && has_type(t, v)),
{
    reveal_strlit("null");
    reveal_strlit("boolean");
    reveal_strlit("object");
    reveal_strlit("array");
    reveal_strlit("number");
    reveal_strlit("integer");
    reveal_strlit("string");
    assert("null"@.len() == 4 && "array"@.len() == 5);
    assert("object"@.len() == 6 && "number"@.len() == 6 && "string"@.len() == 6);
    assert("boolean"@.len() == 7 && "integer"@.len() == 7);
    assert("object"@[0] == 'o' && "number"@[0] == 'n' && "string"@[0] == 's');
    assert("boolean"@[0] == 'b' && "integer"@[0] == 'i');
    if name == "null"@ {
        assert(type_named(name) == Some(JsonType::Null));
    } else if name == "boolean"@ {
        assert(type_named(name) == Some(JsonType::Boolean));
    } else if name == "object"@ {
        assert(type_named(name) == Some(JsonType::Object));
    } else if name == "array"@ {
        assert(type_named(name) == Some(JsonType::Array));
    } else if name == "number"@ {
        assert(type_named(name) == Some(JsonType::Number));
    } else if name == "integer"@ {
        assert(type_named(name) == Some(JsonType::Integer));
    }
}

proof fn lemma_types_in(l: Seq<JsonView>, t: JsonType)
    ensures
        types_in(l).contains(t) <==> exists|i: int|
            0 <= i < l.len() && type_of_value(#[trigger] l[i]) == Some(t),
    decreases l.len(),
{
    broadcast use vstd::seq_lib::lemma_seq_contains_after_push;

    if l.len() > 0 {
        let front = l.drop_last();
        lemma_types_in(front, t);
        if types_in(front).contains(t) {
            let i = choose|i: int| 0 <= i < front.len() && type_of_value(
                #[trigger] front[i],
            ) == Some(t);
            assert(type_of_value(l[i]) == Some(t));
        }
        if type_of_value(l[l.len() - 1]) == Some(t) {
            let m = types_in(l);
            assert(m[m.len() - 1] == t);
        }
        if exists|i: int| 0 <= i < l.len() && type_of_value(#[trigger] l[i]) == Some(t) {
            let i = choose|i: int| 0 <= i < l.len() && type_of_value(#[trigger] l[i]) == Some(t);
            if i < front.len() {
                assert(type_of_value(front[i]) == Some(t));
                let k = choose|k: int| 0 <= k < types_in(front).len() && types_in(front)[k] == t;
                assert(types_in(l)[k] == t);
            }
        }
    }
}

proof fn lemma_type_list(t: JsonView, ty: JsonType)
    ensures
        type_list(t).contains(ty) <==> exists|name: Seq<char>|
            #[trigger] names(t, name) && type_named(name) == Some(ty),
{
    match t {
        JsonView::Text(word) => {
            assert(elements(t).len() == 0);
            if type_named(word) == Some(ty) {
                assert(type_list(t)[0] == ty);
                assert(names(t, word));
            }
        },
        JsonView::List(l) => {
            lemma_types_in(l, ty);
            if type_list(t).contains(ty) {
                let i = choose|i: int| 0 <= i < l.len() && type_of_value(
                    #[trigger] l[i],
                ) == Some(ty);
                let word = l[i]->Text_0;
                assert(elements(t)[i] == JsonView::Text(word));
                assert(names(t, word));
            }
            if exists|name: Seq<char>| #[trigger] names(t, name) && type_named(name) == Some(ty) {
                let name = choose|name: Seq<char>|
                    #[trigger] names(t, name) && type_named(name) == Some(ty);
                let i = choose|i: int| 0 <= i < l.len() && l[i] == JsonView::Text(name);
                assert(type_of_value(l[i]) == Some(ty));
            }
        },
        _ => {},
    }
}

/// Nothing is told of `type` where the value is of one of the types that it names.
pub proof fn lemma_type_met(s: JsonView, v: JsonView, p: Place)
    ensures
        type_issues(s, v, p).len() == 0 <==> meets_type(s, v),
{
    if let Some(t) = member(s, "type"@) {
        let l = type_list(t);
        let e = expected_types(s);
        assert forall|ty: JsonType| e.contains(ty) == (l.contains(ty) || (l.len() > 0
            && member(s, "nullable"@) == Some(JsonView::Flag(true)) && ty == JsonType::Null)) by {
            broadcast use vstd::seq_lib::lemma_seq_contains_after_push;

        }
        if e.len() == 0 {
            assert forall|name: Seq<char>| #[trigger] names(t, name) implies !is_type_name(name) by {
                lemma_type_names(name, v);
                if let Some(ty) = type_named(name) {
                    lemma_type_list(t, ty);
                    assert(l.contains(ty));
                }
            }
        } else {
            if exists|i: int| 0 <= i < e.len() && has_type(#[trigger] e[i], v) {
                let i = choose|i: int| 0 <= i < e.len() && has_type(#[trigger] e[i], v);
                let ty = e[i];
                assert(e.contains(ty));
                if l.contains(ty) {
                    lemma_type_list(t, ty);
                    let name = choose|name: Seq<char>|
                        #[trigger] names(t, name) && type_named(name) == Some(ty);
                    lemma_type_names(name, v);
                    assert(names(t, name) && is_a(name, v));
                }
            }
            if meets_type(s, v) {
                if exists|name: Seq<char>| #[trigger] names(t, name) && is_a(name, v) {
                    let name = choose|name: Seq<char>| #[trigger] names(t, name) && is_a(name, v);
                    lemma_type_names(name, v);
                    let ty = type_named(name)->0;
                    lemma_type_list(t, ty);
                    assert(e.contains(ty));
                    let i = choose|i: int| 0 <= i < e.len() && e[i] == ty;
                    assert(has_type(e[i], v));
                } else if v is Null && member(s, "nullable"@) == Some(JsonView::Flag(true)) {
                    assert(l.len() > 0);
                    assert(e.contains(JsonType::Null));
                    let i = choose|i: int| 0 <= i < e.len() && e[i] == JsonType::Null;
                    assert(has_type(e[i], v));
                } else {
                    assert(e.contains(e[0]));
                    assert(l.len() > 0);
                    let ty = l[0];
                    assert(l.contains(ty));
                    lemma_type_list(t, ty);
                    let name = choose|name: Seq<char>|
                        #[trigger] names(t, name) && type_named(name) == Some(ty);
                    lemma_type_names(name, v);
                }
            }
        }
    }
}

// Keywords

/// What `enum` and `const` ask.
pub open spec fn meets_values(s: JsonView, v: JsonView) -> bool {
    &&& member(s, "enum"@) matches Some(JsonView::List(l)) ==> exists|i: int|
        0 <= i < l.len() && same_json(#[trigger] l[i], v)
    &&& member(s, "const"@) matches Some(x) ==> same_json(x, v)
}

/// What the keywords that refer to other schemas or combine them ask. References are followed at most
/// sixty-four deep, and none twice for the same part of a value.
pub open spec fn meets_combined(c: Setting, s: JsonView, v: JsonView, p: Place) -> bool {
    &&& member(s, "$ref"@) matches Some(JsonView::Text(r)) ==> (p.depth < 64 && !p.refs.contains(r)
        && r.len() > 0 && r[0] == '#') ==> (pointed(c.root, r.skip(1)) matches Some(target)
        ==> accepts(
        c,
        target,
        v,
        Place { path: p.path, refs: p.refs.push(r), depth: p.depth + 1 },
    ))
    &&& member(s, "allOf"@) matches Some(JsonView::List(l)) ==> forall|i: int|
        0 <= i < l.len() ==> accepts(c, #[trigger] l[i], v, p)
    &&& member(s, "anyOf"@) matches Some(JsonView::List(l)) ==> exists|i: int|
        0 <= i < l.len() && accepts(c, #[trigger] l[i], v, p)
    &&& member(s, "oneOf"@) matches Some(JsonView::List(l)) ==> exists|i: int|
        #[trigger] meets_only(c, l, v, p, i)
    &&& member(s, "not"@) matches Some(x) ==> !accepts(c, x, v, p)
    &&& member(s, "if"@) matches Some(x) ==> if accepts(c, x, v, p) {
        member(s, "then"@) matches Some(y) ==> accepts(c, y, v, p)
    } else {
        member(s, "else"@) matches Some(y) ==> accepts(c, y, v, p)
    }
}

/// Whether a count is within two counts that keywords give.
pub open spec fn is_between(s: JsonView, n: nat, min: Seq<char>, max: Seq<char>) -> bool {
    &&& member(s, min) matches Some(JsonView::Number(x)) ==> (
        as_count(x) matches Some(k) ==> k <= n
    )
    &&& member(s, max) matches Some(JsonView::Number(x)) ==> (
        as_count(x) matches Some(k) ==> n <= k
    )
}

/// Whether `properties` has a key, or a pattern of `patternProperties` is found in it.
pub open spec fn is_declared(s: JsonView, key: Seq<char>) -> bool {
    ||| member(s, "properties"@) matches Some(x) && has_key(x, key)
    ||| member(s, "patternProperties"@) matches Some(x) && exists|i: int|
        0 <= i < members(x).len() && found((#[trigger] members(x)[i]).key, key)
}

/// What a schema asks of an object.
pub open spec fn meets_object(c: Setting, s: JsonView, v: JsonView, p: Place) -> bool {
    &&& member(s, "properties"@) matches Some(JsonView::Object(m)) ==> forall|i: int|
        0 <= i < m.len() ==> (member(v, (#[trigger] m[i]).key) matches Some(x) ==> accepts(
            c,
            m[i].value,
            x,
            at_key(p, m[i].key),
        ))
    &&& member(s, "patternProperties"@) matches Some(JsonView::Object(m)) ==> forall|k: int, i: int|
        0 <= k < members(v).len() && 0 <= i < m.len() && found(
            (#[trigger] m[i]).key,
            (#[trigger] members(v)[k]).key,
        ) ==> accepts(c, m[i].value, members(v)[k].value, at_key(p, members(v)[k].key))
    &&& member(s, "additionalProperties"@) matches Some(x) ==> forall|k: int|
        0 <= k < members(v).len() && !is_declared(s, (#[trigger] members(v)[k]).key) ==> accepts(
            c,
            x,
            members(v)[k].value,
            at_key(p, members(v)[k].key),
        )
    &&& member(s, "required"@) matches Some(JsonView::List(l)) ==> has_all(v, JsonView::List(l))
    &&& is_between(s, members(v).len(), "minProperties"@, "maxProperties"@)
    &&& member(s, "propertyNames"@) matches Some(x) ==> forall|k: int|
        0 <= k < members(v).len() ==> accepts(
            c,
            x,
            JsonView::Text((#[trigger] members(v)[k]).key),
            at_key(p, members(v)[k].key),
        )
    &&& member(s, "dependentRequired"@) matches Some(JsonView::Object(m)) ==> forall|i: int|
        0 <= i < m.len() && has_key(v, (#[trigger] m[i]).key) ==> has_all(v, m[i].value)
    &&& member(s, "dependentSchemas"@) matches Some(JsonView::Object(m)) ==> forall|i: int|
        0 <= i < m.len() && has_key(v, (#[trigger] m[i]).key) ==> accepts(c, m[i].value, v, p)
}

/// How many elements `prefixItems` is for.
pub open spec fn prefix_len(s: JsonView) -> nat {
    match member(s, "prefixItems"@) {
        Some(JsonView::List(l)) => l.len(),
        _ => 0,
    }
}

/// What a schema asks of a list: an element that `prefixItems` is for meets its schema there, any
/// other one that of `items`.
pub open spec fn meets_list(c: Setting, s: JsonView, v: JsonView, p: Place) -> bool {
    &&& member(s, "prefixItems"@) matches Some(JsonView::List(l)) ==> forall|i: int|
        0 <= i < l.len() && i < elements(v).len() ==> accepts(
            c,
            #[trigger] l[i],
            elements(v)[i],
            at_index(p, i),
        )
    &&& member(s, "items"@) matches Some(x) ==> forall|i: int|
        prefix_len(s) <= i < elements(v).len() ==> accepts(
            c,
            x,
            #[trigger] elements(v)[i],
            at_index(p, i),
        )
    &&& is_between(s, elements(v).len(), "minItems"@, "maxItems"@)
    &&& member(s, "uniqueItems"@) == Some(JsonView::Flag(true)) ==> forall|i: int, j: int|
        0 <= i < j < elements(v).len() ==> !same_json(
            #[trigger] elements(v)[i],
            #[trigger] elements(v)[j],
        )
    &&& member(s, "contains"@) matches Some(x) ==> {
        let n = elements(v).filter(
            |e: JsonView| accepts(
                c,
                x,
                e,
                Place { path: p.path, refs: Seq::empty(), depth: p.depth },
            ),
        ).len();
        &&& match number_count(s, "minContains"@) {
            Some(min) => min <= n,
            None => 1 <= n,
        }
        &&& number_count(s, "maxContains"@) matches Some(max) ==> n <= max
    }
}

/// The count that a keyword has.
pub open spec fn number_count(s: JsonView, key: Seq<char>) -> Option<nat> {
    match member(s, key) {
        Some(JsonView::Number(x)) => as_count(x),
        _ => None,
    }
}

/// What a schema asks of a string.
pub open spec fn meets_text(s: JsonView, t: Seq<char>) -> bool {
    &&& is_between(s, t.len(), "minLength"@, "maxLength"@)
    &&& member(s, "pattern"@) matches Some(JsonView::Text(x)) ==> pattern_error(x) is None
        ==> pattern_matches(x, t)
}

/// What a schema asks of a number.
pub open spec fn meets_number(c: Setting, s: JsonView, n: NumberView) -> bool {
    let k = order_key(n.bits);
    &&& member(s, "minimum"@) matches Some(JsonView::Number(b)) ==> order_key(b.bits) <= k
    &&& member(s, "maximum"@) matches Some(JsonView::Number(b)) ==> k <= order_key(b.bits)
    &&& member(s, "exclusiveMinimum"@) matches Some(JsonView::Number(b)) ==> order_key(b.bits) < k
    &&& member(s, "exclusiveMaximum"@) matches Some(JsonView::Number(b)) ==> k < order_key(b.bits)
    &&& member(s, "multipleOf"@) matches Some(JsonView::Number(b)) ==> order_key(b.bits) > 0
        ==> !c.uneven.contains((n.bits, b.bits))
}

#[verifier::spinoff_prover]
#[verifier::rlimit(40)]
proof fn lemma_object_met(c: Setting, s: JsonView, v: JsonView, p: Place)
    requires
        v is Object,
    ensures
        object_issues(c, s, v, p).len() == 0 <==> meets_object(c, s, v, p),
{
    let n = members(v).len();
    let parts = object_issues(c, s, v, p);
    // properties
    if let Some(m) = object_at(s, "properties"@) {
        lemma_properties(c, s, v, p, m, m.len());
    }
    // patternProperties
    lemma_patterns(c, s, v, p, n);
    if let Some(m) = object_at(s, "patternProperties"@) {
        assert forall|k: int| 0 <= k < n implies (pattern_issues(
            c,
            s,
            (#[trigger] members(v)[k]).key,
            members(v)[k].value,
            p,
            m.len(),
        ).len() == 0 <==> forall|i: int|
            0 <= i < m.len() ==> (found((#[trigger] m[i]).key, members(v)[k].key) ==> accepts(
                c,
                m[i].value,
                members(v)[k].value,
                at_key(p, members(v)[k].key),
            ))) by {
            lemma_pattern(c, s, members(v)[k].key, members(v)[k].value, p, m, m.len());
        }
    }
    // additionalProperties
    lemma_additional(c, s, v, p, n);
    assert forall|k: int| 0 <= k < n implies (extra_issues(
        c,
        s,
        (#[trigger] members(v)[k]).key,
        members(v)[k].value,
        p,
    ).len() == 0 <==> (member(s, "additionalProperties"@) matches Some(x) ==> !is_declared(
        s,
        members(v)[k].key,
    ) ==> accepts(c, x, members(v)[k].value, at_key(p, members(v)[k].key)))) by {
        lemma_extra(c, s, members(v)[k].key, members(v)[k].value, p);
    }
    // required
    if let Some(l) = list_at(s, "required"@) {
        lemma_required(l, v, p, l.len());
        assert(has_all(v, JsonView::List(l)) <==> forall|i: int|
            0 <= i < l.len() ==> (
                (#[trigger] l[i]) matches JsonView::Text(name) ==> has_key(v, name)
            ));
    }
    // propertyNames
    lemma_names(c, s, v, p, n);
    assert forall|k: int| 0 <= k < n implies (sub_issues(
        c,
        s,
        "propertyNames"@,
        JsonView::Text((#[trigger] members(v)[k]).key),
        at_key(p, members(v)[k].key),
    ).len() == 0 <==> (member(s, "propertyNames"@) matches Some(x) ==> accepts(
        c,
        x,
        JsonView::Text(members(v)[k].key),
        at_key(p, members(v)[k].key),
    ))) by {}
    // dependentRequired and dependentSchemas
    if let Some(m) = object_at(s, "dependentRequired"@) {
        lemma_dependent(m, v, p, m.len());
    }
    if let Some(m) = object_at(s, "dependentSchemas"@) {
        lemma_dependent_schemas(c, s, v, p, m, m.len());
        assert forall|i: int| 0 <= i < m.len() implies (member(v, (#[trigger] m[i]).key) is Some
            <==> has_key(v, m[i].key)) by {
            lemma_member_is_the_first(v, m[i].key);
        }
    }
    let a = property_issues(c, s, v, p, width_at(s, "properties"@)).len();
    let b = patterns_issues(c, s, v, p, n).len();
    let d = additional_issues(c, s, v, p, n).len();
    let e = name_issues(c, s, v, p, n).len();
    assert(dependent_schema_issues(c, s, v, p, width_at(s, "dependentSchemas"@)).len() == 0 <==> (
    member(s, "dependentSchemas"@) matches Some(JsonView::Object(m)) ==> forall|i: int|
        0 <= i < m.len() && has_key(v, (#[trigger] m[i]).key) ==> accepts(c, m[i].value, v, p)));
    assert(a == 0 <==> (member(s, "properties"@) matches Some(JsonView::Object(m)) ==> forall|i: int|
        0 <= i < m.len() ==> (member(v, (#[trigger] m[i]).key) matches Some(x) ==> accepts(
            c,
            m[i].value,
            x,
            at_key(p, m[i].key),
        ))));
    lemma_patterns_met(c, s, v, p);
    assert(d == 0 <==> (member(s, "additionalProperties"@) matches Some(x) ==> forall|k: int|
        0 <= k < members(v).len() && !is_declared(s, (#[trigger] members(v)[k]).key) ==> accepts(
            c,
            x,
            members(v)[k].value,
            at_key(p, members(v)[k].key),
        )));
}

proof fn lemma_patterns_met(c: Setting, s: JsonView, v: JsonView, p: Place)
    ensures
        patterns_issues(
            c,
            s,
            v,
            p,
            members(v).len(),
        ).len() == 0 <==> (member(s, "patternProperties"@) matches Some(
            JsonView::Object(m),
        ) ==> forall|k: int, i: int|
            0 <= k < members(v).len() && 0 <= i < m.len() && found(
                (#[trigger] m[i]).key,
                (#[trigger] members(v)[k]).key,
            ) ==> accepts(c, m[i].value, members(v)[k].value, at_key(p, members(v)[k].key))),
{
    let n = members(v).len();
    lemma_patterns(c, s, v, p, n);
    let all = patterns_issues(c, s, v, p, n);
    match object_at(s, "patternProperties"@) {
        Some(m) => {
            assert forall|k: int| 0 <= k < n implies (pattern_issues(
                c,
                s,
                (#[trigger] members(v)[k]).key,
                members(v)[k].value,
                p,
                m.len(),
            ).len() == 0 <==> forall|i: int|
                0 <= i < m.len() ==> (found((#[trigger] m[i]).key, members(v)[k].key) ==> accepts(
                    c,
                    m[i].value,
                    members(v)[k].value,
                    at_key(p, members(v)[k].key),
                ))) by {
                lemma_pattern(c, s, members(v)[k].key, members(v)[k].value, p, m, m.len());
            }
            if all.len() == 0 {
                assert forall|k: int, i: int|
                    0 <= k < members(v).len() && 0 <= i < m.len() && found(
                        (#[trigger] m[i]).key,
                        (#[trigger] members(v)[k]).key,
                    ) implies accepts(
                    c,
                    m[i].value,
                    members(v)[k].value,
                    at_key(p, members(v)[k].key),
                ) by {
                    assert(pattern_issues(
                        c,
                        s,
                        members(v)[k].key,
                        members(v)[k].value,
                        p,
                        m.len(),
                    ).len() == 0);
                }
            } else {
                let k = choose|k: int|
                    0 <= k < n && pattern_issues(
                        c,
                        s,
                        (#[trigger] members(v)[k]).key,
                        members(v)[k].value,
                        p,
                        m.len(),
                    ).len() != 0;
                let i = choose|i: int|
                    0 <= i < m.len() && found((#[trigger] m[i]).key, members(v)[k].key) && !accepts(
                        c,
                        m[i].value,
                        members(v)[k].value,
                        at_key(p, members(v)[k].key),
                    );
                assert(found(m[i].key, members(v)[k].key));
            }
        },
        None => {
            assert forall|k: int| 0 <= k < n implies pattern_issues(
                c,
                s,
                (#[trigger] members(v)[k]).key,
                members(v)[k].value,
                p,
                0,
            ).len() == 0 by {}
        },
    }
}

/// Nothing is told of a member that other keywords are for; another one is held to `additionalProperties`.
pub proof fn lemma_extra(c: Setting, s: JsonView, key: Seq<char>, x: JsonView, p: Place)
    ensures
        extra_issues(
            c,
            s,
            key,
            x,
            p,
        ).len() == 0 <==> (member(s, "additionalProperties"@) matches Some(y)
            ==> !is_declared(s, key) ==> accepts(c, y, x, at_key(p, key))),
        is_covered(s, key) <==> is_declared(s, key),
{
    if let Some(m) = object_at(s, "properties"@) {
        lemma_member_is_the_first(JsonView::Object(m), key);
    }
    if let Some(m) = object_at(s, "patternProperties"@) {
        lemma_some_pattern(m, key, m.len());
        assert(members(JsonView::Object(m)) == m);
    }
    if let Some(y) = member(s, "additionalProperties"@) {
        assert(sub_issues(c, s, "additionalProperties"@, x, at_key(p, key)) == node_issues(
            c,
            y,
            x,
            at_key(p, key),
        ));
    }
}

#[verifier::spinoff_prover]
#[verifier::rlimit(40)]
proof fn lemma_list_met(c: Setting, s: JsonView, v: JsonView, p: Place)
    requires
        v is List,
    ensures
        array_issues(c, s, v, p).len() == 0 <==> meets_list(c, s, v, p),
{
    let n = elements(v).len();
    if let Some(l) = list_at(s, "prefixItems"@) {
        lemma_prefix(c, s, v, p, l, l.len());
    }
    lemma_items(c, s, v, p, n);
    assert forall|i: int| 0 <= i < n implies (sub_issues(
        c,
        s,
        "items"@,
        #[trigger] elements(v)[i],
        at_index(p, i),
    ).len() == 0 <==> (member(s, "items"@) matches Some(x) ==> accepts(
        c,
        x,
        elements(v)[i],
        at_index(p, i),
    ))) by {}
    if let Some(x) = member(s, "contains"@) {
        lemma_containing(c, s, v, p, x, n);
        assert(elements(v).take(n as int) =~= elements(v));
    }
    assert(item_issues(c, s, v, p, n).len() == 0 <==> (member(s, "items"@) matches Some(x)
        ==> forall|i: int|
        prefix_len(s) <= i < elements(v).len() ==> accepts(
            c,
            x,
            #[trigger] elements(v)[i],
            at_index(p, i),
        )));
    assert(prefix_issues(c, s, v, p, len_at(s, "prefixItems"@)).len() == 0 <==> (member(
        s,
        "prefixItems"@,
    ) matches Some(JsonView::List(l)) ==> forall|i: int|
        0 <= i < l.len() && i < elements(v).len() ==> accepts(
            c,
            #[trigger] l[i],
            elements(v)[i],
            at_index(p, i),
        )));
    assert(contains_issues(c, s, v, p).len() == 0 <==> (member(s, "contains"@) matches Some(x) ==> {
        let n = elements(v).filter(
            |e: JsonView| accepts(
                c,
                x,
                e,
                Place { path: p.path, refs: Seq::empty(), depth: p.depth },
            ),
        ).len();
        &&& match number_count(s, "minContains"@) {
            Some(min) => min <= n,
            None => 1 <= n,
        }
        &&& number_count(s, "maxContains"@) matches Some(max) ==> n <= max
    }));
    assert(least_issues(s, "minItems"@, n, p).len() == 0 && most_issues(s, "maxItems"@, n, p).len()
        == 0 <==> is_between(s, n, "minItems"@, "maxItems"@));
}

proof fn lemma_combined_met(c: Setting, s: JsonView, v: JsonView, p: Place)
    ensures
        ref_issues(c, s, v, p).len() == 0 && all_issues(c, s, v, p, len_at(s, "allOf"@)).len() == 0
            && any_issues(c, s, v, p).len() == 0 && one_issues(c, s, v, p).len() == 0 && not_issues(
            c,
            s,
            v,
            p,
        ).len() == 0 && if_issues(c, s, v, p).len() == 0 <==> meets_combined(c, s, v, p),
{
    if let Some(l) = list_at(s, "allOf"@) {
        lemma_all_of(c, s, v, p, l, l.len());
    }
    if let Some(l) = list_at(s, "anyOf"@) {
        lemma_met(c, s, "anyOf"@, v, p, l);
    }
    if let Some(l) = list_at(s, "oneOf"@) {
        lemma_met(c, s, "oneOf"@, v, p, l);
    }
    assert(any_issues(c, s, v, p).len() == 0 <==> (member(s, "anyOf"@) matches Some(
        JsonView::List(l),
    ) ==> exists|i: int| 0 <= i < l.len() && accepts(c, #[trigger] l[i], v, p)));
    assert(all_issues(c, s, v, p, len_at(s, "allOf"@)).len() == 0 <==> (member(s, "allOf"@) matches Some(
        JsonView::List(l),
    ) ==> forall|i: int| 0 <= i < l.len() ==> accepts(c, #[trigger] l[i], v, p)));
}

/// A value meets a schema just where it meets each of its keywords.
pub proof fn lemma_accepted_by_each_keyword(c: Setting, s: JsonView, v: JsonView, p: Place)
    requires
        s is Object,
    ensures
        accepts(c, s, v, p) <==> {
            &&& meets_type(s, v)
            &&& meets_values(s, v)
            &&& meets_combined(c, s, v, p)
            &&& match v {
                JsonView::Object(_) => meets_object(c, s, v, p),
                JsonView::List(_) => meets_list(c, s, v, p),
                JsonView::Text(t) => meets_text(s, t),
                JsonView::Number(n) => meets_number(c, s, n),
                _ => true,
            }
        },
{
    lemma_type_met(s, v, p);
    lemma_combined_met(c, s, v, p);
    assert(node_issues(c, s, v, p) == object_schema_issues(c, s, v, p));
    match v {
        JsonView::Object(_) => {
            lemma_object_met(c, s, v, p);
        },
        JsonView::List(_) => {
            lemma_list_met(c, s, v, p);
        },
        JsonView::Text(t) => {
            assert(string_issues(s, t, p).len() == 0 <==> meets_text(s, t));
        },
        JsonView::Number(n) => {
            assert(number_issues(c, s, n, p).len() == 0 <==> meets_number(c, s, n));
        },
        _ => {},
    }
}

proof fn lemma_parts_told(c: Setting, s: JsonView, v: JsonView, p: Place)
    requires
        s is Object,
    ensures
        tells(node_issues(c, s, v, p), ref_issues(c, s, v, p)),
        tells(node_issues(c, s, v, p), all_issues(c, s, v, p, len_at(s, "allOf"@))),
        tells(node_issues(c, s, v, p), if_issues(c, s, v, p)),
        v is Object ==> tells(node_issues(c, s, v, p), object_issues(c, s, v, p)),
        v is List ==> tells(node_issues(c, s, v, p), array_issues(c, s, v, p)),
{
    broadcast use lemma_seq_concat_contains_all_elements;

    assert(node_issues(c, s, v, p) == object_schema_issues(c, s, v, p));
}

/// What is wrong with an element of a list is told at the place of that element: by its schema of
/// `prefixItems`, or else by `items`.
pub proof fn lemma_elements_are_told(c: Setting, s: JsonView, v: JsonView, p: Place, i: int)
    requires
        s is Object,
        v is List,
        0 <= i < elements(v).len(),
    ensures
        member(s, "prefixItems"@) matches Some(JsonView::List(l)) ==> i < l.len() ==> tells(
            node_issues(c, s, v, p),
            node_issues(c, l[i], elements(v)[i], at_index(p, i)),
        ),
        member(s, "items"@) matches Some(x) ==> prefix_len(s) <= i ==> tells(
            node_issues(c, s, v, p),
            node_issues(c, x, elements(v)[i], at_index(p, i)),
        ),
{
    broadcast use lemma_seq_concat_contains_all_elements;

    let n = elements(v).len();
    lemma_parts_told(c, s, v, p);
    lemma_items(c, s, v, p, n);
    let all = array_issues(c, s, v, p);
    assert(tells(all, item_issues(c, s, v, p, n)));
    assert(tells(all, prefix_issues(c, s, v, p, len_at(s, "prefixItems"@))));
    if let Some(l) = list_at(s, "prefixItems"@) {
        lemma_prefix(c, s, v, p, l, l.len());
        if i < l.len() {
            assert(tells(
                prefix_issues(c, s, v, p, l.len()),
                node_issues(c, l[i], elements(v)[i], at_index(p, i)),
            ));
        }
    }
    if member(s, "items"@) is Some && prefix_len(s) <= i {
        assert(tells(
            item_issues(c, s, v, p, n),
            sub_issues(c, s, "items"@, elements(v)[i], at_index(p, i)),
        ));
    }
}

/// What is wrong with a member of an object is told at the place of that member: by `properties`, by
/// `patternProperties` and, where neither is for it, by `additionalProperties`.
pub proof fn lemma_members_are_told(c: Setting, s: JsonView, v: JsonView, p: Place, k: int)
    requires
        s is Object,
        v is Object,
        0 <= k < members(v).len(),
    ensures
        ({
            let key = members(v)[k].key;
            let x = members(v)[k].value;
            let all = node_issues(c, s, v, p);
            &&& member(s, "properties"@) matches Some(JsonView::Object(m)) ==> forall|i: int|
                0 <= i < m.len() && (#[trigger] m[i]).key == key && member(v, key) == Some(x)
                    ==> tells(all, node_issues(c, m[i].value, x, at_key(p, key)))
            &&& member(s, "patternProperties"@) matches Some(JsonView::Object(m)) ==> forall|i: int|
                0 <= i < m.len() && found((#[trigger] m[i]).key, key) ==> tells(
                    all,
                    node_issues(c, m[i].value, x, at_key(p, key)),
                )
            &&& member(s, "additionalProperties"@) matches Some(y) ==> !is_declared(s, key) && !(
            y is Flag) ==> tells(all, node_issues(c, y, x, at_key(p, key)))
        }),
{
    broadcast use lemma_seq_concat_contains_all_elements;

    let n = members(v).len();
    let key = members(v)[k].key;
    let x = members(v)[k].value;
    lemma_parts_told(c, s, v, p);
    let all = object_issues(c, s, v, p);
    assert(tells(all, property_issues(c, s, v, p, width_at(s, "properties"@))));
    assert(tells(all, patterns_issues(c, s, v, p, n)));
    assert(tells(all, additional_issues(c, s, v, p, n)));
    lemma_patterns(c, s, v, p, n);
    lemma_additional(c, s, v, p, n);
    lemma_extra(c, s, key, x, p);
    assert(tells(additional_issues(c, s, v, p, n), extra_issues(c, s, key, x, p)));
    if let Some(m) = object_at(s, "properties"@) {
        lemma_properties(c, s, v, p, m, m.len());
        assert forall|i: int|
            0 <= i < m.len() && (
                #[trigger] m[i]
            ).key == key && member(v, key) == Some(x) implies tells(
            node_issues(c, s, v, p),
            node_issues(c, m[i].value, x, at_key(p, key)),
        ) by {
            assert(tells(
                property_issues(c, s, v, p, m.len()),
                node_issues(c, m[i].value, x, at_key(p, key)),
            ));
        }
    }
    if let Some(m) = object_at(s, "patternProperties"@) {
        lemma_pattern(c, s, key, x, p, m, m.len());
        let mine = pattern_issues(c, s, key, x, p, m.len());
        assert(tells(patterns_issues(c, s, v, p, n), mine));
        assert forall|i: int| 0 <= i < m.len() && found((#[trigger] m[i]).key, key) implies tells(
            node_issues(c, s, v, p),
            node_issues(c, m[i].value, x, at_key(p, key)),
        ) by {
            assert(tells(mine, node_issues(c, m[i].value, x, at_key(p, key))));
        }
    }
    if let Some(y) = member(s, "additionalProperties"@) {
        assert(sub_issues(c, s, "additionalProperties"@, x, at_key(p, key)) == node_issues(
            c,
            y,
            x,
            at_key(p, key),
        ));
    }
}

/// What the schemas of `allOf` say is told, and what `then` or `else` says where it counts.
pub proof fn lemma_branches_are_told(c: Setting, s: JsonView, v: JsonView, p: Place)
    requires
        s is Object,
    ensures
        member(s, "allOf"@) matches Some(JsonView::List(l)) ==> forall|i: int|
            0 <= i < l.len() ==> tells(
                node_issues(c, s, v, p),
                node_issues(c, #[trigger] l[i], v, p),
            ),
        member(s, "if"@) matches Some(x) ==> accepts(c, x, v, p) ==> (member(s, "then"@) matches Some(
            y,
        ) ==> tells(node_issues(c, s, v, p), node_issues(c, y, v, p))),
        member(s, "if"@) matches Some(x) ==> !accepts(c, x, v, p) ==> (member(s, "else"@) matches Some(
            y,
        ) ==> tells(node_issues(c, s, v, p), node_issues(c, y, v, p))),
{
    lemma_parts_told(c, s, v, p);
    if let Some(l) = list_at(s, "allOf"@) {
        lemma_all_of(c, s, v, p, l, l.len());
        assert forall|i: int| 0 <= i < l.len() implies tells(
            node_issues(c, s, v, p),
            node_issues(c, #[trigger] l[i], v, p),
        ) by {
            assert(tells(all_issues(c, s, v, p, l.len()), node_issues(c, l[i], v, p)));
        }
    }
}

} // verus!
