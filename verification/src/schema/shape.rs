//! What a schema has to look like.

use vstd::prelude::*;

use crate::regexes::pattern_error;
use crate::schema::error::SchemaErrorView;
use crate::schema::json::{
    as_unsigned, is_finite, is_whole, lemma_member_smaller, member, members, order_key, JsonView,
    MemberView,
};
use crate::schema::rules::{
    lemma_list_smaller, lemma_object_smaller, list_at, object_at, ref_target, text_at, type_named,
    MAX_REF_DEPTH,
};
use crate::strings::dec;

verus! {

broadcast use vstd::seq::group_seq_axioms;

/// A keyword with a value that it cannot have.
pub open spec fn invalid(pointer: Seq<char>, keyword: Seq<char>, reason: Seq<char>) -> Option<
    SchemaErrorView,
> {
    Some(SchemaErrorView::InvalidKeyword { pointer, keyword, reason })
}

/// The first error of two.
pub open spec fn first(a: Option<SchemaErrorView>, b: Option<SchemaErrorView>) -> Option<
    SchemaErrorView,
> {
    if a is Some {
        a
    } else {
        b
    }
}

/// The first of the first `n` names in a list that is no name of a type.
pub open spec fn unknown_type(l: Seq<JsonView>, n: nat) -> Option<Seq<char>>
    decreases n,
{
    if 0 < n <= l.len() {
        match unknown_type(l, (n - 1) as nat) {
            Some(name) => Some(name),
            None => match l[n - 1] {
                JsonView::Text(name) => if type_named(name) is None {
                    Some(name)
                } else {
                    None
                },
                _ => None,
            },
        }
    } else {
        None
    }
}

/// What is said of a name that is no name of a type.
pub open spec fn unknown_type_text(name: Seq<char>) -> Seq<char> {
    "未知的类型名 \""@ + name
        + "\"（必须是 null|boolean|object|array|number|integer|string 之一）"@
}

/// Whether all elements are strings.
pub open spec fn all_texts(l: Seq<JsonView>) -> bool {
    forall|i: int| 0 <= i < l.len() ==> (#[trigger] l[i]) is Text
}

/// `type` is a name of a type or a list of them.
pub open spec fn type_error(s: JsonView, pointer: Seq<char>) -> Option<SchemaErrorView> {
    match member(s, "type"@) {
        None => None,
        Some(JsonView::Text(name)) => if type_named(name) is None {
            invalid(pointer, "type"@, unknown_type_text(name))
        } else {
            None
        },
        Some(JsonView::List(l)) => if !all_texts(l) {
            invalid(pointer, "type"@, "数组元素必须是字符串"@)
        } else {
            match unknown_type(l, l.len()) {
                Some(name) => invalid(pointer, "type"@, unknown_type_text(name)),
                None => None,
            }
        },
        Some(_) => invalid(pointer, "type"@, "必须是字符串或字符串数组"@),
    }
}

/// A keyword that is a list with something in it.
pub open spec fn list_error(s: JsonView, key: Seq<char>, pointer: Seq<char>) -> Option<
    SchemaErrorView,
> {
    match member(s, key) {
        None => None,
        Some(JsonView::List(l)) => if l.len() == 0 {
            invalid(pointer, key, "不能是空数组"@)
        } else {
            None
        },
        Some(_) => invalid(pointer, key, "必须是数组"@),
    }
}

/// A keyword that is a list of strings.
pub open spec fn texts_error(s: JsonView, key: Seq<char>, pointer: Seq<char>) -> Option<
    SchemaErrorView,
> {
    match member(s, key) {
        None => None,
        Some(JsonView::List(l)) => if all_texts(l) {
            None
        } else {
            invalid(pointer, key, "必须是字符串数组"@)
        },
        Some(_) => invalid(pointer, key, "必须是字符串数组"@),
    }
}

/// A keyword that is a boolean.
pub open spec fn flag_error(s: JsonView, key: Seq<char>, pointer: Seq<char>) -> Option<
    SchemaErrorView,
> {
    match member(s, key) {
        None => None,
        Some(JsonView::Flag(_)) => None,
        Some(_) => invalid(pointer, key, "必须是布尔值"@),
    }
}

/// A keyword that is a whole number, not negative, however it is written.
pub open spec fn count_error(s: JsonView, key: Seq<char>, pointer: Seq<char>) -> Option<
    SchemaErrorView,
> {
    match member(s, key) {
        None => None,
        Some(JsonView::Number(n)) => if as_unsigned(JsonView::Number(n)) is Some || (is_finite(
            n.bits,
        ) && order_key(n.bits) >= 0 && is_whole(n.bits)) {
            None
        } else {
            invalid(pointer, key, "必须是非负整数"@)
        },
        Some(_) => invalid(pointer, key, "必须是非负整数"@),
    }
}

/// A keyword that is a number.
pub open spec fn number_error(s: JsonView, key: Seq<char>, pointer: Seq<char>) -> Option<
    SchemaErrorView,
> {
    match member(s, key) {
        None => None,
        Some(JsonView::Number(_)) => None,
        Some(_) => invalid(pointer, key, "必须是数值"@),
    }
}

/// A keyword that is a number above zero.
pub open spec fn positive_error(s: JsonView, key: Seq<char>, pointer: Seq<char>) -> Option<
    SchemaErrorView,
> {
    match member(s, key) {
        None => None,
        Some(JsonView::Number(n)) => if is_finite(n.bits) && order_key(n.bits) > 0 {
            None
        } else {
            invalid(pointer, key, "必须是大于 0 的数值"@)
        },
        Some(_) => invalid(pointer, key, "必须是大于 0 的数值"@),
    }
}

/// The name of the first of the first `n` members that is no list of strings.
pub open spec fn bad_siblings(m: Seq<MemberView>, n: nat) -> Option<Seq<char>>
    decreases n,
{
    if 0 < n <= m.len() {
        match bad_siblings(m, (n - 1) as nat) {
            Some(name) => Some(name),
            None => match m[n - 1].value {
                JsonView::List(l) => if all_texts(l) {
                    None
                } else {
                    Some(m[n - 1].key)
                },
                _ => Some(m[n - 1].key),
            },
        }
    } else {
        None
    }
}

/// `dependentRequired` is an object of lists of strings.
pub open spec fn dependent_error(s: JsonView, pointer: Seq<char>) -> Option<SchemaErrorView> {
    match member(s, "dependentRequired"@) {
        None => None,
        Some(JsonView::Object(m)) => match bad_siblings(m, m.len()) {
            Some(name) => invalid(
                pointer,
                "dependentRequired"@,
                "\""@ + name + "\" 对应的值必须是字符串数组"@,
            ),
            None => None,
        },
        Some(_) => invalid(
            pointer,
            "dependentRequired"@,
            "必须是对象（属性名 -> 字符串数组的映射）"@,
        ),
    }
}

/// The keywords that are counts.
pub open spec fn counts_error(s: JsonView, pointer: Seq<char>) -> Option<SchemaErrorView> {
    first(
        count_error(s, "minLength"@, pointer),
        first(
            count_error(s, "maxLength"@, pointer),
            first(
                count_error(s, "minItems"@, pointer),
                first(
                    count_error(s, "maxItems"@, pointer),
                    first(
                        count_error(s, "minProperties"@, pointer),
                        first(
                            count_error(s, "maxProperties"@, pointer),
                            first(
                                count_error(s, "minContains"@, pointer),
                                count_error(s, "maxContains"@, pointer),
                            ),
                        ),
                    ),
                ),
            ),
        ),
    )
}

/// The keywords that are bounds.
pub open spec fn bounds_error(s: JsonView, pointer: Seq<char>) -> Option<SchemaErrorView> {
    first(
        number_error(s, "minimum"@, pointer),
        first(
            number_error(s, "maximum"@, pointer),
            first(
                number_error(s, "exclusiveMinimum"@, pointer),
                number_error(s, "exclusiveMaximum"@, pointer),
            ),
        ),
    )
}

/// The keywords that hold no schema and refer to none.
pub open spec fn shape_error(s: JsonView, pointer: Seq<char>) -> Option<SchemaErrorView> {
    first(
        type_error(s, pointer),
        first(
            list_error(s, "enum"@, pointer),
            first(
                texts_error(s, "required"@, pointer),
                first(
                    flag_error(s, "uniqueItems"@, pointer),
                    first(
                        counts_error(s, pointer),
                        first(
                            bounds_error(s, pointer),
                            first(
                                positive_error(s, "multipleOf"@, pointer),
                                dependent_error(s, pointer),
                            ),
                        ),
                    ),
                ),
            ),
        ),
    )
}

/// A regular expression that the engine accepts.
pub open spec fn regex_error(pattern: Seq<char>, pointer: Seq<char>) -> Option<SchemaErrorView> {
    match pattern_error(pattern) {
        Some(problem) => invalid(
            pointer,
            "pattern"@,
            "regex 引擎无法编译（可能用了 ECMA-262 专有语法）："@ + problem,
        ),
        None => None,
    }
}

/// `pattern` is a regular expression.
pub open spec fn pattern_keyword_error(s: JsonView, pointer: Seq<char>) -> Option<SchemaErrorView> {
    match member(s, "pattern"@) {
        None => None,
        Some(JsonView::Text(pattern)) => regex_error(pattern, pointer),
        Some(_) => invalid(pointer, "pattern"@, "必须是字符串"@),
    }
}

/// The reference of a node that is nothing but a reference.
pub open spec fn bare_ref(s: JsonView) -> Option<Seq<char>> {
    if members(s).len() == 1 {
        text_at(s, "$ref"@)
    } else {
        None
    }
}

/// Whether a reference leads through `n` nodes that are nothing but references.
pub open spec fn is_chain(root: JsonView, reference: Seq<char>, n: nat) -> bool
    decreases n,
{
    n == 0 || match ref_target(root, reference) {
        Some(target) => match bare_ref(target) {
            Some(next) => is_chain(root, next, (n - 1) as nat),
            None => false,
        },
        None => false,
    }
}

/// `$ref` points to something in this schema, and not through too many other references.
pub open spec fn ref_error(s: JsonView, root: JsonView, pointer: Seq<char>) -> Option<
    SchemaErrorView,
> {
    match member(s, "$ref"@) {
        None => None,
        Some(JsonView::Text(reference)) => if ref_target(root, reference) is None {
            Some(SchemaErrorView::UnresolvableRef { pointer, reference })
        } else if is_chain(root, reference, MAX_REF_DEPTH as nat) {
            Some(SchemaErrorView::RefDepthExceeded { reference })
        } else {
            None
        },
        Some(_) => invalid(pointer, "$ref"@, "必须是字符串"@),
    }
}

/// What is found in a schema: the first error, and which keywords without effect are there.
pub struct Findings {
    pub error: Option<SchemaErrorView>,
    /// Whether `unevaluatedProperties` is there.
    pub properties: bool,
    /// Whether `unevaluatedItems` is there.
    pub items: bool,
}

/// Nothing but an error, or not even that.
pub open spec fn only(error: Option<SchemaErrorView>) -> Findings {
    Findings { error, properties: false, items: false }
}

/// What is found in one part and then in another.
pub open spec fn both(a: Findings, b: Findings) -> Findings {
    if a.error is Some {
        a
    } else {
        Findings {
            error: b.error,
            properties: a.properties || b.properties,
            items: a.items || b.items,
        }
    }
}

/// What is found in a node itself.
pub open spec fn own_findings(s: JsonView, root: JsonView, pointer: Seq<char>) -> Findings {
    Findings {
        error: first(
            shape_error(s, pointer),
            first(pattern_keyword_error(s, pointer), ref_error(s, root, pointer)),
        ),
        properties: member(s, "unevaluatedProperties"@) is Some,
        items: member(s, "unevaluatedItems"@) is Some,
    }
}

/// A pointer with a step more.
pub open spec fn below(pointer: Seq<char>, step: Seq<char>) -> Seq<char> {
    pointer + "/"@ + step
}

/// What is found in a schema.
pub open spec fn findings(pointer: Seq<char>, s: JsonView, root: JsonView) -> Findings
    decreases s, 9nat, 0nat,
{
    match s {
        JsonView::Flag(_) => only(None),
        JsonView::Object(_) => both(
            own_findings(s, root, pointer),
            both(maps_findings(pointer, s, root), subs_findings(pointer, s, root)),
        ),
        _ => only(Some(SchemaErrorView::NotAnObjectOrBool { pointer })),
    }
}

/// The keywords that are objects of schemas.
pub open spec fn maps_findings(pointer: Seq<char>, s: JsonView, root: JsonView) -> Findings
    decreases s, 8nat, 0nat,
{
    both(
        map_findings(pointer, s, "properties"@, root),
        both(
            map_findings(pointer, s, "dependentSchemas"@, root),
            both(
                map_findings(pointer, s, "$defs"@, root),
                both(
                    map_findings(pointer, s, "definitions"@, root),
                    pattern_map_findings(pointer, s, root),
                ),
            ),
        ),
    )
}

/// The keywords that are schemas or lists of schemas.
pub open spec fn subs_findings(pointer: Seq<char>, s: JsonView, root: JsonView) -> Findings
    decreases s, 8nat, 0nat,
{
    both(
        single_findings(pointer, s, root),
        both(
            prefix_findings(pointer, s, root),
            both(
                branch_findings(pointer, s, "allOf"@, root),
                both(
                    branch_findings(pointer, s, "anyOf"@, root),
                    branch_findings(pointer, s, "oneOf"@, root),
                ),
            ),
        ),
    )
}

/// The keywords that are schemas.
pub open spec fn single_findings(pointer: Seq<char>, s: JsonView, root: JsonView) -> Findings
    decreases s, 7nat, 0nat,
{
    both(
        sub_findings(pointer, s, "additionalProperties"@, root),
        both(
            sub_findings(pointer, s, "propertyNames"@, root),
            both(
                sub_findings(pointer, s, "items"@, root),
                both(
                    sub_findings(pointer, s, "contains"@, root),
                    both(
                        sub_findings(pointer, s, "not"@, root),
                        both(
                            sub_findings(pointer, s, "if"@, root),
                            both(
                                sub_findings(pointer, s, "then"@, root),
                                sub_findings(pointer, s, "else"@, root),
                            ),
                        ),
                    ),
                ),
            ),
        ),
    )
}

/// A keyword that is an object of schemas.
pub open spec fn map_findings(
    pointer: Seq<char>,
    s: JsonView,
    key: Seq<char>,
    root: JsonView,
) -> Findings
    decreases s, 5nat, 0nat,
{
    match member(s, key) {
        None => only(None),
        Some(JsonView::Object(m)) => values_findings(pointer, s, key, root, m.len()),
        Some(_) => only(
            invalid(pointer, key, "必须是对象（名字 -> 子 schema 的映射）"@),
        ),
    }
}

/// The first `n` schemas of an object of them.
pub open spec fn values_findings(
    pointer: Seq<char>,
    s: JsonView,
    key: Seq<char>,
    root: JsonView,
    n: nat,
) -> Findings
    decreases s, 0nat, n,
{
    match object_at(s, key) {
        Some(m) => if 0 < n <= m.len() {
            proof {
                lemma_object_smaller(s, key, n - 1);
            }
            both(
                values_findings(pointer, s, key, root, (n - 1) as nat),
                findings(below(below(pointer, key), m[n - 1].key), m[n - 1].value, root),
            )
        } else {
            only(None)
        },
        None => only(None),
    }
}

/// `patternProperties` is an object of schemas by regular expressions.
pub open spec fn pattern_map_findings(pointer: Seq<char>, s: JsonView, root: JsonView) -> Findings
    decreases s, 5nat, 0nat,
{
    match member(s, "patternProperties"@) {
        None => only(None),
        Some(JsonView::Object(m)) => patterns_findings(pointer, s, root, m.len()),
        Some(_) => only(
            invalid(
                pointer,
                "patternProperties"@,
                "必须是对象（正则 -> 子 schema 的映射）"@,
            ),
        ),
    }
}

/// The first `n` members of `patternProperties`.
pub open spec fn patterns_findings(
    pointer: Seq<char>,
    s: JsonView,
    root: JsonView,
    n: nat,
) -> Findings
    decreases s, 0nat, n,
{
    match object_at(s, "patternProperties"@) {
        Some(m) => if 0 < n <= m.len() {
            proof {
                lemma_object_smaller(s, "patternProperties"@, n - 1);
            }
            both(
                patterns_findings(pointer, s, root, (n - 1) as nat),
                both(
                    only(regex_error(m[n - 1].key, pointer)),
                    findings(
                        below(below(pointer, "patternProperties"@), m[n - 1].key),
                        m[n - 1].value,
                        root,
                    ),
                ),
            )
        } else {
            only(None)
        },
        None => only(None),
    }
}

/// A keyword that is a schema.
pub open spec fn sub_findings(
    pointer: Seq<char>,
    s: JsonView,
    key: Seq<char>,
    root: JsonView,
) -> Findings
    decreases s, 0nat, 0nat,
{
    match member(s, key) {
        Some(x) => {
            proof {
                lemma_member_smaller(s, key);
            }
            findings(below(pointer, key), x, root)
        },
        None => only(None),
    }
}

/// `prefixItems` is a list of schemas.
pub open spec fn prefix_findings(pointer: Seq<char>, s: JsonView, root: JsonView) -> Findings
    decreases s, 5nat, 0nat,
{
    match member(s, "prefixItems"@) {
        None => only(None),
        Some(JsonView::List(l)) => elements_findings(pointer, s, "prefixItems"@, root, l.len()),
        Some(_) => only(invalid(pointer, "prefixItems"@, "必须是数组"@)),
    }
}

/// A keyword that is a list of schemas, at least one.
pub open spec fn branch_findings(
    pointer: Seq<char>,
    s: JsonView,
    key: Seq<char>,
    root: JsonView,
) -> Findings
    decreases s, 5nat, 0nat,
{
    match list_error(s, key, pointer) {
        Some(e) => only(Some(e)),
        None => match list_at(s, key) {
            Some(l) => elements_findings(pointer, s, key, root, l.len()),
            None => only(None),
        },
    }
}

/// The first `n` schemas of a list of them.
pub open spec fn elements_findings(
    pointer: Seq<char>,
    s: JsonView,
    key: Seq<char>,
    root: JsonView,
    n: nat,
) -> Findings
    decreases s, 0nat, n,
{
    match list_at(s, key) {
        Some(l) => if 0 < n <= l.len() {
            proof {
                lemma_list_smaller(s, key, n - 1);
            }
            both(
                elements_findings(pointer, s, key, root, (n - 1) as nat),
                findings(below(below(pointer, key), dec((n - 1) as nat)), l[n - 1], root),
            )
        } else {
            only(None)
        },
        None => only(None),
    }
}

} // verus!
