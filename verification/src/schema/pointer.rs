//! JSON Pointers: where in a value another value stands.

use vstd::prelude::*;

use crate::schema::json::{find, lemma_view, lookup, Json, JsonView};
use crate::strings::{
    number, parse_number, part_from, runs, split_chars, split_on, string_of,
};

verus! {

broadcast use vstd::seq::group_seq_axioms;

/// A step of a pointer with its escapes undone: `~1` is a slash, `~0` a tilde.
pub open spec fn unescaped(s: Seq<char>) -> Seq<char>
    decreases s.len(),
{
    if s.len() == 0 {
        s
    } else if s.len() >= 2 && s[0] == '~' && s[1] == '1' {
        seq!['/'] + unescaped(s.skip(2))
    } else if s.len() >= 2 && s[0] == '~' && s[1] == '0' {
        seq!['~'] + unescaped(s.skip(2))
    } else {
        seq![s[0]] + unescaped(s.skip(1))
    }
}

/// The number of an element that a step names: digits without a leading zero.
pub open spec fn step_index(s: Seq<char>) -> Option<nat> {
    if s.len() > 1 && s[0] == '0' {
        None
    } else {
        number(s)
    }
}

/// Where one step leads.
pub open spec fn step(v: JsonView, s: Seq<char>) -> Option<JsonView> {
    match v {
        JsonView::Object(m) => lookup(m, s),
        JsonView::List(l) => match step_index(s) {
            Some(i) => if i < l.len() {
                Some(l[i as int])
            } else {
                None
            },
            None => None,
        },
        _ => None,
    }
}

/// Where the steps from the `i`th on lead.
pub open spec fn walked(v: JsonView, steps: Seq<Seq<char>>, i: int) -> Option<JsonView>
    decreases steps.len() - i,
{
    if i < 0 || i >= steps.len() {
        Some(v)
    } else {
        match step(v, unescaped(steps[i])) {
            Some(w) => walked(w, steps, i + 1),
            None => None,
        }
    }
}

/// What a pointer points to. The empty pointer points to the whole value, and any other one
/// starts with a slash.
pub open spec fn pointed(v: JsonView, pointer: Seq<char>) -> Option<JsonView> {
    if pointer.len() == 0 {
        Some(v)
    } else if pointer[0] != '/' {
        None
    } else {
        walked(v, split_on(pointer.skip(1), '/'), 0)
    }
}

/// Undoes the escapes of a step.
fn unescape(s: &[char]) -> (r: Vec<char>)
    ensures
        r@ == unescaped(s@),
{
    let mut r: Vec<char> = Vec::new();
    let n: usize = s.len();
    let mut i: usize = 0;
    assert(s@.skip(0) =~= s@);
    while i < n
        invariant
            i <= n,
            n == s@.len(),
            r@ + unescaped(s@.skip(i as int)) == unescaped(s@),
        decreases n - i,
    {
        let ghost rest = s@.skip(i as int);
        let ghost before = r@;
        assert(rest[0] == s@[i as int]);
        if i < n - 1 && s[i] == '~' && s[i + 1] == '1' {
            assert(rest.skip(2) =~= s@.skip(i + 2));
            r.push('/');
            assert(before + (seq!['/'] + unescaped(rest.skip(2))) =~= r@ + unescaped(rest.skip(2)));
            i += 2;
        } else if i < n - 1 && s[i] == '~' && s[i + 1] == '0' {
            assert(rest.skip(2) =~= s@.skip(i + 2));
            r.push('~');
            assert(before + (seq!['~'] + unescaped(rest.skip(2))) =~= r@ + unescaped(rest.skip(2)));
            i += 2;
        } else {
            assert(rest.skip(1) =~= s@.skip(i + 1));
            let c = s[i];
            r.push(c);
            assert(before + (seq![c] + unescaped(rest.skip(1))) =~= r@ + unescaped(rest.skip(1)));
            i += 1;
        }
    }
    assert(s@.skip(n as int) =~= Seq::<char>::empty());
    assert(r@ + Seq::<char>::empty() =~= r@);
    r
}

/// Takes one step.
fn take_step<'a>(v: &'a Json, s: &[char]) -> (r: Option<&'a Json>)
    ensures
        match r {
            Some(x) => step(v@, s@) == Some(x@),
            None => step(v@, s@) is None,
        },
{
    proof {
        lemma_view(*v);
    }
    match v {
        Json::Object(m) => {
            let key = string_of(s);
            find(m, key.as_str())
        },
        Json::List(l) => {
            if s.len() > 1 && s[0] == '0' {
                return None;
            }
            match parse_number(s) {
                Some(i) => if i < l.len() {
                    Some(&l[i])
                } else {
                    None
                },
                None => None,
            }
        },
        _ => None,
    }
}

/// What a pointer points to.
pub fn resolve<'a>(v: &'a Json, pointer: &[char]) -> (r: Option<&'a Json>)
    ensures
        match r {
            Some(x) => pointed(v@, pointer@) == Some(x@),
            None => pointed(v@, pointer@) is None,
        },
{
    if pointer.len() == 0 {
        return Some(v);
    }
    if pointer[0] != '/' {
        return None;
    }
    let rest = part_from(pointer, 1);
    assert(rest@ =~= pointer@.skip(1));
    let steps = split_chars(rest, '/');
    let ghost all = split_on(pointer@.skip(1), '/');
    let mut at: &'a Json = v;
    let mut i: usize = 0;
    while i < steps.len()
        invariant
            i <= steps@.len(),
            runs(steps@) == all,
            walked(v@, all, 0) == walked(at@, all, i as int),
            pointed(v@, pointer@) == walked(v@, all, 0),
        decreases steps@.len() - i,
    {
        assert(all[i as int] == steps@[i as int]@);
        let name = unescape(steps[i].as_slice());
        match take_step(at, name.as_slice()) {
            Some(w) => {
                at = w;
            },
            None => {
                return None;
            },
        }
        i += 1;
    }
    Some(at)
}

} // verus!
