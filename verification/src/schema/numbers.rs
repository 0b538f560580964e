//! The numbers in a value.

use vstd::prelude::*;

use crate::schema::json::{
    elements, lemma_elements_smaller, lemma_in_list, lemma_in_object, lemma_members_smaller,
    lemma_view, list_view, members, members_view, Json, JsonView,
};

verus! {

broadcast use vstd::seq::group_seq_axioms;

/// The numbers in a value, as doubles, in the order in which they stand there.
pub open spec fn numbers_in(v: JsonView) -> Seq<u64>
    decreases v, 1nat, 0nat,
{
    match v {
        JsonView::Number(n) => seq![n.bits],
        JsonView::List(l) => list_numbers(v, l.len()),
        JsonView::Object(m) => object_numbers(v, m.len()),
        _ => Seq::empty(),
    }
}

/// The numbers in the first `n` elements.
pub open spec fn list_numbers(v: JsonView, n: nat) -> Seq<u64>
    decreases v, 0nat, n,
{
    if 0 < n <= elements(v).len() {
        proof {
            lemma_elements_smaller(v, n - 1);
        }
        list_numbers(v, (n - 1) as nat) + numbers_in(elements(v)[n - 1])
    } else {
        Seq::empty()
    }
}

/// The numbers in the first `n` members.
pub open spec fn object_numbers(v: JsonView, n: nat) -> Seq<u64>
    decreases v, 0nat, n,
{
    if 0 < n <= members(v).len() {
        proof {
            lemma_members_smaller(v, n - 1);
        }
        object_numbers(v, (n - 1) as nat) + numbers_in(members(v)[n - 1].value)
    } else {
        Seq::empty()
    }
}

/// Adds the numbers in a value, as doubles, to `out`.
pub fn collect_numbers(value: &Json, out: &mut Vec<u64>)
    ensures
        final(out)@ == old(out)@ + numbers_in(value@),
    decreases value,
{
    proof {
        lemma_view(*value);
    }
    match value {
        Json::Number(n) => {
            out.push(n.bits);
            assert(out@ =~= old(out)@ + seq![n.bits]);
        },
        Json::List(l) => {
            let n: usize = l.len();
            let mut i: usize = 0;
            assert(out@ =~= old(out)@ + list_numbers(value@, 0));
            while i < n
                invariant
                    i <= n,
                    n == l@.len(),
                    value == Json::List(*l),
                    value@ == JsonView::List(list_view(l@)),
                    out@ == old(out)@ + list_numbers(value@, i as nat),
                decreases n - i,
            {
                proof {
                    lemma_in_list(*value, *l, i as int);
                }
                assert(list_view(l@)[i as int] == l@[i as int]@);
                let ghost front = list_numbers(value@, i as nat);
                collect_numbers(&l[i], out);
                i += 1;
                assert(out@ =~= old(out)@ + (front + numbers_in(l@[i - 1]@)));
            }
        },
        Json::Object(m) => {
            let n: usize = m.len();
            let mut i: usize = 0;
            assert(out@ =~= old(out)@ + object_numbers(value@, 0));
            while i < n
                invariant
                    i <= n,
                    n == m@.len(),
                    value == Json::Object(*m),
                    value@ == JsonView::Object(members_view(m@)),
                    out@ == old(out)@ + object_numbers(value@, i as nat),
                decreases n - i,
            {
                proof {
                    lemma_in_object(*value, *m, i as int);
                }
                assert(members_view(m@)[i as int] == m@[i as int]@);
                let ghost front = object_numbers(value@, i as nat);
                collect_numbers(&m[i].value, out);
                i += 1;
                assert(out@ =~= old(out)@ + (front + numbers_in(m@[i - 1].value@)));
            }
        },
        _ => {
            assert(out@ =~= old(out)@ + Seq::<u64>::empty());
        },
    }
}

} // verus!
