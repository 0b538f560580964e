//! The order of texts and of lists of texts.

use vstd::prelude::*;

use crate::strings::{chars_of, texts};

verus! {

broadcast use vstd::seq::group_seq_axioms;

/// How two things stand to each other.
#[derive(Debug, Clone, Copy, PartialEq, Eq, Structural)]
pub enum Rank {
    Before,
    Same,
    After,
}

/// Whether a text comes before another: by the first character in which they differ, and a text
/// before those that it is the start of.
pub open spec fn text_before(a: Seq<char>, b: Seq<char>) -> bool
    decreases b.len(),
{
    if b.len() == 0 {
        false
    } else if a.len() == 0 {
        true
    } else if a[0] != b[0] {
        a[0] < b[0]
    } else {
        text_before(a.drop_first(), b.drop_first())
    }
}

/// Whether a list comes before another: by the first text in which they differ, and a list before
/// those that it is the start of.
pub open spec fn list_before(a: Seq<Seq<char>>, b: Seq<Seq<char>>) -> bool
    decreases b.len(),
{
    if b.len() == 0 {
        false
    } else if a.len() == 0 {
        true
    } else if a[0] != b[0] {
        text_before(a[0], b[0])
    } else {
        list_before(a.drop_first(), b.drop_first())
    }
}

/// Of two texts that differ one comes before the other, and only one does.
pub proof fn lemma_text_total(a: Seq<char>, b: Seq<char>)
    ensures
        a == b || text_before(a, b) || text_before(b, a),
        !(text_before(a, b) && text_before(b, a)),
        a == b ==> !text_before(a, b),
    decreases a.len(),
{
    if a.len() > 0 && b.len() > 0 {
        if a[0] == b[0] {
            lemma_text_total(a.drop_first(), b.drop_first());
            if a.drop_first() == b.drop_first() {
                assert(a =~= seq![a[0]] + a.drop_first());
                assert(b =~= seq![b[0]] + b.drop_first());
            }
        }
    } else if a.len() == 0 && b.len() == 0 {
        assert(a =~= b);
    }
}

pub proof fn lemma_text_transitive(a: Seq<char>, b: Seq<char>, c: Seq<char>)
    requires
        text_before(a, b),
        text_before(b, c),
    ensures
        text_before(a, c),
    decreases a.len(),
{
    if a.len() > 0 && a[0] == b[0] && b[0] == c[0] {
        lemma_text_transitive(a.drop_first(), b.drop_first(), c.drop_first());
    }
}

/// Of two lists that differ one comes before the other, and only one does.
pub proof fn lemma_list_total(a: Seq<Seq<char>>, b: Seq<Seq<char>>)
    ensures
        a == b || list_before(a, b) || list_before(b, a),
        !(list_before(a, b) && list_before(b, a)),
        a == b ==> !list_before(a, b),
    decreases a.len(),
{
    if a.len() > 0 && b.len() > 0 {
        lemma_text_total(a[0], b[0]);
        if a[0] == b[0] {
            lemma_list_total(a.drop_first(), b.drop_first());
            if a.drop_first() == b.drop_first() {
                assert(a =~= seq![a[0]] + a.drop_first());
                assert(b =~= seq![b[0]] + b.drop_first());
            }
        }
    } else if a.len() == 0 && b.len() == 0 {
        assert(a =~= b);
    }
}

pub proof fn lemma_list_transitive(a: Seq<Seq<char>>, b: Seq<Seq<char>>, c: Seq<Seq<char>>)
    requires
        list_before(a, b),
        list_before(b, c),
    ensures
        list_before(a, c),
    decreases a.len(),
{
    if a.len() > 0 {
        if a[0] == b[0] && b[0] == c[0] {
            lemma_list_transitive(a.drop_first(), b.drop_first(), c.drop_first());
        } else if a[0] != b[0] && b[0] != c[0] {
            lemma_text_transitive(a[0], b[0], c[0]);
            lemma_text_total(a[0], c[0]);
            lemma_text_total(a[0], b[0]);
        }
    }
}

/// How two texts stand to each other.
pub open spec fn text_rank(a: Seq<char>, b: Seq<char>) -> Rank {
    if a == b {
        Rank::Same
    } else if text_before(a, b) {
        Rank::Before
    } else {
        Rank::After
    }
}

/// How two lists stand to each other.
pub open spec fn list_rank(a: Seq<Seq<char>>, b: Seq<Seq<char>>) -> Rank {
    if a == b {
        Rank::Same
    } else if list_before(a, b) {
        Rank::Before
    } else {
        Rank::After
    }
}

/// How two texts stand to each other.
pub fn rank_texts(a: &str, b: &str) -> (r: Rank)
    ensures
        r == text_rank(a@, b@),
{
    let x = chars_of(a);
    let y = chars_of(b);
    let mut i: usize = 0;
    assert(x@.skip(0) =~= x@ && y@.skip(0) =~= y@);
    while i < x.len() && i < y.len()
        invariant
            i <= x@.len(),
            i <= y@.len(),
            x@ == a@,
            y@ == b@,
            forall|j: int| 0 <= j < i ==> x@[j] == y@[j],
            text_before(a@, b@) == text_before(x@.skip(i as int), y@.skip(i as int)),
        decreases x@.len() - i,
    {
        proof {
            assert(x@.skip(i as int).drop_first() =~= x@.skip(i + 1));
            assert(y@.skip(i as int).drop_first() =~= y@.skip(i + 1));
        }
        if x[i] != y[i] {
            assert(a@[i as int] != b@[i as int]);
            return if x[i] < y[i] {
                Rank::Before
            } else {
                Rank::After
            };
        }
        i += 1;
    }
    if x.len() == y.len() {
        assert(a@ =~= b@);
        Rank::Same
    } else if x.len() < y.len() {
        Rank::Before
    } else {
        Rank::After
    }
}

/// How two lists stand to each other.
pub fn rank_lists(a: &Vec<String>, b: &Vec<String>) -> (r: Rank)
    ensures
        r == list_rank(texts(a@), texts(b@)),
{
    let ghost x = texts(a@);
    let ghost y = texts(b@);
    let mut i: usize = 0;
    assert(x.skip(0) =~= x && y.skip(0) =~= y);
    while i < a.len() && i < b.len()
        invariant
            i <= a@.len(),
            i <= b@.len(),
            x == texts(a@),
            y == texts(b@),
            forall|j: int| 0 <= j < i ==> x[j] == y[j],
            list_before(x, y) == list_before(x.skip(i as int), y.skip(i as int)),
        decreases a@.len() - i,
    {
        proof {
            assert(x.skip(i as int).drop_first() =~= x.skip(i + 1));
            assert(y.skip(i as int).drop_first() =~= y.skip(i + 1));
            assert(x[i as int] == a@[i as int]@ && y[i as int] == b@[i as int]@);
        }
        let here = rank_texts(a[i].as_str(), b[i].as_str());
        if here != Rank::Same {
            assert(x[i as int] != y[i as int]);
            return here;
        }
        i += 1;
    }
    if a.len() == b.len() {
        assert(x =~= y);
        Rank::Same
    } else if a.len() < b.len() {
        Rank::Before
    } else {
        Rank::After
    }
}

/// Of two texts that are the same up to a place, the one that ends there comes before the one that
/// goes on, and else the lesser character decides.
pub proof fn lemma_first_difference_decides(a: Seq<char>, b: Seq<char>, k: int)
    requires
        0 <= k <= a.len(),
        k <= b.len(),
        a.take(k) == b.take(k),
    ensures
        k == b.len() ==> !text_before(a, b),
        k == a.len() && k < b.len() ==> text_before(a, b),
        k < a.len() && k < b.len() && a[k] != b[k] ==> text_before(a, b) == (a[k] < b[k]),
    decreases k,
{
    if k > 0 {
        let front = a.take(k);
        assert(front[0] == a[0]);
        assert(b.take(k)[0] == b[0]);
        let x = a.drop_first();
        let y = b.drop_first();
        assert forall|i: int| 0 <= i < k - 1 implies x[i] == y[i] by {
            assert(a.take(k)[i + 1] == b.take(k)[i + 1]);
            assert(a.take(k)[i + 1] == a[i + 1]);
            assert(b.take(k)[i + 1] == b[i + 1]);
            assert(x[i] == a[i + 1]);
            assert(y[i] == b[i + 1]);
        }
        assert(x.take(k - 1) =~= y.take(k - 1));
        lemma_first_difference_decides(x, y, k - 1);
    }
}

/// Of two lists that are the same up to a place, the one that ends there comes before the one that
/// goes on, and else the texts at that place decide.
pub proof fn lemma_first_different_text_decides(a: Seq<Seq<char>>, b: Seq<Seq<char>>, k: int)
    requires
        0 <= k <= a.len(),
        k <= b.len(),
        a.take(k) == b.take(k),
    ensures
        k == b.len() ==> !list_before(a, b),
        k == a.len() && k < b.len() ==> list_before(a, b),
        k < a.len() && k < b.len() && a[k] != b[k] ==> list_before(a, b) == text_before(a[k], b[k]),
    decreases k,
{
    if k > 0 {
        let front = a.take(k);
        assert(front[0] == a[0]);
        assert(b.take(k)[0] == b[0]);
        let x = a.drop_first();
        let y = b.drop_first();
        assert forall|i: int| 0 <= i < k - 1 implies x[i] == y[i] by {
            assert(a.take(k)[i + 1] == b.take(k)[i + 1]);
            assert(a.take(k)[i + 1] == a[i + 1]);
            assert(b.take(k)[i + 1] == b[i + 1]);
            assert(x[i] == a[i + 1]);
            assert(y[i] == b[i + 1]);
        }
        assert(x.take(k - 1) =~= y.take(k - 1));
        lemma_first_different_text_decides(x, y, k - 1);
    }
}

} // verus!
