//! Digests: numbers by which equal things are found quickly.

use vstd::prelude::*;

use crate::strings::{chars_of, texts};

verus! {

broadcast use vstd::seq::group_seq_axioms;

/// A number whose bits each depend on many bits of `z`.
pub open spec fn spread(z: u64) -> u64 {
    let a = (z ^ (z >> 32)).wrapping_mul(0xd6e8_feb8_6659_fd93);
    a ^ (a >> 32)
}

/// Takes one more number into a digest. The two go in by different ways, so that what one has more
/// and the other less does not cancel out.
pub open spec fn mixed(h: u64, x: u64) -> u64 {
    spread(h.wrapping_mul(0x9e37_79b9_7f4a_7c15) ^ x)
}

/// Takes one more number into a digest.
pub fn mix(h: u64, x: u64) -> (r: u64)
    ensures
        r == mixed(h, x),
{
    let z: u64 = h.wrapping_mul(0x9e37_79b9_7f4a_7c15) ^ x;
    let a: u64 = (z ^ (z >> 32)).wrapping_mul(0xd6e8_feb8_6659_fd93);
    a ^ (a >> 32)
}

/// The digest of a text.
pub open spec fn text_digest(s: Seq<char>) -> u64
    decreases s.len(),
{
    if s.len() == 0 {
        mixed(3, 0)
    } else {
        mixed(text_digest(s.drop_last()), s.last() as u64)
    }
}

/// The digest of a text.
pub fn hash_text(s: &str) -> (r: u64)
    ensures
        r == text_digest(s@),
{
    let letters = chars_of(s);
    let mut r: u64 = mix(3, 0);
    let mut i: usize = 0;
    assert(letters@.take(0) =~= Seq::<char>::empty());
    while i < letters.len()
        invariant
            i <= letters@.len(),
            r == text_digest(letters@.take(i as int)),
        decreases letters@.len() - i,
    {
        assert(letters@.take(i + 1).drop_last() =~= letters@.take(i as int));
        r = mix(r, letters[i] as u64);
        i += 1;
    }
    assert(letters@.take(letters@.len() as int) =~= letters@);
    r
}

/// The digest of a list of texts.
pub open spec fn texts_digest(l: Seq<Seq<char>>) -> u64
    decreases l.len(),
{
    if l.len() == 0 {
        mixed(6, 0)
    } else {
        mixed(texts_digest(l.drop_last()), text_digest(l.last()))
    }
}

/// The digest of a list of texts.
pub fn hash_texts(l: &Vec<String>) -> (r: u64)
    ensures
        r == texts_digest(texts(l@)),
{
    let ghost all = texts(l@);
    let mut r: u64 = mix(6, 0);
    let mut i: usize = 0;
    assert(all.take(0) =~= Seq::<Seq<char>>::empty());
    while i < l.len()
        invariant
            i <= l@.len(),
            all == texts(l@),
            r == texts_digest(all.take(i as int)),
        decreases l@.len() - i,
    {
        assert(all.take(i + 1).drop_last() =~= all.take(i as int));
        assert(all.take(i + 1).last() == l@[i as int]@);
        r = mix(r, hash_text(l[i].as_str()));
        i += 1;
    }
    assert(all.take(l@.len() as int) =~= all);
    r
}

} // verus!
