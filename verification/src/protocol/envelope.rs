//! What goes round every frame.

use vstd::prelude::*;

use crate::protocol::version::PROTOCOL_MAJOR;

verus! {

/// A frame.
#[derive(Debug, Clone, PartialEq, Eq)]
pub struct Envelope<T> {
    /// The sender's major version.
    pub v: u16,
    /// The sender's number of this frame.
    pub id: u64,
    /// The number of the request that this frame answers, if it answers one.
    pub reply_to: Option<u64>,
    pub payload: T,
}

impl<T> Envelope<T> {
    /// A frame that answers nothing.
    pub fn new(id: u64, payload: T) -> (r: Self)
        ensures
            r == (Envelope { v: PROTOCOL_MAJOR, id, reply_to: None, payload }),
    {
        Envelope { v: PROTOCOL_MAJOR, id, reply_to: None, payload }
    }

    /// A frame that answers a request.
    pub fn reply_to(id: u64, request_id: u64, payload: T) -> (r: Self)
        ensures
            r == (Envelope { v: PROTOCOL_MAJOR, id, reply_to: Some(request_id), payload }),
    {
        Envelope { v: PROTOCOL_MAJOR, id, reply_to: Some(request_id), payload }
    }

    /// The same frame with another payload.
    pub fn map<U>(self, f: impl FnOnce(T) -> U) -> (r: Envelope<U>)
        requires
            f.requires((self.payload,)),
        ensures
            r.v == self.v,
            r.id == self.id,
            r.reply_to == self.reply_to,
            f.ensures((self.payload,), r.payload),
    {
        Envelope { v: self.v, id: self.id, reply_to: self.reply_to, payload: f(self.payload) }
    }
}

/// Gives the frames of a connection their numbers, from one on. Zero stands for no number.
#[derive(Debug)]
pub struct IdGen(u64);

impl IdGen {
    /// The number that was given last; zero before the first.
    pub closed spec fn last(&self) -> u64 {
        self.0
    }

    /// The next number.
    pub fn next_id(&mut self) -> (r: u64)
        ensures
            r == old(self).last().wrapping_add(1),
            final(self).last() == r,
    {
        self.0 = self.0.wrapping_add(1);
        self.0
    }
}

impl Default for IdGen {
    fn default() -> (r: Self)
        ensures
            r.last() == 0,
    {
        IdGen(0)
    }
}

/// The number that is given `n` numbers after `last`.
pub open spec fn nth_id(last: u64, n: nat) -> u64
    decreases n,
{
    if n == 0 {
        last
    } else {
        nth_id(last, (n - 1) as nat).wrapping_add(1)
    }
}

/// The `n`th number that is given is `n`.
pub proof fn lemma_ids_count_up(n: nat)
    requires
        n <= u64::MAX,
    ensures
        nth_id(0, n) == n,
    decreases n,
{
    if n > 0 {
        lemma_ids_count_up((n - 1) as nat);
    }
}

} // verus!
