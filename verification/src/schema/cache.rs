//! Compiled schemas by their content.

use std::collections::HashMap;
use std::sync::Arc;

use vstd::prelude::*;

use crate::digest::{hash_text, mix, mixed, text_digest};
use crate::schema::compile::{ignored_keywords, schema_findings, CompiledSchema};
use crate::schema::error::SchemaError;
use crate::schema::json::{
    elements, lemma_in_list, lemma_in_object, lemma_view, list_view, members, members_view, same_json,
    Json, JsonView,
};

verus! {

broadcast use {
    vstd::seq::group_seq_axioms,
    vstd::std_specs::hash::group_hash_axioms,
};

/// The digest of a value. The order of an object's members does not matter.
pub open spec fn digest(v: JsonView) -> u64
    decreases v, 1nat, 0nat,
{
    match v {
        JsonView::Null => mixed(0, 0),
        JsonView::Flag(b) => mixed(
            1,
            if b {
                1
            } else {
                0
            },
        ),
        JsonView::Number(n) => mixed(2, n.bits),
        JsonView::Text(s) => text_digest(s),
        JsonView::List(l) => list_digest(v, l.len()),
        JsonView::Object(m) => mixed(mixed(5, m.len() as u64), sum_digest(v, m.len())),
    }
}

/// The digest of the first `n` elements.
pub open spec fn list_digest(v: JsonView, n: nat) -> u64
    decreases v, 0nat, n,
{
    if 0 < n <= elements(v).len() {
        mixed(list_digest(v, (n - 1) as nat), digest(elements(v)[n - 1]))
    } else {
        mixed(4, elements(v).len() as u64)
    }
}

/// The sum of the digests of the first `n` members.
pub open spec fn sum_digest(v: JsonView, n: nat) -> u64
    decreases v, 0nat, n,
{
    if 0 < n <= members(v).len() {
        sum_digest(v, (n - 1) as nat).wrapping_add(
            mixed(text_digest(members(v)[n - 1].key), digest(members(v)[n - 1].value)),
        )
    } else {
        0
    }
}

/// The digest of a value.
pub fn content_hash(value: &Json) -> (r: u64)
    ensures
        r == digest(value@),
    decreases value,
{
    proof {
        lemma_view(*value);
    }
    match value {
        Json::Null => mix(0, 0),
        Json::Flag(b) => mix(
            1,
            if *b {
                1
            } else {
                0
            },
        ),
        Json::Number(n) => mix(2, n.bits),
        Json::Text(s) => hash_text(s.as_str()),
        Json::List(l) => {
            let n: usize = l.len();
            let mut r: u64 = mix(4, n as u64);
            let mut i: usize = 0;
            while i < n
                invariant
                    i <= n,
                    n == l@.len(),
                    value == Json::List(*l),
                    value@ == JsonView::List(list_view(l@)),
                    r == list_digest(value@, i as nat),
                decreases n - i,
            {
                proof {
                    lemma_in_list(*value, *l, i as int);
                }
                assert(list_view(l@)[i as int] == l@[i as int]@);
                r = mix(r, content_hash(&l[i]));
                i += 1;
            }
            r
        },
        Json::Object(m) => {
            let n: usize = m.len();
            let mut sum: u64 = 0;
            let mut i: usize = 0;
            while i < n
                invariant
                    i <= n,
                    n == m@.len(),
                    value == Json::Object(*m),
                    value@ == JsonView::Object(members_view(m@)),
                    sum == sum_digest(value@, i as nat),
                decreases n - i,
            {
                proof {
                    lemma_in_object(*value, *m, i as int);
                }
                assert(members_view(m@)[i as int] == m@[i as int]@);
                sum = sum.wrapping_add(
                    mix(hash_text(m[i].key.as_str()), content_hash(&m[i].value)),
                );
                i += 1;
            }
            mix(mix(5, n as u64), sum)
        },
    }
}

/// Compiled schemas by the digests of their contents.
pub struct SchemaCache {
    entries: HashMap<u64, Arc<CompiledSchema>>,
}

impl View for SchemaCache {
    type V = Map<u64, Arc<CompiledSchema>>;

    closed spec fn view(&self) -> Map<u64, Arc<CompiledSchema>> {
        self.entries@
    }
}

/// Whether a cache has a schema.
pub open spec fn is_cached(m: Map<u64, Arc<CompiledSchema>>, schema: JsonView) -> bool {
    m.contains_key(digest(schema)) && same_json(m[digest(schema)].schema(), schema)
}

impl Default for SchemaCache {
    fn default() -> (r: Self)
        ensures
            r@ == Map::<u64, Arc<CompiledSchema>>::empty(),
    {
        SchemaCache { entries: HashMap::new() }
    }
}

impl SchemaCache {
    /// An empty cache.
    pub fn new() -> (r: Self)
        ensures
            r@ == Map::<u64, Arc<CompiledSchema>>::empty(),
    {
        SchemaCache { entries: HashMap::new() }
    }

    /// The compiled schema: the one that is there, or else a new one, which is kept.
    pub fn get_or_compile(&mut self, schema: &Json) -> (r: Result<Arc<CompiledSchema>, SchemaError>)
        ensures
            if is_cached(old(self)@, schema@) {
                &&& r == Ok::<Arc<CompiledSchema>, SchemaError>(old(self)@[digest(schema@)])
                &&& final(self)@ == old(self)@
            } else {
                match r {
                    Ok(c) => {
                        &&& schema_findings(schema@).error is None
                        &&& c.schema() == schema@
                        &&& c.ignored() == ignored_keywords(schema_findings(schema@))
                        &&& final(self)@ == old(self)@.insert(digest(schema@), c)
                    },
                    Err(e) => {
                        &&& schema_findings(schema@).error == Some(e@)
                        &&& final(self)@ == old(self)@
                    },
                }
            },
    {
        let key: u64 = content_hash(schema);
        if let Some(hit) = self.entries.get(&key) {
            if hit.as_value().same(schema) {
                return Ok(hit.clone());
            }
        }
        match CompiledSchema::compile(schema.duplicate()) {
            Ok(compiled) => {
                let shared = Arc::new(compiled);
                self.entries.insert(key, shared.clone());
                Ok(shared)
            },
            Err(e) => Err(e),
        }
    }

    /// How many schemas there are.
    pub fn len(&self) -> (r: usize)
        ensures
            r == self@.len(),
    {
        self.entries.len()
    }

    /// Whether there are none.
    pub fn is_empty(&self) -> (r: bool)
        ensures
            r == (self@.len() == 0),
    {
        self.len() == 0
    }

    /// Drops all schemas.
    pub fn clear(&mut self)
        ensures
            final(self)@ == Map::<u64, Arc<CompiledSchema>>::empty(),
    {
        self.entries.clear();
    }
}

} // verus!
