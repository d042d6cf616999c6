//! The process-wide context: the entity store and the registry of installed
//! providers. The registry is built once at startup and read-only afterward;
//! a reload is a full swap of the `Extensions` value, never an in-place edit.
use vstd::prelude::*;

use crate::catalogue::Source;
use crate::db::{find_first, lemma_find_first, Db};

verus! {

/// Matches a provider by its stable source id.
pub open spec fn source_id_pred(id: i64) -> spec_fn(Source) -> bool {
    |s: Source| s.id == id
}

pub open spec fn source_idx_by_id(s: Seq<Source>, id: i64) -> int {
    find_first(s, source_id_pred(id))
}

/// The registry of installed providers: identity metadata only. The
/// capability calls themselves happen outside this store and hand their
/// results in as plain values.
pub struct Extensions {
    pub sources: Vec<Source>,
}

impl Extensions {
    /// An empty registry.
    pub fn new() -> (r: Extensions)
        ensures
            r.sources@.len() == 0,
    {
        Extensions { sources: Vec::new() }
    }

    /// Appends one provider's metadata.
    pub fn register(&mut self, source: Source)
        ensures
            final(self).sources@ == old(self).sources@.push(source),
    {
        self.sources.push(source);
    }

    /// Looks a provider up by its source id.
    #[verifier::loop_isolation(false)]
    pub fn get(&self, source_id: i64) -> (r: Option<Source>)
        ensures
            ({
                let i = source_idx_by_id(self.sources@, source_id);
                if i >= 0 {
                    r == Some(self.sources@[i])
                } else {
                    r is None
                }
            }),
    {
        let ghost p = source_id_pred(source_id);
        proof {
            assert(forall|s: Source| #[trigger] p(s) <==> s.id == source_id);
        }
        let mut j: usize = 0;
        while j < self.sources.len()
            invariant
                j <= self.sources@.len(),
                forall|k: int| 0 <= k < j ==> !p(#[trigger] self.sources@[k]),
            decreases self.sources@.len() - j,
        {
            if self.sources[j].id == source_id {
                proof {
                    lemma_find_first(self.sources@, p);
                }
                return Some(self.sources[j].clone());
            }
            j += 1;
        }
        proof {
            lemma_find_first(self.sources@, p);
        }
        None
    }
}

/// The shared context the query surface works on.
pub struct GlobalContext {
    pub db: Db,
    pub extensions: Extensions,
}

impl GlobalContext {
    pub fn new(db: Db, extensions: Extensions) -> (r: GlobalContext)
        ensures
            r.db == db,
            r.extensions == extensions,
    {
        GlobalContext { db, extensions }
    }
}

} // verus!
