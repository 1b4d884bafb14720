//! Laws of the store's contents, stated over the meaning of its log.

use vstd::prelude::*;
use crate::record::Mutation;
use crate::replay::{garbage_of, lemma_state_push, state};

verus! {

/// After `set(k, v)`, `get(k)` finds `v`.
pub proof fn law_set_then_get(recs: Seq<Mutation>, k: Seq<char>, v: Seq<char>)
    ensures
        state(recs.push(Mutation::Put(k, v))).contains_key(k),
        state(recs.push(Mutation::Put(k, v)))[k] == v,
{
    lemma_state_push(recs, Mutation::Put(k, v));
}

/// After `set(k, v1)` and `set(k, v2)`, `get(k)` finds `v2`, and the second
/// `set` adds exactly one to the garbage count.
pub proof fn law_overwrite(recs: Seq<Mutation>, k: Seq<char>, v1: Seq<char>, v2: Seq<char>)
    ensures
        state(recs.push(Mutation::Put(k, v1)).push(Mutation::Put(k, v2)))[k] == v2,
        garbage_of(recs.push(Mutation::Put(k, v1)).push(Mutation::Put(k, v2)))
            == garbage_of(recs.push(Mutation::Put(k, v1))) + 1,
{
    lemma_state_push(recs, Mutation::Put(k, v1));
    lemma_state_push(recs.push(Mutation::Put(k, v1)), Mutation::Put(k, v2));
}

/// After `set(k, v)` and `remove(k)`, the key is gone, so that `get(k)` finds
/// nothing and a second `remove(k)` fails.
pub proof fn law_tombstone(recs: Seq<Mutation>, k: Seq<char>, v: Seq<char>)
    ensures
        !state(recs.push(Mutation::Put(k, v)).push(Mutation::Delete(k))).contains_key(k),
{
    lemma_state_push(recs, Mutation::Put(k, v));
    lemma_state_push(recs.push(Mutation::Put(k, v)), Mutation::Delete(k));
}

} // verus!
