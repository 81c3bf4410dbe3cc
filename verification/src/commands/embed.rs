//! The incremental part of the embeddings cache: which memories still need a vector,
//! and how they are batched for the model.
use vstd::prelude::*;
use crate::commands::query::contains_string;
use crate::memory::{models, EntryModel, MemoryEntry};

verus! {

/// How many memories are embedded per call of the model.
pub const CHUNK_SIZE: usize = 100;

/// The indices below `n` of the memories whose identifier has no cached vector yet.
pub open spec fn unembedded(es: Seq<EntryModel>, existing: Seq<Seq<char>>, n: int) -> Seq<usize>
    decreases n,
{
    if n <= 0 {
        Seq::<usize>::empty()
    } else {
        let prev = unembedded(es, existing, n - 1);
        if existing.contains(es[n - 1].id) {
            prev
        } else {
            prev.push((n - 1) as usize)
        }
    }
}

/// The identifiers of the memories at the given indices.
pub open spec fn ids_at(es: Seq<EntryModel>, idx: Seq<usize>) -> Seq<Seq<char>> {
    idx.map_values(|i: usize| es[i as int].id)
}

/// The memories that still need a vector: those whose identifier is not in the cache.
pub fn entries_to_embed(canonical: &Vec<MemoryEntry>, existing_ids: &Vec<String>) -> (r: Vec<
    usize,
>)
    ensures
        r@ == unembedded(models(canonical@), existing_ids.deep_view(), canonical@.len() as int),
{
    let ghost es = models(canonical@);
    let mut out: Vec<usize> = Vec::new();
    let n = canonical.len();
    for i in 0..n
        invariant
            n == canonical@.len(),
            es == models(canonical@),
            out@ == unembedded(es, existing_ids.deep_view(), i as int),
    {
        if !contains_string(existing_ids, &canonical[i].id) {
            out.push(i);
        }
    }
    out
}

proof fn lemma_unembedded_bounds(es: Seq<EntryModel>, existing: Seq<Seq<char>>, n: int)
    requires
        0 <= n <= es.len(),
        es.len() <= usize::MAX,
    ensures
        forall|k: int|
            0 <= k < unembedded(es, existing, n).len() ==> (#[trigger] unembedded(es, existing, n)[k])
                < n,
        forall|k: int|
            0 <= k < unembedded(es, existing, n).len() ==> !existing.contains(
                es[unembedded(es, existing, n)[k] as int].id,
            ),
        forall|i: int|
            0 <= i < n && !existing.contains(es[i].id) ==> unembedded(es, existing, n).contains(
                i as usize,
            ),
    decreases n,
{
    if n > 0 {
        lemma_unembedded_bounds(es, existing, n - 1);
        let prev = unembedded(es, existing, n - 1);
        let cur = unembedded(es, existing, n);
        if !existing.contains(es[n - 1].id) {
            assert(cur == prev.push((n - 1) as usize));
            assert forall|i: int| 0 <= i < n && !existing.contains(es[i].id) implies cur.contains(
                i as usize,
            ) by {
                if i < n - 1 {
                    let k = choose|k: int| 0 <= k < prev.len() && prev[k] == i as usize;
                    assert(cur[k] == i as usize);
                } else {
                    assert(cur[prev.len() as int] == i as usize);
                }
            }
            assert forall|k: int| 0 <= k < cur.len() implies !existing.contains(
                es[cur[k] as int].id,
            ) by {
                if k < prev.len() {
                    assert(cur[k] == prev[k]);
                }
            }
        }
    }
}

/// Embedding is incremental: once the vectors of the memories that needed one are in
/// the cache, no memory needs one any more, so a second run embeds nothing.
pub proof fn lemma_embedding_incremental(es: Seq<EntryModel>, existing: Seq<Seq<char>>)
    requires
        es.len() <= usize::MAX,
    ensures
        unembedded(
            es,
            existing + ids_at(es, unembedded(es, existing, es.len() as int)),
            es.len() as int,
        ).len() == 0,
{
    let fresh = unembedded(es, existing, es.len() as int);
    let all = existing + ids_at(es, fresh);
    lemma_unembedded_bounds(es, existing, es.len() as int);
    lemma_unembedded_bounds(es, all, es.len() as int);
    let again = unembedded(es, all, es.len() as int);
    if again.len() > 0 {
        let i = again[0] as int;
        assert(!all.contains(es[i].id));
        if existing.contains(es[i].id) {
            let k = choose|k: int| 0 <= k < existing.len() && existing[k] == es[i].id;
            assert(all[k] == es[i].id);
        } else {
            assert(fresh.contains(i as usize));
            let k = choose|k: int| 0 <= k < fresh.len() && fresh[k] == i as usize;
            assert(all[existing.len() + k] == es[i].id);
        }
    }
}

/// The half-open ranges `[start, end)` that cut `n` items into consecutive batches of at
/// most [`CHUNK_SIZE`], in order.
pub open spec fn chunk_range(n: int, k: int) -> (usize, usize) {
    (
        (k * CHUNK_SIZE) as usize,
        (if (k + 1) * CHUNK_SIZE < n {
            (k + 1) * CHUNK_SIZE
        } else {
            n
        }) as usize,
    )
}

/// The number of batches for `n` items: `n` divided by [`CHUNK_SIZE`], rounded up.
pub open spec fn chunk_count(n: int) -> int {
    (n + CHUNK_SIZE - 1) / (CHUNK_SIZE as int)
}

/// The batches in which `n` new memories are handed to the embedding model.
pub fn chunk_ranges(n: usize) -> (r: Vec<(usize, usize)>)
    ensures
        r@.len() == chunk_count(n as int),
        forall|k: int| 0 <= k < r@.len() ==> #[trigger] r@[k] == chunk_range(n as int, k),
{
    let count = n / CHUNK_SIZE + if n % CHUNK_SIZE != 0 {
        1
    } else {
        0
    };
    proof {
        assert(count == chunk_count(n as int)) by (nonlinear_arith)
            requires
                count == n / 100 + if n % 100 != 0 {
                    1int
                } else {
                    0int
                },
        ;
    }
    let mut out: Vec<(usize, usize)> = Vec::new();
    for k in 0..count
        invariant
            count == chunk_count(n as int),
            count == n / 100 + if n % 100 != 0 {
                1int
            } else {
                0int
            },
            out@.len() == k,
            forall|j: int| 0 <= j < out@.len() ==> #[trigger] out@[j] == chunk_range(n as int, j),
    {
        proof {
            assert(k * 100 < n) by (nonlinear_arith)
                requires
                    k < count,
                    count == n / 100 + if n % 100 != 0 {
                        1int
                    } else {
                        0int
                    },
            ;
        }
        let start = k * CHUNK_SIZE;
        let end = if n - start > CHUNK_SIZE {
            start + CHUNK_SIZE
        } else {
            n
        };
        out.push((start, end));
    }
    out
}

} // verus!
