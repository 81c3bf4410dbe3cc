//! The first query command: a literal search of the cache, ranked by activation.
use vstd::prelude::*;
use crate::bindings::{lowercase, to_lowercase};
use crate::commands::query::min_len;
use crate::memory::{models, EntryModel, MemoryEntry};
use crate::rank::{rank_by_activation, ranking, valid_selection};
use crate::text::{chars_of, contains_chars, contains_seq};

verus! {

/// The indices below `n` of the rows whose content holds `needle` literally.
pub open spec fn literal_matching(rows: Seq<EntryModel>, needle: Seq<char>, n: int) -> Seq<usize>
    decreases n,
{
    if n <= 0 {
        Seq::<usize>::empty()
    } else {
        let prev = literal_matching(rows, needle, n - 1);
        if contains_seq(rows[n - 1].content, needle) {
            prev.push((n - 1) as usize)
        } else {
            prev
        }
    }
}

proof fn lemma_literal_matching_valid(rows: Seq<EntryModel>, needle: Seq<char>, n: int)
    requires
        0 <= n <= rows.len(),
        rows.len() <= usize::MAX,
    ensures
        valid_selection(rows, literal_matching(rows, needle, n)),
        forall|k: int|
            0 <= k < literal_matching(rows, needle, n).len() ==> (#[trigger] literal_matching(
                rows,
                needle,
                n,
            )[k]) < n,
        forall|i: int, j: int|
            0 <= i < j < literal_matching(rows, needle, n).len() ==> literal_matching(rows, needle, n)[i]
                < literal_matching(rows, needle, n)[j],
    decreases n,
{
    if n > 0 {
        lemma_literal_matching_valid(rows, needle, n - 1);
        let prev = literal_matching(rows, needle, n - 1);
        let cur = literal_matching(rows, needle, n);
        if contains_seq(rows[n - 1].content, needle) {
            assert(cur == prev.push((n - 1) as usize));
            assert forall|i: int, j: int| 0 <= i < j < cur.len() implies cur[i] < cur[j] by {
                if j < prev.len() {
                    assert(cur[i] == prev[i] && cur[j] == prev[j]);
                } else {
                    assert(cur[i] == prev[i]);
                }
            }
            assert forall|k: int| 0 <= k < cur.len() implies #[trigger] cur[k] < n by {
                if k < prev.len() {
                    assert(cur[k] == prev[k]);
                }
            }
        }
        assert forall|a: int, b: int| 0 <= a < cur.len() && 0 <= b < cur.len() && a != b implies cur[a]
            != cur[b] by {
            if a < b {
                assert(cur[a] < cur[b]);
            } else {
                assert(cur[b] < cur[a]);
            }
        }
    } else {
        assert(literal_matching(rows, needle, n) =~= Seq::<usize>::empty());
    }
}

/// The rows shown for a literal search: those whose content holds the lower-cased
/// pattern, ranked by activation at `now` (the time the cache was built), at most
/// `limit` of them (the limit is taken as a 32-bit count, as the cache's `limit` takes it).
pub fn literal_search(rows: &Vec<MemoryEntry>, pattern: &str, limit: usize, now: i64) -> (r: Vec<usize>)
    ensures
        ({
            let ranked = ranking(
                models(rows@),
                now,
                literal_matching(models(rows@), lowercase(pattern@), rows@.len() as int),
            );
            r@ == ranked.take(min_len((limit as u32) as int, ranked.len() as int))
        }),
{
    let ghost m = models(rows@);
    let needle = to_lowercase(pattern);
    let nv = chars_of(needle.as_str());
    let mut sel: Vec<usize> = Vec::new();
    let n = rows.len();
    for i in 0..n
        invariant
            n == rows@.len(),
            m == models(rows@),
            nv@ == lowercase(pattern@),
            sel@ == literal_matching(m, nv@, i as int),
    {
        let cv = chars_of(rows[i].content.as_str());
        if contains_chars(&cv, &nv) {
            sel.push(i);
        }
    }
    proof {
        lemma_literal_matching_valid(m, nv@, n as int);
    }
    let ranked = rank_by_activation(rows, &sel, now);
    #[verifier::truncate]
    let cap = limit as u32;
    let count = if (cap as usize) < ranked.len() {
        cap as usize
    } else {
        ranked.len()
    };
    let mut shown: Vec<usize> = Vec::new();
    for k in 0..count
        invariant
            count <= ranked@.len(),
            shown@ == ranked@.take(k as int),
    {
        shown.push(ranked[k]);
        proof {
            assert(shown@ =~= ranked@.take(k + 1));
        }
    }
    shown
}

/// The stems of the given rows, in order, repeats included: the tags whose synapses
/// are looked up.
pub open spec fn stems_listed(rows: Seq<EntryModel>, idx: Seq<usize>) -> Seq<Seq<char>>
    decreases idx.len(),
{
    if idx.len() == 0 {
        Seq::<Seq<char>>::empty()
    } else {
        stems_listed(rows, idx.drop_last()) + rows[idx.last() as int].associations
    }
}

/// Lists the stems of the given rows, in order.
pub fn listed_stems(rows: &Vec<MemoryEntry>, idx: &Vec<usize>) -> (r: Vec<String>)
    requires
        forall|k: int| 0 <= k < idx@.len() ==> (#[trigger] idx@[k]) < rows@.len(),
    ensures
        r.deep_view() == stems_listed(models(rows@), idx@),
{
    let ghost m = models(rows@);
    let mut out: Vec<String> = Vec::new();
    let n = idx.len();
    proof {
        assert(idx@.take(0) =~= Seq::<usize>::empty());
        assert(out.deep_view() =~= Seq::<Seq<char>>::empty());
    }
    for k in 0..n
        invariant
            n == idx@.len(),
            m == models(rows@),
            forall|j: int| 0 <= j < idx@.len() ==> (#[trigger] idx@[j]) < rows@.len(),
            out.deep_view() == stems_listed(m, idx@.take(k as int)),
    {
        let row = &rows[idx[k]];
        let na = row.associations.len();
        let ghost before = out.deep_view();
        for j in 0..na
            invariant
                na == row.associations@.len(),
                out.deep_view() == before + row.associations.deep_view().take(j as int),
        {
            let ghost pre = out.deep_view();
            out.push(row.associations[j].clone());
            proof {
                assert(out.deep_view() =~= pre.push(row.associations@[j as int]@));
                assert(row.associations.deep_view().take(j + 1) =~= row.associations.deep_view().take(
                    j as int,
                ).push(row.associations@[j as int]@));
            }
        }
        proof {
            assert(row.associations.deep_view().take(na as int) =~= row.associations.deep_view());
            assert(idx@.take(k + 1).drop_last() =~= idx@.take(k as int));
            assert(m[idx@[k as int] as int] == row@);
        }
    }
    proof {
        assert(idx@.take(n as int) =~= idx@);
    }
    out
}

} // verus!
