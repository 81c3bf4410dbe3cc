//! `med commit`: export a deterministic, stateless snapshot of the musings log.
//!
//! Every memory appears once, in its newest version, stripped of its activation
//! metadata (timestamps, access counts) and ordered by identifier, so that the file only
//! changes when the facts do.
use vstd::prelude::*;
use crate::bindings::{json_id_content_tags, json_id_content_tags_text, json_stateless_record};
use crate::memory::{
    distinct_ids, has_id, is_latest_set, latest_by_id, models, shown_tags, winner, EntryModel,
    MemoryEntry,
};
use crate::text::{
    lemma_seq_lt_asymmetric, lemma_seq_lt_irreflexive, lemma_seq_lt_total,
    lemma_seq_lt_transitive, seq_lt, str_lt, all_ws,
};

verus! {

/// Entries are in strictly increasing order of identifier.
pub open spec fn sorted_by_id(s: Seq<EntryModel>) -> bool {
    forall|i: int, j: int| 0 <= i < j < s.len() ==> seq_lt(s[i].id, s[j].id)
}

/// `r` is the snapshot of the log `log`: its surviving entries, ordered by identifier.
pub open spec fn is_commit_of(log: Seq<EntryModel>, r: Seq<EntryModel>) -> bool {
    is_latest_set(log, r) && sorted_by_id(r)
}

/// The snapshot of a log (unique, see [`lemma_commit_unique`]).
pub open spec fn committed(log: Seq<EntryModel>) -> Seq<EntryModel> {
    choose|r: Seq<EntryModel>| is_commit_of(log, r)
}

/// The exported line for one entry: its identifier, content and shown tags, nothing else.
pub open spec fn export_line(e: EntryModel) -> Seq<char> {
    json_id_content_tags(e.id, e.content, shown_tags(e))
}

/// The snapshot of a log is determined by the log: any two orderings of its surviving
/// entries by identifier are the same sequence. Committing twice without learning in
/// between therefore writes the same file.
pub proof fn lemma_commit_unique(log: Seq<EntryModel>, r1: Seq<EntryModel>, r2: Seq<EntryModel>)
    requires
        is_commit_of(log, r1),
        is_commit_of(log, r2),
    ensures
        r1 == r2,
{
    // Each side's identifiers are those of the other.
    assert forall|k: int| 0 <= k < r1.len() implies has_id(r2, #[trigger] r1[k].id) by {
        assert(winner(log, r1[k].id) is Some);
    }
    assert forall|k: int| 0 <= k < r2.len() implies has_id(r1, #[trigger] r2[k].id) by {
        assert(winner(log, r2[k].id) is Some);
    }
    lemma_sorted_same_ids_same_keys(r1, r2);
    assert(r1.len() == r2.len());
    assert forall|k: int| 0 <= k < r1.len() implies r1[k] == r2[k] by {
        assert(winner(log, r1[k].id) == Some(r1[k]));
        assert(winner(log, r2[k].id) == Some(r2[k]));
    }
    assert(r1 =~= r2);
}

proof fn lemma_sorted_same_ids_same_keys(r1: Seq<EntryModel>, r2: Seq<EntryModel>)
    requires
        sorted_by_id(r1),
        sorted_by_id(r2),
        forall|k: int| 0 <= k < r1.len() ==> has_id(r2, #[trigger] r1[k].id),
        forall|k: int| 0 <= k < r2.len() ==> has_id(r1, #[trigger] r2[k].id),
    ensures
        r1.len() == r2.len(),
        forall|k: int| 0 <= k < r1.len() ==> r1[k].id == r2[k].id,
    decreases r1.len() + r2.len(),
{
    if r1.len() > 0 && r2.len() > 0 {
        let a = r1[0].id;
        let b = r2[0].id;
        // The smallest identifiers agree.
        if a != b {
            let j = choose|j: int| 0 <= j < r2.len() && (#[trigger] r2[j]).id == a;
            let i = choose|i: int| 0 <= i < r1.len() && (#[trigger] r1[i]).id == b;
            assert(j > 0);
            assert(i > 0);
            assert(seq_lt(b, a));
            assert(seq_lt(a, b));
            lemma_seq_lt_asymmetric(a, b);
        }
        let t1 = r1.drop_first();
        let t2 = r2.drop_first();
        assert forall|k: int| 0 <= k < t1.len() implies has_id(t2, #[trigger] t1[k].id) by {
            assert(r1[k + 1] == t1[k]);
            let j = choose|j: int| 0 <= j < r2.len() && (#[trigger] r2[j]).id == t1[k].id;
            assert(seq_lt(a, t1[k].id));
            if j == 0 {
                lemma_seq_lt_irreflexive(a);
            }
            assert(t2[j - 1].id == t1[k].id);
        }
        assert forall|k: int| 0 <= k < t2.len() implies has_id(t1, #[trigger] t2[k].id) by {
            assert(r2[k + 1] == t2[k]);
            let j = choose|j: int| 0 <= j < r1.len() && (#[trigger] r1[j]).id == t2[k].id;
            assert(seq_lt(b, t2[k].id));
            if j == 0 {
                lemma_seq_lt_irreflexive(b);
            }
            assert(t1[j - 1].id == t2[k].id);
        }
        lemma_sorted_same_ids_same_keys(t1, t2);
        assert forall|k: int| 0 <= k < r1.len() implies r1[k].id == r2[k].id by {
            if k > 0 {
                assert(t1[k - 1] == r1[k]);
                assert(t2[k - 1] == r2[k]);
            }
        }
    } else if r1.len() > 0 {
        assert(has_id(r2, r1[0].id));
    } else if r2.len() > 0 {
        assert(has_id(r1, r2[0].id));
    }
}

fn insertion_point(out: &Vec<MemoryEntry>, id: &String) -> (p: usize)
    requires
        sorted_by_id(models(out@)),
    ensures
        p <= out@.len(),
        forall|k: int| 0 <= k < p ==> seq_lt(out@[k]@.id, id@),
        p < out@.len() ==> !seq_lt(out@[p as int]@.id, id@),
{
    let n = out.len();
    let mut p: usize = 0;
    while p < n && str_lt(out[p].id.as_str(), id.as_str())
        invariant
            n == out@.len(),
            p <= n,
            forall|k: int| 0 <= k < p ==> seq_lt(out@[k]@.id, id@),
        decreases n - p,
    {
        p = p + 1;
    }
    p
}

/// Orders entries with distinct identifiers by identifier.
pub fn sort_by_id(v: &Vec<MemoryEntry>) -> (r: Vec<MemoryEntry>)
    requires
        distinct_ids(models(v@)),
    ensures
        sorted_by_id(models(r@)),
        r@.len() == v@.len(),
        forall|k: int| 0 <= k < r@.len() ==> models(v@).contains(#[trigger] models(r@)[k]),
        forall|k: int| 0 <= k < v@.len() ==> models(r@).contains(#[trigger] models(v@)[k]),
{
    let ghost src = models(v@);
    let mut out: Vec<MemoryEntry> = Vec::new();
    let n = v.len();
    for i in 0..n
        invariant
            n == v@.len(),
            src == models(v@),
            distinct_ids(src),
            sorted_by_id(models(out@)),
            out@.len() == i,
            forall|k: int| 0 <= k < out@.len() ==> src.take(i as int).contains(#[trigger] models(out@)[k]),
            forall|k: int| 0 <= k < i ==> models(out@).contains(#[trigger] src[k]),
    {
        let x = v[i].duplicate();
        let p = insertion_point(&out, &x.id);
        let ghost before = models(out@);
        proof {
            // x differs from everything already placed.
            assert forall|k: int| 0 <= k < before.len() implies before[k].id != x@.id by {
                assert(src.take(i as int).contains(before[k]));
                let j = choose|j: int| 0 <= j < i && src.take(i as int)[j] == before[k];
                assert(src[j] == before[k]);
                assert(src[i as int] == x@);
            }
            if p < before.len() {
                lemma_seq_lt_total(before[p as int].id, x@.id);
            }
        }
        out.insert(p, x);
        proof {
            let after = models(out@);
            assert(after =~= before.insert(p as int, x@));
            assert forall|a: int, b: int| 0 <= a < b < after.len() implies seq_lt(
                after[a].id,
                after[b].id,
            ) by {
                if b < p {
                } else if b == p {
                } else if a < p {
                    // a < p < b: before[a] < x < before[b - 1]
                    assert(seq_lt(before[a].id, x@.id));
                    assert(seq_lt(x@.id, before[p as int].id));
                    if b - 1 > p {
                        assert(seq_lt(before[p as int].id, before[b - 1].id));
                        lemma_seq_lt_transitive(x@.id, before[p as int].id, before[b - 1].id);
                    }
                    lemma_seq_lt_transitive(before[a].id, x@.id, before[b - 1].id);
                } else if a == p {
                    assert(seq_lt(x@.id, before[p as int].id));
                    if b - 1 > p {
                        assert(seq_lt(before[p as int].id, before[b - 1].id));
                        lemma_seq_lt_transitive(x@.id, before[p as int].id, before[b - 1].id);
                    }
                } else {
                    assert(seq_lt(before[a - 1].id, before[b - 1].id));
                }
            }
            assert forall|k: int| 0 <= k < after.len() implies src.take(i + 1).contains(
                #[trigger] after[k],
            ) by {
                if k == p {
                    assert(src.take(i + 1)[i as int] == x@);
                } else {
                    let kk = if k < p { k } else { k - 1 };
                    assert(after[k] == before[kk]);
                    assert(src.take(i as int).contains(before[kk]));
                    let j = choose|j: int| 0 <= j < i && src.take(i as int)[j] == before[kk];
                    assert(src.take(i + 1)[j] == before[kk]);
                }
            }
            assert forall|k: int| 0 <= k < i + 1 implies after.contains(#[trigger] src[k]) by {
                if k == i {
                    assert(after[p as int] == x@);
                } else {
                    assert(before.contains(src[k]));
                    let j = choose|j: int| 0 <= j < before.len() && before[j] == src[k];
                    if j < p {
                        assert(after[j] == src[k]);
                    } else {
                        assert(after[j + 1] == src[k]);
                    }
                }
            }
        }
    }
    proof {
        assert(src.take(n as int) =~= src);
    }
    out
}

/// The newest version of every memory in the log, ordered by identifier.
pub fn snapshot(musings: &Vec<MemoryEntry>) -> (r: Vec<MemoryEntry>)
    ensures
        is_commit_of(models(musings@), models(r@)),
        models(r@) == committed(models(musings@)),
{
    let latest = latest_by_id(musings);
    let sorted = sort_by_id(&latest);
    proof {
        let log = models(musings@);
        let a = models(latest@);
        let b = models(sorted@);
        assert forall|i: int, j: int| 0 <= i < b.len() && 0 <= j < b.len() && i != j implies b[i].id
            != b[j].id by {
            if i < j {
                assert(seq_lt(b[i].id, b[j].id));
            } else {
                assert(seq_lt(b[j].id, b[i].id));
            }
            lemma_seq_lt_irreflexive(b[i].id);
        }
        assert forall|k: int| 0 <= k < b.len() implies winner(log, #[trigger] b[k].id) == Some(b[k]) by {
            assert(a.contains(b[k]));
            let j = choose|j: int| 0 <= j < a.len() && a[j] == b[k];
            assert(winner(log, a[j].id) == Some(a[j]));
        }
        assert forall|id: Seq<char>| #[trigger] winner(log, id) is Some implies has_id(b, id) by {
            let j = choose|j: int| 0 <= j < a.len() && (#[trigger] a[j]).id == id;
            assert(b.contains(a[j]));
            let k = choose|k: int| 0 <= k < b.len() && b[k] == a[j];
            assert(b[k].id == id);
        }
        assert(is_commit_of(log, b));
        lemma_commit_unique(log, b, committed(log));
    }
    sorted
}

/// What reading an exported line back gives: the entry's identifier, its content, and
/// its shown tags, each a string.
pub open spec fn record_of(e: EntryModel) -> (
    Option<Seq<char>>,
    Option<Seq<char>>,
    Option<Seq<Option<Seq<char>>>>,
) {
    (Some(e.id), Some(e.content), Some(shown_tags(e).map_values(|t: Seq<char>| Some(t))))
}

/// `lines` are the exported lines of the entries `snap`, one per entry and in order; each
/// is a JSON object (not blank) that reads back as its entry's record.
pub open spec fn is_export(snap: Seq<EntryModel>, lines: Seq<Seq<char>>) -> bool {
    &&& lines.len() == snap.len()
    &&& forall|k: int|
        0 <= k < lines.len() ==> {
            &&& #[trigger] lines[k] == export_line(snap[k])
            &&& !all_ws(lines[k])
            &&& json_stateless_record(lines[k]) == Some(record_of(snap[k]))
        }
}

/// The lines of `brain.ndjson` for a musings log: one JSON object per surviving memory,
/// holding only its identifier, content and shown tags, in order of identifier.
pub fn run(musings: &Vec<MemoryEntry>) -> (lines: Vec<String>)
    ensures
        is_commit_of(models(musings@), committed(models(musings@))),
        is_export(committed(models(musings@)), lines.deep_view()),
{
    let entries = snapshot(musings);
    let mut lines: Vec<String> = Vec::new();
    let n = entries.len();
    for k in 0..n
        invariant
            n == entries@.len(),
            is_commit_of(models(musings@), models(entries@)),
            models(entries@) == committed(models(musings@)),
            is_export(models(entries@).take(k as int), lines.deep_view()),
    {
        let e = &entries[k];
        let tags = e.display_tags();
        let line = json_id_content_tags_text(e.id.as_str(), e.content.as_str(), &tags);
        let ghost before = lines.deep_view();
        lines.push(line);
        proof {
            let snap = models(entries@).take(k + 1);
            assert(snap[k as int] == e@);
            assert(line@[0] == '{');
            assert(!all_ws(line@)) by {
                assert(!crate::text::unicode_white_space(line@[0]));
            }
            assert(lines.deep_view() =~= before.push(line@));
            assert forall|j: int| 0 <= j < k + 1 implies {
                &&& #[trigger] lines.deep_view()[j] == export_line(snap[j])
                &&& !all_ws(lines.deep_view()[j])
                &&& json_stateless_record(lines.deep_view()[j]) == Some(record_of(snap[j]))
            } by {
                if j < k {
                    assert(snap[j] == models(entries@).take(k as int)[j]);
                }
            }
        }
    }
    proof {
        assert(models(entries@).take(n as int) =~= models(entries@));
    }
    lines
}

} // verus!
