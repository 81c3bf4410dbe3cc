//! `med think`: merge the local musings with the shared `brain.ndjson` into the
//! canonical set of memories, prepare the rows of the ranked cache, and count the
//! Hebbian co-activations of tags.
use vstd::prelude::*;
use crate::bindings::{english_stem, json_stateless_record, parse_stateless_record, stem_english};
use crate::memory::{
    clone_strings, distinct_ids, find_id, has_id, is_latest_set, latest_by_id, models,
    shown_tags, winner, CoActivation, CoActivationModel, EntryModel, MemoryEntry,
    StatelessRecord,
};
use crate::commands::commit::{committed, export_line, is_commit_of, is_export, record_of, snapshot};
use crate::text::{all_ws, is_blank, lemma_seq_lt_irreflexive, seq_lt, str_lt};

verus! {

// ---------------------------------------------------------------- keyed views

/// The position of the entry with identifier `id` (meaningful when there is one).
pub open spec fn index_of_id(s: Seq<EntryModel>, id: Seq<char>) -> int {
    choose|k: int| 0 <= k < s.len() && (#[trigger] s[k]).id == id
}

/// The entries of `s` keyed by identifier.
pub open spec fn keyed(s: Seq<EntryModel>) -> Map<Seq<char>, EntryModel> {
    Map::new(|id: Seq<char>| has_id(s, id), |id: Seq<char>| s[index_of_id(s, id)])
}

/// The surviving version of every memory of a log, keyed by identifier.
pub open spec fn latest_map(log: Seq<EntryModel>) -> Map<Seq<char>, EntryModel> {
    Map::new(|id: Seq<char>| winner(log, id) is Some, |id: Seq<char>| winner(log, id).unwrap())
}

proof fn lemma_index_of_id(s: Seq<EntryModel>, k: int)
    requires
        distinct_ids(s),
        0 <= k < s.len(),
    ensures
        index_of_id(s, s[k].id) == k,
{
    let id = s[k].id;
    assert(has_id(s, id));
    let j = index_of_id(s, id);
    assert(0 <= j < s.len() && s[j].id == id);
}

proof fn lemma_keyed_latest(log: Seq<EntryModel>, s: Seq<EntryModel>)
    requires
        is_latest_set(log, s),
    ensures
        keyed(s) == latest_map(log),
{
    assert forall|id: Seq<char>| has_id(s, id) <==> #[trigger] (winner(log, id) is Some) by {
        if has_id(s, id) {
            let k = choose|k: int| 0 <= k < s.len() && (#[trigger] s[k]).id == id;
            assert(winner(log, s[k].id) == Some(s[k]));
        }
    }
    assert forall|id: Seq<char>| #[trigger] has_id(s, id) implies s[index_of_id(s, id)]
        == winner(log, id).unwrap() by {
        let k = index_of_id(s, id);
        assert(winner(log, s[k].id) == Some(s[k]));
    }
    assert(keyed(s) =~= latest_map(log));
}

proof fn lemma_keyed_update(s: Seq<EntryModel>, p: int, e: EntryModel)
    requires
        distinct_ids(s),
        0 <= p < s.len(),
        e.id == s[p].id,
    ensures
        distinct_ids(s.update(p, e)),
        keyed(s.update(p, e)) == keyed(s).insert(e.id, e),
{
    let t = s.update(p, e);
    assert forall|i: int, j: int| 0 <= i < t.len() && 0 <= j < t.len() && i != j implies t[i].id
        != t[j].id by {
        assert(s[i].id != s[j].id);
    }
    assert forall|id: Seq<char>| has_id(t, id) <==> #[trigger] has_id(s, id) by {
        if has_id(t, id) {
            let k = choose|k: int| 0 <= k < t.len() && (#[trigger] t[k]).id == id;
            assert(s[k].id == id);
        }
        if has_id(s, id) {
            let k = choose|k: int| 0 <= k < s.len() && (#[trigger] s[k]).id == id;
            assert(t[k].id == id);
        }
    }
    assert forall|id: Seq<char>| #[trigger] has_id(t, id) implies t[index_of_id(t, id)]
        == keyed(s).insert(e.id, e)[id] by {
        let k = index_of_id(t, id);
        lemma_index_of_id(t, k);
        if k == p {
        } else {
            lemma_index_of_id(s, k);
        }
    }
    assert(has_id(s, e.id));
    assert(keyed(t) =~= keyed(s).insert(e.id, e));
}

proof fn lemma_keyed_push(s: Seq<EntryModel>, e: EntryModel)
    requires
        distinct_ids(s),
        !has_id(s, e.id),
    ensures
        distinct_ids(s.push(e)),
        keyed(s.push(e)) == keyed(s).insert(e.id, e),
{
    let t = s.push(e);
    assert forall|i: int, j: int| 0 <= i < t.len() && 0 <= j < t.len() && i != j implies t[i].id
        != t[j].id by {
        if i < s.len() && j < s.len() {
            assert(s[i].id != s[j].id);
        } else if i < s.len() {
            assert(t[i] == s[i]);
        } else {
            assert(t[j] == s[j]);
        }
    }
    assert forall|id: Seq<char>| has_id(t, id) <==> #[trigger] has_id(s, id) || id == e.id by {
        if has_id(t, id) {
            let k = choose|k: int| 0 <= k < t.len() && (#[trigger] t[k]).id == id;
            if k < s.len() {
                assert(s[k].id == id);
            }
        }
        if has_id(s, id) {
            let k = choose|k: int| 0 <= k < s.len() && (#[trigger] s[k]).id == id;
            assert(t[k].id == id);
        }
        if id == e.id {
            assert(t[s.len() as int].id == id);
        }
    }
    assert forall|id: Seq<char>| #[trigger] has_id(t, id) implies t[index_of_id(t, id)]
        == keyed(s).insert(e.id, e)[id] by {
        let k = index_of_id(t, id);
        lemma_index_of_id(t, k);
        if k < s.len() {
            lemma_index_of_id(s, k);
            assert(t[k] == s[k]);
        }
    }
    assert(keyed(t) =~= keyed(s).insert(e.id, e));
}

// ---------------------------------------------------------------- the overlay

/// The string elements of a JSON array, in order.
pub open spec fn string_items(xs: Seq<Option<Seq<char>>>) -> Seq<Seq<char>>
    decreases xs.len(),
{
    if xs.len() == 0 {
        Seq::<Seq<char>>::empty()
    } else {
        let prev = string_items(xs.drop_last());
        match xs.last() {
            Some(s) => prev.push(s),
            None => prev,
        }
    }
}

/// The stems of a list of tags.
pub open spec fn stems_of(tags: Seq<Seq<char>>) -> Seq<Seq<char>> {
    tags.map_values(|t: Seq<char>| english_stem(t))
}

/// Applies one line of `brain.ndjson` to the keyed memories. The shared file is the
/// authority on text: an entry already known keeps its timestamps, access count and
/// source and takes the line's content, tags and their stems; an entry known only to
/// the shared file is added as new at `now`, with one access. Blank lines, lines that
/// are not JSON and lines without a non-empty string `id` change nothing.
pub open spec fn overlay_line(
    m: Map<Seq<char>, EntryModel>,
    line: Seq<char>,
    now: i64,
) -> Map<Seq<char>, EntryModel> {
    if all_ws(line) {
        m
    } else {
        match json_stateless_record(line) {
            None => m,
            Some(r) => {
                let id = match r.0 {
                    Some(s) => s,
                    None => Seq::<char>::empty(),
                };
                let content = match r.1 {
                    Some(s) => s,
                    None => Seq::<char>::empty(),
                };
                let tags = match r.2 {
                    Some(xs) => string_items(xs),
                    None => Seq::<Seq<char>>::empty(),
                };
                if id.len() == 0 {
                    m
                } else if m.contains_key(id) {
                    let old = m[id];
                    m.insert(
                        id,
                        EntryModel {
                            id: old.id,
                            content,
                            timestamp: old.timestamp,
                            tags,
                            associations: stems_of(tags),
                            source: old.source,
                            access_count: old.access_count,
                            last_access: old.last_access,
                        },
                    )
                } else {
                    m.insert(
                        id,
                        EntryModel {
                            id,
                            content,
                            timestamp: now,
                            tags,
                            associations: stems_of(tags),
                            source: None,
                            access_count: 1,
                            last_access: now,
                        },
                    )
                }
            },
        }
    }
}

/// Applies the lines of `brain.ndjson` in order.
pub open spec fn overlay(
    m: Map<Seq<char>, EntryModel>,
    lines: Seq<Seq<char>>,
    now: i64,
) -> Map<Seq<char>, EntryModel>
    decreases lines.len(),
{
    if lines.len() == 0 {
        m
    } else {
        overlay_line(overlay(m, lines.drop_last(), now), lines.last(), now)
    }
}

/// The canonical memories: the surviving versions of the musings log, with the shared
/// file laid over them.
pub open spec fn canonical(log: Seq<EntryModel>, lines: Seq<Seq<char>>, now: i64) -> Map<
    Seq<char>,
    EntryModel,
> {
    overlay(latest_map(log), lines, now)
}

/// The identifier a line of `brain.ndjson` names, when the line is applied at all.
pub open spec fn line_id(line: Seq<char>) -> Option<Seq<char>> {
    if all_ws(line) {
        None
    } else {
        match json_stateless_record(line) {
            None => None,
            Some(r) => {
                let id = match r.0 {
                    Some(s) => s,
                    None => Seq::<char>::empty(),
                };
                if id.len() == 0 {
                    None
                } else {
                    Some(id)
                }
            },
        }
    }
}

/// Merging loses nothing and adds exactly the shared file's memories: the canonical set
/// holds every memory of the musings log and every memory named by a line of
/// `brain.ndjson`, and nothing else. A memory already known keeps its timestamps,
/// access count and source.
pub proof fn lemma_canonical_domain(log: Seq<EntryModel>, lines: Seq<Seq<char>>, now: i64)
    ensures
        forall|id: Seq<char>|
            #[trigger] canonical(log, lines, now).contains_key(id) <==> (winner(log, id) is Some
                || exists|k: int| 0 <= k < lines.len() && line_id(lines[k]) == Some(id)),
        forall|id: Seq<char>|
            #[trigger] latest_map(log).contains_key(id) ==> {
                let before = latest_map(log)[id];
                let after = canonical(log, lines, now)[id];
                &&& after.timestamp == before.timestamp
                &&& after.access_count == before.access_count
                &&& after.last_access == before.last_access
                &&& after.source == before.source
            },
{
    lemma_overlay_domain(latest_map(log), lines, now);
}

proof fn lemma_overlay_domain(m: Map<Seq<char>, EntryModel>, lines: Seq<Seq<char>>, now: i64)
    ensures
        forall|id: Seq<char>|
            #[trigger] overlay(m, lines, now).contains_key(id) <==> (m.contains_key(id) || exists|k: int|
                0 <= k < lines.len() && line_id(lines[k]) == Some(id)),
        forall|id: Seq<char>|
            #[trigger] m.contains_key(id) ==> {
                &&& overlay(m, lines, now)[id].timestamp == m[id].timestamp
                &&& overlay(m, lines, now)[id].access_count == m[id].access_count
                &&& overlay(m, lines, now)[id].last_access == m[id].last_access
                &&& overlay(m, lines, now)[id].source == m[id].source
            },
    decreases lines.len(),
{
    if lines.len() > 0 {
        let t = lines.drop_last();
        lemma_overlay_domain(m, t, now);
        let prev = overlay(m, t, now);
        let cur = overlay(m, lines, now);
        let l = lines.last();
        assert(cur == overlay_line(prev, l, now));
        assert forall|id: Seq<char>| #[trigger] cur.contains_key(id) <==> (m.contains_key(id)
            || exists|k: int| 0 <= k < lines.len() && line_id(lines[k]) == Some(id)) by {
            if exists|k: int| 0 <= k < lines.len() && line_id(lines[k]) == Some(id) {
                let k = choose|k: int| 0 <= k < lines.len() && line_id(lines[k]) == Some(id);
                if k < t.len() {
                    assert(t[k] == lines[k]);
                } else {
                    assert(lines[k] == l);
                }
            }
            if exists|k: int| 0 <= k < t.len() && line_id(t[k]) == Some(id) {
                let k = choose|k: int| 0 <= k < t.len() && line_id(t[k]) == Some(id);
                assert(lines[k] == t[k]);
            }
            if line_id(l) == Some(id) {
                assert(lines[lines.len() - 1] == l);
            }
        }
    }
}

/// What merging the shared entry `e` does to the keyed memories `m` at time `now`: the
/// entry carries `e`'s content and shown tags (and their stems); it keeps the timestamps,
/// access count and source it had in `m`, or starts as new at `now` with one access.
pub open spec fn merged_entry(m: Map<Seq<char>, EntryModel>, e: EntryModel, now: i64) -> EntryModel {
    let tags = shown_tags(e);
    if m.contains_key(e.id) {
        EntryModel { content: e.content, tags, associations: stems_of(tags), ..m[e.id] }
    } else {
        EntryModel {
            id: e.id,
            content: e.content,
            timestamp: now,
            tags,
            associations: stems_of(tags),
            source: None,
            access_count: 1,
            last_access: now,
        }
    }
}

proof fn lemma_string_items_all(xs: Seq<Seq<char>>)
    ensures
        string_items(xs.map_values(|t: Seq<char>| Some(t))) == xs,
    decreases xs.len(),
{
    if xs.len() > 0 {
        lemma_string_items_all(xs.drop_last());
        assert(xs.map_values(|t: Seq<char>| Some(t)).drop_last() =~= xs.drop_last().map_values(
            |t: Seq<char>| Some(t),
        ));
        assert(xs.drop_last().push(xs.last()) =~= xs);
    }
}

proof fn lemma_overlay_exports(
    m: Map<Seq<char>, EntryModel>,
    es: Seq<EntryModel>,
    lines: Seq<Seq<char>>,
    now: i64,
)
    requires
        distinct_ids(es),
        forall|k: int| 0 <= k < es.len() ==> (#[trigger] es[k]).id.len() > 0,
        lines.len() == es.len(),
        forall|k: int|
            0 <= k < lines.len() ==> !all_ws(#[trigger] lines[k]) && json_stateless_record(lines[k])
                == Some(record_of(es[k])),
    ensures
        forall|id: Seq<char>|
            #[trigger] overlay(m, lines, now).contains_key(id) <==> (m.contains_key(id) || has_id(
                es,
                id,
            )),
        forall|k: int|
            0 <= k < es.len() ==> overlay(m, lines, now)[(#[trigger] es[k]).id] == merged_entry(
                m,
                es[k],
                now,
            ),
        forall|id: Seq<char>|
            m.contains_key(id) && !has_id(es, id) ==> #[trigger] overlay(m, lines, now)[id] == m[id],
    decreases lines.len(),
{
    if lines.len() > 0 {
        let es0 = es.drop_last();
        let l0 = lines.drop_last();
        let e = es.last();
        let last = es.len() - 1;
        assert forall|i: int, j: int| 0 <= i < es0.len() && 0 <= j < es0.len() && i != j implies es0[i].id
            != es0[j].id by {
            assert(es[i].id != es[j].id);
        }
        assert forall|k: int| 0 <= k < es0.len() implies (#[trigger] es0[k]).id.len() > 0 by {
            assert(es[k] == es0[k]);
        }
        assert forall|k: int| 0 <= k < l0.len() implies !all_ws(#[trigger] l0[k]) && json_stateless_record(
            l0[k],
        ) == Some(record_of(es0[k])) by {
            assert(lines[k] == l0[k]);
            assert(es[k] == es0[k]);
        }
        lemma_overlay_exports(m, es0, l0, now);
        let prev = overlay(m, l0, now);
        let cur = overlay(m, lines, now);
        assert(lines[last] == lines.last());
        assert(es[last] == e);
        lemma_string_items_all(shown_tags(e));
        assert(e.id.len() > 0);
        // The last identifier is new to the prefix.
        assert(!has_id(es0, e.id)) by {
            if has_id(es0, e.id) {
                let k = choose|k: int| 0 <= k < es0.len() && (#[trigger] es0[k]).id == e.id;
                assert(es[k].id != es[last].id);
            }
        }
        assert(prev.contains_key(e.id) == m.contains_key(e.id));
        if m.contains_key(e.id) {
            assert(prev[e.id] == m[e.id]);
        }
        assert(cur == prev.insert(e.id, merged_entry(m, e, now)));
        assert forall|id: Seq<char>| #[trigger] cur.contains_key(id) <==> (m.contains_key(id) || has_id(
            es,
            id,
        )) by {
            if has_id(es, id) && id != e.id {
                let k = choose|k: int| 0 <= k < es.len() && (#[trigger] es[k]).id == id;
                assert(k != last);
                assert(es0[k].id == id);
            }
            if has_id(es0, id) {
                let k = choose|k: int| 0 <= k < es0.len() && (#[trigger] es0[k]).id == id;
                assert(es[k].id == id);
            }
            if id == e.id {
                assert(es[last].id == id);
            }
        }
        assert forall|k: int| 0 <= k < es.len() implies cur[(#[trigger] es[k]).id] == merged_entry(
            m,
            es[k],
            now,
        ) by {
            if k < last {
                assert(es0[k] == es[k]);
                assert(es[k].id != e.id);
            }
        }
        assert forall|id: Seq<char>| m.contains_key(id) && !has_id(es, id) implies #[trigger] cur[id]
            == m[id] by {
            assert(id != es[last].id);
            if has_id(es0, id) {
                let k = choose|k: int| 0 <= k < es0.len() && (#[trigger] es0[k]).id == id;
                assert(es[k].id == id);
            }
        }
    }
}

/// A snapshot exported by `med commit` and merged by another agent: when `lines` are what
/// `med commit` writes for the log `shared` and they are merged with the log `local`, the
/// canonical set holds exactly the memories of both logs; every memory of the snapshot
/// carries its shared content and shown tags (with their stems), and keeps the local
/// agent's timestamps, access count and source when that agent knew it; a memory only
/// the local agent knew is its own surviving version, unchanged. (A memory whose
/// identifier is empty is left out of a merge, so the snapshot must have none.)
pub proof fn lemma_commit_then_merge(
    local: Seq<EntryModel>,
    shared: Seq<EntryModel>,
    lines: Seq<Seq<char>>,
    now: i64,
)
    requires
        is_commit_of(shared, committed(shared)),
        is_export(committed(shared), lines),
        forall|id: Seq<char>| #[trigger] winner(shared, id) is Some ==> id.len() > 0,
    ensures
        forall|id: Seq<char>|
            #[trigger] canonical(local, lines, now).contains_key(id) <==> (winner(local, id) is Some
                || winner(shared, id) is Some),
        forall|id: Seq<char>|
            #[trigger] winner(shared, id) is Some ==> canonical(local, lines, now)[id]
                == merged_entry(latest_map(local), winner(shared, id).unwrap(), now),
        forall|id: Seq<char>|
            winner(local, id) is Some && winner(shared, id) is None ==> #[trigger] canonical(
                local,
                lines,
                now,
            )[id] == winner(local, id).unwrap(),
{
    let es = committed(shared);
    let m = latest_map(local);
    assert forall|k: int| 0 <= k < es.len() implies (#[trigger] es[k]).id.len() > 0 by {
        assert(winner(shared, es[k].id) == Some(es[k]));
    }
    assert forall|k: int| 0 <= k < lines.len() implies !all_ws(#[trigger] lines[k])
        && json_stateless_record(lines[k]) == Some(record_of(es[k])) by {
        assert(lines[k] == export_line(es[k]));
    }
    lemma_overlay_exports(m, es, lines, now);
    assert forall|id: Seq<char>| has_id(es, id) <==> #[trigger] (winner(shared, id) is Some) by {
        if has_id(es, id) {
            let k = choose|k: int| 0 <= k < es.len() && (#[trigger] es[k]).id == id;
            assert(winner(shared, es[k].id) == Some(es[k]));
        }
    }
    assert forall|id: Seq<char>| #[trigger] winner(shared, id) is Some implies canonical(
        local,
        lines,
        now,
    )[id] == merged_entry(m, winner(shared, id).unwrap(), now) by {
        let k = choose|k: int| 0 <= k < es.len() && (#[trigger] es[k]).id == id;
        assert(winner(shared, es[k].id) == Some(es[k]));
    }
}

fn present_strings(v: &Option<Vec<Option<String>>>) -> (r: Vec<String>)
    ensures
        r.deep_view() == match v.deep_view() {
            Some(xs) => string_items(xs),
            None => Seq::<Seq<char>>::empty(),
        },
{
    let mut out: Vec<String> = Vec::new();
    match v {
        None => {
            proof {
                assert(out.deep_view() =~= Seq::<Seq<char>>::empty());
            }
        },
        Some(xs) => {
            let n = xs.len();
            proof {
                assert(xs.deep_view().take(0) =~= Seq::<Option<Seq<char>>>::empty());
                assert(out.deep_view() =~= Seq::<Seq<char>>::empty());
            }
            for i in 0..n
                invariant
                    n == xs@.len(),
                    out.deep_view() == string_items(xs.deep_view().take(i as int)),
            {
                let ghost before = out.deep_view();
                proof {
                    let d = xs.deep_view();
                    assert(d.take(i + 1).drop_last() =~= d.take(i as int));
                    assert(d.take(i + 1).last() == xs@[i as int].deep_view());
                }
                match &xs[i] {
                    Some(s) => {
                        out.push(s.clone());
                        proof {
                            assert(out.deep_view() =~= before.push(s@));
                        }
                    },
                    None => {},
                }
            }
            proof {
                assert(xs.deep_view().take(n as int) =~= xs.deep_view());
            }
        },
    }
    out
}

/// Stems every tag.
pub fn stem_all(tags: &Vec<String>) -> (r: Vec<String>)
    ensures
        r.deep_view() == stems_of(tags.deep_view()),
{
    let mut out: Vec<String> = Vec::new();
    let n = tags.len();
    for i in 0..n
        invariant
            n == tags@.len(),
            out.deep_view() == stems_of(tags.deep_view().take(i as int)),
    {
        let s = stem_english(tags[i].as_str());
        let ghost before = out.deep_view();
        out.push(s);
        proof {
            assert(out.deep_view() =~= before.push(s@));
            assert(stems_of(tags.deep_view().take(i + 1)) =~= stems_of(
                tags.deep_view().take(i as int),
            ).push(english_stem(tags@[i as int]@)));
        }
    }
    proof {
        assert(tags.deep_view().take(n as int) =~= tags.deep_view());
    }
    out
}

fn text_or_empty(v: Option<String>) -> (r: String)
    ensures
        r@ == match v.deep_view() {
            Some(s) => s,
            None => Seq::<char>::empty(),
        },
{
    match v {
        Some(s) => s,
        None => String::new(),
    }
}

/// Merges the parsed musings log (in file order) with the lines of `brain.ndjson`:
/// every memory appears once, keyed as [`canonical`] says.
pub fn build_canonical_entries(
    musings: &Vec<MemoryEntry>,
    brain_lines: &Vec<String>,
    now_ms: i64,
) -> (r: Vec<MemoryEntry>)
    ensures
        distinct_ids(models(r@)),
        keyed(models(r@)) == canonical(models(musings@), brain_lines.deep_view(), now_ms),
{
    let mut out = latest_by_id(musings);
    let ghost base = latest_map(models(musings@));
    proof {
        lemma_keyed_latest(models(musings@), models(out@));
        assert(brain_lines.deep_view().take(0) =~= Seq::<Seq<char>>::empty());
    }
    let n = brain_lines.len();
    for i in 0..n
        invariant
            n == brain_lines@.len(),
            base == latest_map(models(musings@)),
            distinct_ids(models(out@)),
            keyed(models(out@)) == overlay(base, brain_lines.deep_view().take(i as int), now_ms),
    {
        let line = &brain_lines[i];
        let ghost lines = brain_lines.deep_view();
        let ghost before = models(out@);
        proof {
            assert(lines.take(i + 1).drop_last() =~= lines.take(i as int));
            assert(lines.take(i + 1).last() == line@);
        }
        if !is_blank(line.as_str()) {
            match parse_stateless_record(line.as_str()) {
                None => {},
                Some(rec) => {
                    let StatelessRecord { id, content, tags } = rec;
                    let id = text_or_empty(id);
                    let content = text_or_empty(content);
                    let tags = present_strings(&tags);
                    if !id.as_str().is_empty() {
                        let stems = stem_all(&tags);
                        match find_id(&out, &id) {
                            Some(p) => {
                                let old = out[p].duplicate();
                                let e = MemoryEntry {
                                    id: old.id,
                                    content,
                                    timestamp: old.timestamp,
                                    tags,
                                    associations: stems,
                                    source: old.source,
                                    access_count: old.access_count,
                                    last_access: old.last_access,
                                };
                                proof {
                                    lemma_index_of_id(before, p as int);
                                    lemma_keyed_update(before, p as int, e@);
                                }
                                out.set(p, e);
                                proof {
                                    assert(models(out@) =~= before.update(p as int, e@));
                                }
                            },
                            None => {
                                let e = MemoryEntry {
                                    id,
                                    content,
                                    timestamp: now_ms,
                                    tags,
                                    associations: stems,
                                    source: None,
                                    access_count: 1,
                                    last_access: now_ms,
                                };
                                proof {
                                    assert(!has_id(before, e@.id));
                                    lemma_keyed_push(before, e@);
                                }
                                out.push(e);
                                proof {
                                    assert(models(out@) =~= before.push(e@));
                                }
                            },
                        }
                    }
                },
            }
        }
    }
    proof {
        assert(brain_lines.deep_view().take(n as int) =~= brain_lines.deep_view());
    }
    out
}

// ---------------------------------------------------------------- cache rows

/// An entry as the ranked cache stores it: its shown tags in place of its tags.
pub open spec fn cache_row(e: EntryModel) -> EntryModel {
    EntryModel { tags: shown_tags(e), ..e }
}

/// The rows of the ranked cache: one row per memory, its newest version (a later entry
/// wins a tie) with its shown tags, in descending order of identifier, as sorting by
/// identifier and timestamp (both descending) and keeping the first row of each
/// identifier leaves them. The application adds each row's activation score.
pub fn brain_rows(canonical: &Vec<MemoryEntry>) -> (r: Vec<MemoryEntry>)
    ensures
        r@.len() == committed(models(canonical@)).len(),
        forall|k: int|
            0 <= k < r@.len() ==> (#[trigger] r@[k])@ == cache_row(
                committed(models(canonical@))[committed(models(canonical@)).len() - 1 - k],
            ),
{
    let sorted = snapshot(canonical);
    let ghost c = models(sorted@);
    let mut out: Vec<MemoryEntry> = Vec::new();
    let n = sorted.len();
    let mut i = n;
    while i > 0
        invariant
            n == sorted@.len(),
            c == models(sorted@),
            i <= n,
            out@.len() == n - i,
            forall|k: int| 0 <= k < out@.len() ==> (#[trigger] out@[k])@ == cache_row(c[n - 1 - k]),
        decreases i,
    {
        i = i - 1;
        let mut e = sorted[i].duplicate();
        e.tags = sorted[i].display_tags();
        out.push(e);
    }
    out
}

// ---------------------------------------------------------------- Hebbian wiring

/// The ordered pairs `(x, a[j])` with `j < n` and `x < a[j]`, in order of `j`.
pub open spec fn row_pairs(a: Seq<Seq<char>>, x: Seq<char>, n: int, ts: i64) -> Seq<
    CoActivationModel,
>
    decreases n,
{
    if n <= 0 {
        Seq::<CoActivationModel>::empty()
    } else {
        let prev = row_pairs(a, x, n - 1, ts);
        if seq_lt(x, a[n - 1]) {
            prev.push(CoActivationModel { tag_a: x, tag_b: a[n - 1], timestamp: ts })
        } else {
            prev
        }
    }
}

/// The pairs `(a[i], a[j])` with `i < m` and `a[i] < a[j]`, row by row.
pub open spec fn all_pairs(a: Seq<Seq<char>>, m: int, ts: i64) -> Seq<CoActivationModel>
    decreases m,
{
    if m <= 0 {
        Seq::<CoActivationModel>::empty()
    } else {
        all_pairs(a, m - 1, ts) + row_pairs(a, a[m - 1], a.len() as int, ts)
    }
}

/// The co-activations of one memory: every pair of its stems, the smaller first, counted
/// once per pair of positions (a repeated stem counts each time), at the memory's
/// timestamp. A memory with fewer than two stems wires nothing.
pub open spec fn entry_coactivations(e: EntryModel) -> Seq<CoActivationModel> {
    if e.associations.len() > 1 {
        all_pairs(e.associations, e.associations.len() as int, e.timestamp)
    } else {
        Seq::<CoActivationModel>::empty()
    }
}

/// The co-activations of all memories, memory by memory.
pub open spec fn coactivations(es: Seq<EntryModel>) -> Seq<CoActivationModel>
    decreases es.len(),
{
    if es.len() == 0 {
        Seq::<CoActivationModel>::empty()
    } else {
        coactivations(es.drop_last()) + entry_coactivations(es.last())
    }
}

/// The models of a sequence of co-activations.
pub open spec fn co_models(v: Seq<CoActivation>) -> Seq<CoActivationModel> {
    v.map_values(|c: CoActivation| c@)
}

fn push_row_pairs(out: &mut Vec<CoActivation>, a: &Vec<String>, x: &String, ts: i64)
    ensures
        co_models(final(out)@) == co_models(old(out)@) + row_pairs(
            a.deep_view(),
            x@,
            a@.len() as int,
            ts,
        ),
{
    let n = a.len();
    let ghost start = co_models(out@);
    for j in 0..n
        invariant
            n == a@.len(),
            co_models(out@) == start + row_pairs(a.deep_view(), x@, j as int, ts),
    {
        let ghost before = co_models(out@);
        if str_lt(x.as_str(), a[j].as_str()) {
            let c = CoActivation { tag_a: x.clone(), tag_b: a[j].clone(), timestamp: ts };
            out.push(c);
            proof {
                assert(co_models(out@) =~= before.push(c@));
            }
        }
        proof {
            assert(a.deep_view()[j as int] == a@[j as int]@);
        }
    }
}

proof fn lemma_row_pairs_origin(a: Seq<Seq<char>>, x: Seq<char>, n: int, ts: i64)
    requires
        0 <= n <= a.len(),
    ensures
        forall|k: int|
            0 <= k < row_pairs(a, x, n, ts).len() ==> {
                let c = #[trigger] row_pairs(a, x, n, ts)[k];
                &&& c.timestamp == ts
                &&& c.tag_a == x
                &&& a.take(n).contains(c.tag_b)
                &&& seq_lt(c.tag_a, c.tag_b)
            },
    decreases n,
{
    if n > 0 {
        lemma_row_pairs_origin(a, x, n - 1, ts);
        let prev = row_pairs(a, x, n - 1, ts);
        let cur = row_pairs(a, x, n, ts);
        assert forall|k: int| 0 <= k < cur.len() implies {
            let c = #[trigger] cur[k];
            &&& c.timestamp == ts
            &&& c.tag_a == x
            &&& a.take(n).contains(c.tag_b)
            &&& seq_lt(c.tag_a, c.tag_b)
        } by {
            if k < prev.len() {
                assert(cur[k] == prev[k]);
                let q = choose|q: int| 0 <= q < n - 1 && #[trigger] a.take(n - 1)[q] == prev[k].tag_b;
                assert(a.take(n)[q] == prev[k].tag_b);
            } else {
                assert(a.take(n)[n - 1] == a[n - 1]);
            }
        }
    }
}

proof fn lemma_all_pairs_origin(a: Seq<Seq<char>>, m: int, ts: i64)
    requires
        0 <= m <= a.len(),
    ensures
        forall|k: int|
            0 <= k < all_pairs(a, m, ts).len() ==> {
                let c = #[trigger] all_pairs(a, m, ts)[k];
                &&& c.timestamp == ts
                &&& a.contains(c.tag_a)
                &&& a.contains(c.tag_b)
                &&& seq_lt(c.tag_a, c.tag_b)
            },
    decreases m,
{
    if m > 0 {
        lemma_all_pairs_origin(a, m - 1, ts);
        lemma_row_pairs_origin(a, a[m - 1], a.len() as int, ts);
        let prev = all_pairs(a, m - 1, ts);
        let row = row_pairs(a, a[m - 1], a.len() as int, ts);
        assert(a.take(a.len() as int) =~= a);
        assert forall|k: int| 0 <= k < (prev + row).len() implies {
            let c = #[trigger] (prev + row)[k];
            &&& c.timestamp == ts
            &&& a.contains(c.tag_a)
            &&& a.contains(c.tag_b)
            &&& seq_lt(c.tag_a, c.tag_b)
        } by {
            if k < prev.len() {
                assert((prev + row)[k] == prev[k]);
            } else {
                assert((prev + row)[k] == row[k - prev.len()]);
                assert(a[m - 1] == a[m - 1]);
                assert(a.contains(a[m - 1]));
            }
        }
    }
}

/// Where a co-activation comes from: it joins two stems of one memory, the smaller
/// first, and carries that memory's timestamp (the time the memory was written, not
/// when it was last accessed).
pub proof fn lemma_coactivation_origin(es: Seq<EntryModel>)
    ensures
        forall|k: int|
            0 <= k < coactivations(es).len() ==> exists|i: int|
                0 <= i < es.len() && {
                    let c = #[trigger] coactivations(es)[k];
                    &&& c.timestamp == (#[trigger] es[i]).timestamp
                    &&& es[i].associations.contains(c.tag_a)
                    &&& es[i].associations.contains(c.tag_b)
                    &&& seq_lt(c.tag_a, c.tag_b)
                },
    decreases es.len(),
{
    if es.len() > 0 {
        let t = es.drop_last();
        let e = es.last();
        lemma_coactivation_origin(t);
        let prev = coactivations(t);
        let own = entry_coactivations(e);
        if e.associations.len() > 1 {
            lemma_all_pairs_origin(e.associations, e.associations.len() as int, e.timestamp);
        }
        assert forall|k: int| 0 <= k < coactivations(es).len() implies exists|i: int|
            0 <= i < es.len() && {
                let c = #[trigger] coactivations(es)[k];
                &&& c.timestamp == (#[trigger] es[i]).timestamp
                &&& es[i].associations.contains(c.tag_a)
                &&& es[i].associations.contains(c.tag_b)
                &&& seq_lt(c.tag_a, c.tag_b)
            } by {
            assert(coactivations(es) == prev + own);
            if k < prev.len() {
                assert(coactivations(es)[k] == prev[k]);
                let i = choose|i: int|
                    0 <= i < t.len() && {
                        let c = #[trigger] coactivations(t)[k];
                        &&& c.timestamp == (#[trigger] t[i]).timestamp
                        &&& t[i].associations.contains(c.tag_a)
                        &&& t[i].associations.contains(c.tag_b)
                        &&& seq_lt(c.tag_a, c.tag_b)
                    };
                assert(es[i] == t[i]);
            } else {
                assert(coactivations(es)[k] == own[k - prev.len()]);
                assert(es[es.len() - 1] == e);
            }
        }
    }
}

/// The co-activations depend on the memories' stems and timestamps alone: two lists of
/// memories that agree on those (whatever their content, tags, access counts or access
/// times) wire the same pairs at the same times.
pub proof fn lemma_coactivations_use_stems_and_time(es1: Seq<EntryModel>, es2: Seq<EntryModel>)
    requires
        es1.len() == es2.len(),
        forall|i: int|
            0 <= i < es1.len() ==> (#[trigger] es1[i]).associations == es2[i].associations
                && es1[i].timestamp == es2[i].timestamp,
    ensures
        coactivations(es1) == coactivations(es2),
    decreases es1.len(),
{
    if es1.len() > 0 {
        let t1 = es1.drop_last();
        let t2 = es2.drop_last();
        assert forall|i: int| 0 <= i < t1.len() implies (#[trigger] t1[i]).associations
            == t2[i].associations && t1[i].timestamp == t2[i].timestamp by {
            assert(t1[i] == es1[i] && t2[i] == es2[i]);
        }
        lemma_coactivations_use_stems_and_time(t1, t2);
        assert(es1.last() == es1[es1.len() - 1]);
        assert(es2.last() == es2[es2.len() - 1]);
    }
}

/// Every pair of stems that occurs together on a memory, with that memory's timestamp:
/// for a set of memories with distinct identifiers, such as the canonical set, what the
/// self-join of the exploded stems on the identifier yields.
pub fn co_activations(canonical: &Vec<MemoryEntry>) -> (r: Vec<CoActivation>)
    ensures
        co_models(r@) == coactivations(models(canonical@)),
        forall|k: int|
            0 <= k < r@.len() ==> exists|i: int|
                0 <= i < canonical@.len() && {
                    let c = (#[trigger] r@[k])@;
                    &&& c.timestamp == (#[trigger] canonical@[i]).timestamp
                    &&& canonical@[i]@.associations.contains(c.tag_a)
                    &&& canonical@[i]@.associations.contains(c.tag_b)
                    &&& seq_lt(c.tag_a, c.tag_b)
                },
{
    let mut out: Vec<CoActivation> = Vec::new();
    let n = canonical.len();
    let ghost es = models(canonical@);
    proof {
        assert(es.take(0) =~= Seq::<EntryModel>::empty());
        assert(co_models(out@) =~= Seq::<CoActivationModel>::empty());
    }
    for i in 0..n
        invariant
            n == canonical@.len(),
            es == models(canonical@),
            co_models(out@) == coactivations(es.take(i as int)),
    {
        let e = &canonical[i];
        let ghost before = co_models(out@);
        proof {
            assert(es.take(i + 1).drop_last() =~= es.take(i as int));
            assert(es.take(i + 1).last() == e@);
        }
        let m = e.associations.len();
        if m > 1 {
            for k in 0..m
                invariant
                    m == e.associations@.len(),
                    co_models(out@) == before + all_pairs(e@.associations, k as int, e.timestamp),
            {
                let ghost mid = co_models(out@);
                push_row_pairs(&mut out, &e.associations, &e.associations[k], e.timestamp);
                proof {
                    assert(e@.associations[k as int] == e.associations@[k as int]@);
                    assert(co_models(out@) =~= before + all_pairs(
                        e@.associations,
                        k + 1,
                        e.timestamp,
                    ));
                }
            }
        } else {
            proof {
                assert(co_models(out@) =~= before + entry_coactivations(e@));
            }
        }
    }
    proof {
        assert(es.take(n as int) =~= es);
        lemma_coactivation_origin(es);
        assert forall|k: int| 0 <= k < out@.len() implies exists|i: int|
            0 <= i < canonical@.len() && {
                let c = (#[trigger] out@[k])@;
                &&& c.timestamp == (#[trigger] canonical@[i]).timestamp
                &&& canonical@[i]@.associations.contains(c.tag_a)
                &&& canonical@[i]@.associations.contains(c.tag_b)
                &&& seq_lt(c.tag_a, c.tag_b)
            } by {
            assert(co_models(out@)[k] == out@[k]@);
            let i = choose|i: int|
                0 <= i < es.len() && {
                    let c = #[trigger] coactivations(es)[k];
                    &&& c.timestamp == (#[trigger] es[i]).timestamp
                    &&& es[i].associations.contains(c.tag_a)
                    &&& es[i].associations.contains(c.tag_b)
                    &&& seq_lt(c.tag_a, c.tag_b)
                };
            assert(es[i] == canonical@[i]@);
        }
    }
    out
}

/// The signal of one synapse: how often a pair of stems fired together and when last.
pub struct SynapseSignal {
    pub tag_a: String,
    pub tag_b: String,
    pub signal_count: usize,
    pub last_seen: i64,
}

/// The mathematical model of a [`SynapseSignal`].
pub struct SignalModel {
    pub tag_a: Seq<char>,
    pub tag_b: Seq<char>,
    pub signal_count: nat,
    pub last_seen: i64,
}

impl View for SynapseSignal {
    type V = SignalModel;

    open spec fn view(&self) -> SignalModel {
        SignalModel {
            tag_a: self.tag_a@,
            tag_b: self.tag_b@,
            signal_count: self.signal_count as nat,
            last_seen: self.last_seen,
        }
    }
}

/// The models of a sequence of signals.
pub open spec fn signal_models(v: Seq<SynapseSignal>) -> Seq<SignalModel> {
    v.map_values(|s: SynapseSignal| s@)
}

/// How many co-activations join `a` and `b`.
pub open spec fn pair_count(cs: Seq<CoActivationModel>, a: Seq<char>, b: Seq<char>) -> nat
    decreases cs.len(),
{
    if cs.len() == 0 {
        0
    } else {
        let prev = pair_count(cs.drop_last(), a, b);
        if cs.last().tag_a == a && cs.last().tag_b == b {
            prev + 1
        } else {
            prev
        }
    }
}

/// The latest timestamp among the co-activations that join `a` and `b`.
pub open spec fn pair_last_seen(cs: Seq<CoActivationModel>, a: Seq<char>, b: Seq<char>) -> i64
    decreases cs.len(),
{
    if cs.len() == 0 {
        i64::MIN
    } else {
        let prev = pair_last_seen(cs.drop_last(), a, b);
        let c = cs.last();
        if c.tag_a == a && c.tag_b == b && (pair_count(cs.drop_last(), a, b) == 0
            || c.timestamp > prev) {
            c.timestamp
        } else {
            prev
        }
    }
}

/// `out` holds one signal per pair that fires in `cs`, with its count and latest time.
pub open spec fn is_signal_set(cs: Seq<CoActivationModel>, out: Seq<SignalModel>) -> bool {
    &&& forall|i: int, j: int|
        0 <= i < out.len() && 0 <= j < out.len() && i != j ==> !(out[i].tag_a == out[j].tag_a
            && out[i].tag_b == out[j].tag_b)
    &&& forall|k: int|
        0 <= k < out.len() ==> {
            &&& (#[trigger] out[k]).signal_count == pair_count(cs, out[k].tag_a, out[k].tag_b)
            &&& out[k].signal_count > 0
            &&& out[k].last_seen == pair_last_seen(cs, out[k].tag_a, out[k].tag_b)
        }
    &&& forall|a: Seq<char>, b: Seq<char>|
        #[trigger] pair_count(cs, a, b) > 0 ==> exists|k: int|
            0 <= k < out.len() && (#[trigger] out[k]).tag_a == a && out[k].tag_b == b
}

/// The last-seen time of a pair is the latest timestamp among the co-activations that
/// join it: one of them carries it, and none is later.
pub proof fn lemma_pair_last_seen_max(cs: Seq<CoActivationModel>, a: Seq<char>, b: Seq<char>)
    ensures
        pair_count(cs, a, b) > 0 ==> exists|k: int|
            0 <= k < cs.len() && (#[trigger] cs[k]).tag_a == a && cs[k].tag_b == b && cs[k].timestamp
                == pair_last_seen(cs, a, b),
        forall|k: int|
            0 <= k < cs.len() && (#[trigger] cs[k]).tag_a == a && cs[k].tag_b == b ==> cs[k].timestamp
                <= pair_last_seen(cs, a, b),
        pair_count(cs, a, b) > 0 <==> exists|k: int|
            0 <= k < cs.len() && (#[trigger] cs[k]).tag_a == a && cs[k].tag_b == b,
    decreases cs.len(),
{
    if cs.len() > 0 {
        let t = cs.drop_last();
        lemma_pair_last_seen_max(t, a, b);
        let c = cs.last();
        assert(cs[cs.len() - 1] == c);
        if pair_count(t, a, b) > 0 {
            let k = choose|k: int|
                0 <= k < t.len() && (#[trigger] t[k]).tag_a == a && t[k].tag_b == b && t[k].timestamp
                    == pair_last_seen(t, a, b);
            assert(cs[k] == t[k]);
        }
        assert forall|k: int|
            0 <= k < cs.len() && (#[trigger] cs[k]).tag_a == a && cs[k].tag_b == b implies cs[k].timestamp
            <= pair_last_seen(cs, a, b) by {
            if k < t.len() {
                assert(cs[k] == t[k]);
            }
        }
        if exists|k: int| 0 <= k < cs.len() && (#[trigger] cs[k]).tag_a == a && cs[k].tag_b == b {
            let k = choose|k: int| 0 <= k < cs.len() && (#[trigger] cs[k]).tag_a == a && cs[k].tag_b == b;
            if k < t.len() {
                assert(t[k] == cs[k]);
            }
        }
        if exists|k: int| 0 <= k < t.len() && (#[trigger] t[k]).tag_a == a && t[k].tag_b == b {
            let k = choose|k: int| 0 <= k < t.len() && (#[trigger] t[k]).tag_a == a && t[k].tag_b == b;
            assert(cs[k] == t[k]);
        }
    }
}

proof fn lemma_row_pairs_complete(a: Seq<Seq<char>>, x: Seq<char>, n: int, ts: i64, j: int)
    requires
        0 <= j < n <= a.len(),
        seq_lt(x, a[j]),
    ensures
        row_pairs(a, x, n, ts).contains(CoActivationModel { tag_a: x, tag_b: a[j], timestamp: ts }),
    decreases n,
{
    let want = CoActivationModel { tag_a: x, tag_b: a[j], timestamp: ts };
    let prev = row_pairs(a, x, n - 1, ts);
    if j < n - 1 {
        lemma_row_pairs_complete(a, x, n - 1, ts, j);
        let q = choose|q: int| 0 <= q < prev.len() && prev[q] == want;
        if seq_lt(x, a[n - 1]) {
            assert(row_pairs(a, x, n, ts)[q] == want);
        }
    } else {
        assert(row_pairs(a, x, n, ts)[prev.len() as int] == want);
    }
}

proof fn lemma_all_pairs_complete(a: Seq<Seq<char>>, m: int, ts: i64, i: int, j: int)
    requires
        0 <= i < m <= a.len(),
        0 <= j < a.len(),
        seq_lt(a[i], a[j]),
    ensures
        all_pairs(a, m, ts).contains(CoActivationModel { tag_a: a[i], tag_b: a[j], timestamp: ts }),
    decreases m,
{
    let want = CoActivationModel { tag_a: a[i], tag_b: a[j], timestamp: ts };
    let prev = all_pairs(a, m - 1, ts);
    let row = row_pairs(a, a[m - 1], a.len() as int, ts);
    assert(all_pairs(a, m, ts) == prev + row);
    if i < m - 1 {
        lemma_all_pairs_complete(a, m - 1, ts, i, j);
        let q = choose|q: int| 0 <= q < prev.len() && prev[q] == want;
        assert((prev + row)[q] == want);
    } else {
        lemma_row_pairs_complete(a, a[m - 1], a.len() as int, ts, j);
        let q = choose|q: int| 0 <= q < row.len() && row[q] == want;
        assert((prev + row)[prev.len() + q] == want);
    }
}

/// Every two stems of a memory, the smaller first, are wired at that memory's timestamp.
pub proof fn lemma_coactivations_complete(es: Seq<EntryModel>, i: int, p: int, q: int)
    requires
        0 <= i < es.len(),
        0 <= p < es[i].associations.len(),
        0 <= q < es[i].associations.len(),
        seq_lt(es[i].associations[p], es[i].associations[q]),
    ensures
        coactivations(es).contains(
            CoActivationModel {
                tag_a: es[i].associations[p],
                tag_b: es[i].associations[q],
                timestamp: es[i].timestamp,
            },
        ),
    decreases es.len(),
{
    let want = CoActivationModel {
        tag_a: es[i].associations[p],
        tag_b: es[i].associations[q],
        timestamp: es[i].timestamp,
    };
    let t = es.drop_last();
    let prev = coactivations(t);
    let own = entry_coactivations(es.last());
    assert(coactivations(es) == prev + own);
    if i < es.len() - 1 {
        assert(t[i] == es[i]);
        lemma_coactivations_complete(t, i, p, q);
        let k = choose|k: int| 0 <= k < prev.len() && prev[k] == want;
        assert((prev + own)[k] == want);
    } else {
        let e = es.last();
        assert(es[i] == e);
        lemma_seq_lt_irreflexive(e.associations[p]);
        assert(p != q);
        assert(e.associations.len() > 1);
        lemma_all_pairs_complete(e.associations, e.associations.len() as int, e.timestamp, p, q);
        let k = choose|k: int| 0 <= k < own.len() && own[k] == want;
        assert((prev + own)[prev.len() + k] == want);
    }
}

/// A pair fires at most once per co-activation.
pub proof fn lemma_pair_count_bound(cs: Seq<CoActivationModel>, a: Seq<char>, b: Seq<char>)
    ensures
        pair_count(cs, a, b) <= cs.len(),
    decreases cs.len(),
{
    if cs.len() > 0 {
        lemma_pair_count_bound(cs.drop_last(), a, b);
    }
}

fn find_pair(out: &Vec<SynapseSignal>, a: &String, b: &String) -> (r: Option<usize>)
    ensures
        match r {
            Some(p) => p < out@.len() && out@[p as int]@.tag_a == a@ && out@[p as int]@.tag_b
                == b@,
            None => forall|k: int|
                0 <= k < out@.len() ==> !(out@[k]@.tag_a == a@ && out@[k]@.tag_b == b@),
        },
{
    let n = out.len();
    for k in 0..n
        invariant
            n == out@.len(),
            forall|j: int| 0 <= j < k ==> !(out@[j]@.tag_a == a@ && out@[j]@.tag_b == b@),
    {
        if out[k].tag_a == *a && out[k].tag_b == *b {
            return Some(k);
        }
    }
    None
}

/// Groups co-activations by pair of stems: one signal per pair, with the number of
/// co-activations and the latest timestamp among them.
pub fn aggregate_signals(cs: &Vec<CoActivation>) -> (r: Vec<SynapseSignal>)
    ensures
        is_signal_set(co_models(cs@), signal_models(r@)),
{
    let ghost all = co_models(cs@);
    let mut out: Vec<SynapseSignal> = Vec::new();
    let n = cs.len();
    proof {
        assert(all.take(0) =~= Seq::<CoActivationModel>::empty());
    }
    for i in 0..n
        invariant
            n == cs@.len(),
            all == co_models(cs@),
            is_signal_set(all.take(i as int), signal_models(out@)),
    {
        let c = &cs[i];
        let ghost pre = all.take(i as int);
        let ghost next = all.take(i + 1);
        let ghost before = signal_models(out@);
        proof {
            assert(next.drop_last() =~= pre);
            assert(next.last() == c@);
            lemma_pair_count_bound(pre, c@.tag_a, c@.tag_b);
        }
        match find_pair(&out, &c.tag_a, &c.tag_b) {
            Some(p) => {
                let old = &out[p];
                proof {
                    assert(before[p as int].signal_count == pair_count(pre, c@.tag_a, c@.tag_b));
                }
                let count = old.signal_count + 1;
                let last = if c.timestamp > old.last_seen {
                    c.timestamp
                } else {
                    old.last_seen
                };
                let s = SynapseSignal {
                    tag_a: old.tag_a.clone(),
                    tag_b: old.tag_b.clone(),
                    signal_count: count,
                    last_seen: last,
                };
                out.set(p, s);
                proof {
                    let after = signal_models(out@);
                    assert(after =~= before.update(p as int, s@));
                    assert forall|k: int| 0 <= k < after.len() implies {
                        &&& (#[trigger] after[k]).signal_count == pair_count(
                            next,
                            after[k].tag_a,
                            after[k].tag_b,
                        )
                        &&& after[k].signal_count > 0
                        &&& after[k].last_seen == pair_last_seen(next, after[k].tag_a, after[k].tag_b)
                    } by {
                        if k != p {
                            assert(!(before[k].tag_a == before[p as int].tag_a && before[k].tag_b
                                == before[p as int].tag_b));
                        }
                    }
                    assert forall|a: Seq<char>, b: Seq<char>|
                        #[trigger] pair_count(next, a, b) > 0 implies exists|k: int|
                        0 <= k < after.len() && (#[trigger] after[k]).tag_a == a && after[k].tag_b
                            == b by {
                        if a == c@.tag_a && b == c@.tag_b {
                            assert(after[p as int].tag_a == a);
                        } else {
                            assert(pair_count(pre, a, b) > 0);
                            let k = choose|k: int|
                                0 <= k < before.len() && (#[trigger] before[k]).tag_a == a
                                    && before[k].tag_b == b;
                            assert(after[k].tag_a == a);
                        }
                    }
                }
            },
            None => {
                let s = SynapseSignal {
                    tag_a: c.tag_a.clone(),
                    tag_b: c.tag_b.clone(),
                    signal_count: 1,
                    last_seen: c.timestamp,
                };
                out.push(s);
                proof {
                    let after = signal_models(out@);
                    assert(after =~= before.push(s@));
                    assert(pair_count(pre, c@.tag_a, c@.tag_b) == 0) by {
                        if pair_count(pre, c@.tag_a, c@.tag_b) > 0 {
                            let k = choose|k: int|
                                0 <= k < before.len() && (#[trigger] before[k]).tag_a == c@.tag_a
                                    && before[k].tag_b == c@.tag_b;
                            assert(out@[k]@.tag_a == c@.tag_a);
                        }
                    }
                    assert forall|k: int| 0 <= k < after.len() implies {
                        &&& (#[trigger] after[k]).signal_count == pair_count(
                            next,
                            after[k].tag_a,
                            after[k].tag_b,
                        )
                        &&& after[k].signal_count > 0
                        &&& after[k].last_seen == pair_last_seen(next, after[k].tag_a, after[k].tag_b)
                    } by {
                        if k < before.len() {
                            assert(after[k] == before[k]);
                        }
                    }
                    assert forall|a: Seq<char>, b: Seq<char>|
                        #[trigger] pair_count(next, a, b) > 0 implies exists|k: int|
                        0 <= k < after.len() && (#[trigger] after[k]).tag_a == a && after[k].tag_b
                            == b by {
                        if a == c@.tag_a && b == c@.tag_b {
                            assert(after[before.len() as int].tag_a == a);
                        } else {
                            assert(pair_count(pre, a, b) > 0);
                            let k = choose|k: int|
                                0 <= k < before.len() && (#[trigger] before[k]).tag_a == a
                                    && before[k].tag_b == b;
                            assert(after[k].tag_a == a);
                        }
                    }
                    assert forall|x: int, y: int|
                        0 <= x < after.len() && 0 <= y < after.len() && x != y implies !(
                        after[x].tag_a == after[y].tag_a && after[x].tag_b == after[y].tag_b) by {
                        if x < before.len() && y < before.len() {
                        } else if x < before.len() {
                            assert(after[x] == before[x]);
                        } else {
                            assert(after[y] == before[y]);
                        }
                    }
                }
            },
        }
    }
    proof {
        assert(all.take(n as int) =~= all);
    }
    out
}

/// A synapse was last seen when the newest memory holding both of its stems was written:
/// some memory holding both stems has that timestamp, and no memory holding both is newer
/// (access times play no part). Its stems are in order, the smaller first.
pub proof fn lemma_signals_from_memories(es: Seq<EntryModel>, out: Seq<SignalModel>)
    requires
        is_signal_set(coactivations(es), out),
    ensures
        forall|k: int| 0 <= k < out.len() ==> seq_lt((#[trigger] out[k]).tag_a, out[k].tag_b),
        forall|k: int|
            0 <= k < out.len() ==> exists|i: int|
                0 <= i < es.len() && (#[trigger] es[i]).associations.contains((#[trigger] out[k]).tag_a)
                    && es[i].associations.contains(out[k].tag_b) && es[i].timestamp == out[k].last_seen,
        forall|k: int, i: int|
            0 <= k < out.len() && 0 <= i < es.len() && (#[trigger] es[i]).associations.contains(
                (#[trigger] out[k]).tag_a,
            ) && es[i].associations.contains(out[k].tag_b) ==> es[i].timestamp <= out[k].last_seen,
{
    let cs = coactivations(es);
    lemma_coactivation_origin(es);
    assert forall|k: int| 0 <= k < out.len() implies seq_lt((#[trigger] out[k]).tag_a, out[k].tag_b)
        && exists|i: int|
        0 <= i < es.len() && (#[trigger] es[i]).associations.contains(out[k].tag_a)
            && es[i].associations.contains(out[k].tag_b) && es[i].timestamp == out[k].last_seen by {
        let (a, b) = (out[k].tag_a, out[k].tag_b);
        lemma_pair_last_seen_max(cs, a, b);
        let q = choose|q: int|
            0 <= q < cs.len() && (#[trigger] cs[q]).tag_a == a && cs[q].tag_b == b && cs[q].timestamp
                == pair_last_seen(cs, a, b);
        let i = choose|i: int|
            0 <= i < es.len() && {
                let c = #[trigger] coactivations(es)[q];
                &&& c.timestamp == (#[trigger] es[i]).timestamp
                &&& es[i].associations.contains(c.tag_a)
                &&& es[i].associations.contains(c.tag_b)
                &&& seq_lt(c.tag_a, c.tag_b)
            };
    }
    assert forall|k: int, i: int|
        0 <= k < out.len() && 0 <= i < es.len() && (#[trigger] es[i]).associations.contains(
            (#[trigger] out[k]).tag_a,
        ) && es[i].associations.contains(out[k].tag_b) implies es[i].timestamp <= out[k].last_seen by {
        let (a, b) = (out[k].tag_a, out[k].tag_b);
        assert(seq_lt(a, b));
        let p = choose|p: int| 0 <= p < es[i].associations.len() && es[i].associations[p] == a;
        let r = choose|r: int| 0 <= r < es[i].associations.len() && es[i].associations[r] == b;
        lemma_coactivations_complete(es, i, p, r);
        let want = CoActivationModel { tag_a: a, tag_b: b, timestamp: es[i].timestamp };
        let q = choose|q: int| 0 <= q < cs.len() && cs[q] == want;
        lemma_pair_last_seen_max(cs, a, b);
        assert(cs[q].tag_a == a && cs[q].tag_b == b);
    }
}

/// The synapse signals of the canonical memories: for every pair of stems that occurs
/// together, how many times and when last.
pub fn synapse_signals(canonical: &Vec<MemoryEntry>) -> (r: Vec<SynapseSignal>)
    ensures
        is_signal_set(coactivations(models(canonical@)), signal_models(r@)),
        forall|k: int|
            0 <= k < r@.len() ==> exists|i: int|
                0 <= i < canonical@.len() && (#[trigger] canonical@[i])@.associations.contains(
                    (#[trigger] r@[k]).tag_a@,
                ) && canonical@[i]@.associations.contains(r@[k].tag_b@) && canonical@[i].timestamp
                    == r@[k].last_seen,
        forall|k: int, i: int|
            0 <= k < r@.len() && 0 <= i < canonical@.len() && (#[trigger] canonical@[i])@.associations.contains(
                (#[trigger] r@[k]).tag_a@,
            ) && canonical@[i]@.associations.contains(r@[k].tag_b@) ==> canonical@[i].timestamp
                <= r@[k].last_seen,
{
    let cs = co_activations(canonical);
    let r = aggregate_signals(&cs);
    proof {
        let es = models(canonical@);
        let out = signal_models(r@);
        lemma_signals_from_memories(es, out);
        assert forall|k: int| 0 <= k < r@.len() implies exists|i: int|
            0 <= i < canonical@.len() && (#[trigger] canonical@[i])@.associations.contains(
                (#[trigger] r@[k]).tag_a@,
            ) && canonical@[i]@.associations.contains(r@[k].tag_b@) && canonical@[i].timestamp
                == r@[k].last_seen by {
            assert(out[k] == r@[k]@);
            let i = choose|i: int|
                0 <= i < es.len() && (#[trigger] es[i]).associations.contains(out[k].tag_a)
                    && es[i].associations.contains(out[k].tag_b) && es[i].timestamp == out[k].last_seen;
            assert(es[i] == canonical@[i]@);
        }
        assert forall|k: int, i: int|
            0 <= k < r@.len() && 0 <= i < canonical@.len() && (#[trigger] canonical@[i])@.associations.contains(
                (#[trigger] r@[k]).tag_a@,
            ) && canonical@[i]@.associations.contains(r@[k].tag_b@) implies canonical@[i].timestamp
            <= r@[k].last_seen by {
            assert(out[k] == r@[k]@);
            assert(es[i] == canonical@[i]@);
        }
    }
    r
}

} // verus!
