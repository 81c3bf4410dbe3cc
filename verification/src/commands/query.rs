//! `med query`: find memories by stemmed keyword, by tag or by semantic neighbour, rank
//! them by activation, reinforce the ones shown, and walk the Hebbian graph from them.
use vstd::prelude::*;
use crate::bindings::{
    english_stem, lowercase, regex_is_match, regex_search, stem_english, string_from_chars,
    to_lowercase,
};
use crate::memory::{clone_strings, models, EntryModel, MemoryEntry};
use crate::rank::{is_ranking, rank_by_activation, ranking, valid_selection};
use crate::text::{all_ws, is_blank, join, join_strings};

verus! {

// ---------------------------------------------------------------- matching

/// The search key of a query: its lower-cased form, stemmed.
pub open spec fn query_key(pattern: Seq<char>) -> Seq<char> {
    english_stem(lowercase(pattern))
}

/// A memory answers a query when its lower-cased content matches the key (read as a
/// regular expression, as the cache's string filter reads it), when one of its stems
/// is the key, or when the semantic search proposed its identifier.
pub open spec fn row_matches(e: EntryModel, key: Seq<char>, semantic: Seq<Seq<char>>) -> bool {
    regex_search(key, lowercase(e.content)) == Some(true) || e.associations.contains(key)
        || semantic.contains(e.id)
}

/// The indices below `n` of the rows that answer the query, in stored order.
pub open spec fn matching(
    rows: Seq<EntryModel>,
    key: Seq<char>,
    semantic: Seq<Seq<char>>,
    n: int,
) -> Seq<usize>
    decreases n,
{
    if n <= 0 {
        Seq::<usize>::empty()
    } else {
        let prev = matching(rows, key, semantic, n - 1);
        if row_matches(rows[n - 1], key, semantic) {
            prev.push((n - 1) as usize)
        } else {
            prev
        }
    }
}

proof fn lemma_matching_increasing(
    rows: Seq<EntryModel>,
    key: Seq<char>,
    semantic: Seq<Seq<char>>,
    n: int,
)
    requires
        0 <= n <= rows.len(),
        rows.len() <= usize::MAX,
    ensures
        forall|k: int|
            0 <= k < matching(rows, key, semantic, n).len() ==> (#[trigger] matching(
                rows,
                key,
                semantic,
                n,
            )[k]) < n,
        forall|i: int, j: int|
            0 <= i < j < matching(rows, key, semantic, n).len() ==> matching(rows, key, semantic, n)[i]
                < matching(rows, key, semantic, n)[j],
    decreases n,
{
    if n > 0 {
        lemma_matching_increasing(rows, key, semantic, n - 1);
        let prev = matching(rows, key, semantic, n - 1);
        let cur = matching(rows, key, semantic, n);
        if row_matches(rows[n - 1], key, semantic) {
            assert(cur == prev.push((n - 1) as usize));
            assert(((n - 1) as usize) as int == n - 1);
            assert forall|i: int, j: int| 0 <= i < j < cur.len() implies cur[i] < cur[j] by {
                if j < prev.len() {
                    assert(cur[i] == prev[i] && cur[j] == prev[j]);
                } else {
                    assert(cur[i] == prev[i]);
                    assert(prev[i] < n - 1);
                }
            }
            assert forall|k: int| 0 <= k < cur.len() implies #[trigger] cur[k] < n by {
                if k < prev.len() {
                    assert(cur[k] == prev[k]);
                }
            }
        }
    }
}

/// Why a memory answers a query: one of its stems is the key, its lower-cased content
/// matches the key as a regular expression, or the semantic search named it; a memory
/// with none of these does not answer. Its display tags play no part.
pub proof fn lemma_match_reasons(e: EntryModel, key: Seq<char>, semantic: Seq<Seq<char>>)
    ensures
        e.associations.contains(key) ==> row_matches(e, key, semantic),
        semantic.contains(e.id) ==> row_matches(e, key, semantic),
        regex_search(key, lowercase(e.content)) == Some(true) ==> row_matches(e, key, semantic),
        row_matches(e, key, semantic) ==> e.associations.contains(key) || semantic.contains(e.id)
            || regex_search(key, lowercase(e.content)) == Some(true),
        row_matches(e, key, semantic) == row_matches(EntryModel { tags: Seq::empty(), ..e }, key, semantic),
{
}

/// The rows a query selects are exactly the rows (below `n`) that answer it, each once,
/// in stored order; in particular every row whose stems hold the key is selected.
pub proof fn lemma_matching_members(
    rows: Seq<EntryModel>,
    key: Seq<char>,
    semantic: Seq<Seq<char>>,
    n: int,
)
    requires
        0 <= n <= rows.len(),
        rows.len() <= usize::MAX,
    ensures
        forall|k: usize|
            #[trigger] matching(rows, key, semantic, n).contains(k) <==> (k < n && row_matches(
                rows[k as int],
                key,
                semantic,
            )),
        forall|k: usize|
            k < n && rows[k as int].associations.contains(key) ==> #[trigger] matching(
                rows,
                key,
                semantic,
                n,
            ).contains(k),
        forall|i: int, j: int|
            0 <= i < j < matching(rows, key, semantic, n).len() ==> matching(rows, key, semantic, n)[i]
                < matching(rows, key, semantic, n)[j],
    decreases n,
{
    lemma_matching_increasing(rows, key, semantic, n);
    if n > 0 {
        lemma_matching_members(rows, key, semantic, n - 1);
        let prev = matching(rows, key, semantic, n - 1);
        let cur = matching(rows, key, semantic, n);
        assert forall|k: usize| #[trigger] cur.contains(k) <==> (k < n && row_matches(
            rows[k as int],
            key,
            semantic,
        )) by {
            if row_matches(rows[n - 1], key, semantic) {
                assert(cur == prev.push((n - 1) as usize));
                if cur.contains(k) && !prev.contains(k) {
                    let q = choose|q: int| 0 <= q < cur.len() && cur[q] == k;
                    assert(q == prev.len());
                }
                if prev.contains(k) {
                    let q = choose|q: int| 0 <= q < prev.len() && prev[q] == k;
                    assert(cur[q] == k);
                }
                if k == n - 1 {
                    assert(cur[prev.len() as int] == k);
                }
            }
        }
        assert forall|k: usize| k < n && rows[k as int].associations.contains(key) implies #[trigger] cur.contains(
            k,
        ) by {
            lemma_match_reasons(rows[k as int], key, semantic);
        }
    } else {
        assert(matching(rows, key, semantic, n) =~= Seq::<usize>::empty());
    }
}

/// The query key of a pattern (see [`query_key`]).
pub fn stem_query(pattern: &str) -> (r: String)
    ensures
        r@ == query_key(pattern@),
{
    let lowered = to_lowercase(pattern);
    stem_english(lowered.as_str())
}

/// Whether a list of strings holds `s`.
pub fn contains_string(v: &Vec<String>, s: &String) -> (r: bool)
    ensures
        r == v.deep_view().contains(s@),
{
    let n = v.len();
    for k in 0..n
        invariant
            n == v@.len(),
            forall|j: int| 0 <= j < k ==> v.deep_view()[j] != s@,
    {
        if v[k] == *s {
            proof {
                assert(v.deep_view()[k as int] == s@);
            }
            return true;
        }
    }
    false
}

/// Whether one row answers the query (see [`row_matches`]).
pub fn matches_row(row: &MemoryEntry, key: &String, semantic_ids: &Vec<String>) -> (r: bool)
    ensures
        r == row_matches(row@, key@, semantic_ids.deep_view()),
        row.associations.deep_view().contains(key@) ==> r,
        semantic_ids.deep_view().contains(row.id@) ==> r,
        r ==> row.associations.deep_view().contains(key@) || semantic_ids.deep_view().contains(
            row.id@,
        ) || regex_search(key@, lowercase(row.content@)) == Some(true),
{
    let content = to_lowercase(row.content.as_str());
    let by_text = match regex_is_match(key.as_str(), content.as_str()) {
        Some(b) => b,
        None => false,
    };
    by_text || contains_string(&row.associations, key) || contains_string(semantic_ids, &row.id)
}

/// The indices of the rows that answer the query, in stored order.
pub fn matching_rows(rows: &Vec<MemoryEntry>, key: &String, semantic_ids: &Vec<String>) -> (r:
    Vec<usize>)
    ensures
        r@ == matching(models(rows@), key@, semantic_ids.deep_view(), rows@.len() as int),
        valid_selection(models(rows@), r@),
{
    let ghost m = models(rows@);
    let ghost sem = semantic_ids.deep_view();
    let mut out: Vec<usize> = Vec::new();
    let n = rows.len();
    for i in 0..n
        invariant
            n == rows@.len(),
            m == models(rows@),
            sem == semantic_ids.deep_view(),
            out@ == matching(m, key@, sem, i as int),
    {
        if matches_row(&rows[i], key, semantic_ids) {
            out.push(i);
        }
    }
    proof {
        lemma_matching_increasing(m, key@, sem, n as int);
        let r = out@;
        assert forall|a: int, b: int| 0 <= a < r.len() && 0 <= b < r.len() && a != b implies r[a]
            != r[b] by {
            if a < b {
                assert(r[a] < r[b]);
            } else {
                assert(r[b] < r[a]);
            }
        }
    }
    out
}

/// What a query selects: its key, every matching row in rank order, and the rows shown.
pub struct SearchOutcome {
    pub key: String,
    pub ranked: Vec<usize>,
    pub shown: Vec<usize>,
}

/// The smaller of two counts.
pub open spec fn min_len(a: int, b: int) -> int {
    if a < b {
        a
    } else {
        b
    }
}

/// Selects the rows of the memory cache that answer `pattern`, ranks them by activation
/// at `now` (the time the cache was built), and picks the first `limit` of them, which
/// are the ones shown (and reinforced).
pub fn search(
    rows: &Vec<MemoryEntry>,
    pattern: &str,
    limit: usize,
    semantic_ids: &Vec<String>,
    now: i64,
) -> (r: SearchOutcome)
    ensures
        r.key@ == query_key(pattern@),
        r.ranked@ == ranking(
            models(rows@),
            now,
            matching(models(rows@), query_key(pattern@), semantic_ids.deep_view(), rows@.len() as int),
        ),
        r.shown@ == r.ranked@.take(min_len(limit as int, r.ranked@.len() as int)),
{
    let key = stem_query(pattern);
    let sel = matching_rows(rows, &key, semantic_ids);
    let ranked = rank_by_activation(rows, &sel, now);
    let count = if limit < ranked.len() {
        limit
    } else {
        ranked.len()
    };
    let mut shown: Vec<usize> = Vec::new();
    for k in 0..count
        invariant
            count <= ranked@.len(),
            shown@ == ranked@.take(k as int),
    {
        shown.push(ranked[k]);
        proof {
            assert(shown@ =~= ranked@.take(k + 1));
        }
    }
    SearchOutcome { key, ranked, shown }
}

/// The identifiers of the given rows, in order.
pub fn ids_of(rows: &Vec<MemoryEntry>, idx: &Vec<usize>) -> (r: Vec<String>)
    requires
        forall|k: int| 0 <= k < idx@.len() ==> (#[trigger] idx@[k]) < rows@.len(),
    ensures
        r@.len() == idx@.len(),
        forall|k: int| 0 <= k < idx@.len() ==> (#[trigger] r@[k])@ == rows@[idx@[k] as int]@.id,
{
    let mut out: Vec<String> = Vec::new();
    let n = idx.len();
    for k in 0..n
        invariant
            n == idx@.len(),
            forall|j: int| 0 <= j < idx@.len() ==> (#[trigger] idx@[j]) < rows@.len(),
            out@.len() == k,
            forall|j: int| 0 <= j < k ==> (#[trigger] out@[j])@ == rows@[idx@[j] as int]@.id,
    {
        out.push(rows[idx[k]].id.clone());
    }
    out
}

// ---------------------------------------------------------------- reinforcement

/// One line of the musings log as read: its text and, when it parses, its entry.
pub struct LogLine {
    pub raw: String,
    pub entry: Option<MemoryEntry>,
}

/// One line to write back to the musings log.
pub enum LineOut {
    /// The line as it was read.
    Verbatim(String),
    /// The entry of the line, with its access recorded.
    Rewritten(MemoryEntry),
}

/// The model of a [`LineOut`].
pub enum LineOutModel {
    Verbatim(Seq<char>),
    Rewritten(EntryModel),
}

impl View for LineOut {
    type V = LineOutModel;

    open spec fn view(&self) -> LineOutModel {
        match self {
            LineOut::Verbatim(s) => LineOutModel::Verbatim(s@),
            LineOut::Rewritten(e) => LineOutModel::Rewritten(e@),
        }
    }
}

/// The model of a [`LogLine`].
pub open spec fn line_model(l: LogLine) -> (Seq<char>, Option<EntryModel>) {
    (
        l.raw@,
        match l.entry {
            Some(e) => Some(e@),
            None => None,
        },
    )
}

/// The models of the lines of a log.
pub open spec fn line_models(v: Seq<LogLine>) -> Seq<(Seq<char>, Option<EntryModel>)> {
    v.map_values(|l: LogLine| line_model(l))
}

/// An entry after one more access at time `now`.
pub open spec fn accessed_once(e: EntryModel, now: i64) -> EntryModel {
    EntryModel { access_count: (e.access_count + 1) as u32, last_access: now, ..e }
}

/// A line of the log is rewritten when it parses and names an accessed memory.
pub open spec fn line_touched(l: (Seq<char>, Option<EntryModel>), accessed: Seq<Seq<char>>) -> bool {
    !all_ws(l.0) && l.1 is Some && accessed.contains(l.1.unwrap().id)
}

/// What becomes of the lines of the musings log when the memories `accessed` were shown
/// at time `now`: blank lines are dropped, lines that name an accessed memory are
/// rewritten with one more access and the new access time, and every other line
/// (including lines that do not parse) is kept verbatim.
pub open spec fn reinforced(
    lines: Seq<(Seq<char>, Option<EntryModel>)>,
    accessed: Seq<Seq<char>>,
    now: i64,
) -> Seq<LineOutModel>
    decreases lines.len(),
{
    if lines.len() == 0 {
        Seq::<LineOutModel>::empty()
    } else {
        let prev = reinforced(lines.drop_last(), accessed, now);
        let l = lines.last();
        if all_ws(l.0) {
            prev
        } else if line_touched(l, accessed) {
            prev.push(LineOutModel::Rewritten(accessed_once(l.1.unwrap(), now)))
        } else {
            prev.push(LineOutModel::Verbatim(l.0))
        }
    }
}

/// Reinforcement treats every line on its own: reinforcing a log made of two parts gives
/// what reinforcing each part gives, one after the other.
pub proof fn lemma_reinforced_concat(
    a: Seq<(Seq<char>, Option<EntryModel>)>,
    b: Seq<(Seq<char>, Option<EntryModel>)>,
    accessed: Seq<Seq<char>>,
    now: i64,
)
    ensures
        reinforced(a + b, accessed, now) == reinforced(a, accessed, now) + reinforced(b, accessed, now),
    decreases b.len(),
{
    if b.len() == 0 {
        assert(a + b =~= a);
        assert(reinforced(a, accessed, now) + reinforced(b, accessed, now) =~= reinforced(a, accessed, now));
    } else {
        lemma_reinforced_concat(a, b.drop_last(), accessed, now);
        assert((a + b).drop_last() =~= a + b.drop_last());
        assert((a + b).last() == b.last());
        let x = reinforced(a, accessed, now);
        let y = reinforced(b.drop_last(), accessed, now);
        assert forall|o: LineOutModel| (x + y).push(o) == x + y.push(o) by {
            assert((x + y).push(o) =~= x + y.push(o));
        }
    }
}

/// What reinforcement makes of one line: nothing for a blank line; the entry with one
/// more access, last accessed at `now`, for a parsed line naming an accessed memory
/// (whatever other lines name it too); the line itself otherwise.
pub proof fn lemma_reinforced_line(
    l: (Seq<char>, Option<EntryModel>),
    accessed: Seq<Seq<char>>,
    now: i64,
)
    ensures
        all_ws(l.0) ==> reinforced(seq![l], accessed, now).len() == 0,
        !all_ws(l.0) && l.1 is Some && accessed.contains(l.1.unwrap().id) ==> reinforced(
            seq![l],
            accessed,
            now,
        ) == seq![LineOutModel::Rewritten(EntryModel {
            access_count: (l.1.unwrap().access_count + 1) as u32,
            last_access: now,
            ..l.1.unwrap()
        })],
        !all_ws(l.0) && !(l.1 is Some && accessed.contains(l.1.unwrap().id)) ==> reinforced(
            seq![l],
            accessed,
            now,
        ) == seq![LineOutModel::Verbatim(l.0)],
{
    let one = seq![l];
    assert(one.drop_last() =~= Seq::<(Seq<char>, Option<EntryModel>)>::empty());
    assert(one.last() == l);
    assert(reinforced(one.drop_last(), accessed, now) =~= Seq::<LineOutModel>::empty());
    let r = reinforced(one, accessed, now);
    if all_ws(l.0) {
        assert(r =~= Seq::<LineOutModel>::empty());
    } else if line_touched(l, accessed) {
        assert(r =~= seq![LineOutModel::Rewritten(accessed_once(l.1.unwrap(), now))]);
    } else {
        assert(r =~= seq![LineOutModel::Verbatim(l.0)]);
    }
}

/// Every parsed, non-blank line that names an accessed memory is written back with one
/// more access and the new access time, however many other lines name the same memory.
pub proof fn lemma_every_touched_line_rewritten(
    lines: Seq<(Seq<char>, Option<EntryModel>)>,
    accessed: Seq<Seq<char>>,
    now: i64,
    k: int,
)
    requires
        0 <= k < lines.len(),
        !all_ws(lines[k].0),
        lines[k].1 is Some,
        accessed.contains(lines[k].1.unwrap().id),
    ensures
        reinforced(lines, accessed, now).contains(
            LineOutModel::Rewritten(EntryModel {
                access_count: (lines[k].1.unwrap().access_count + 1) as u32,
                last_access: now,
                ..lines[k].1.unwrap()
            }),
        ),
{
    let a = lines.take(k);
    let b = seq![lines[k]];
    let c = lines.skip(k + 1);
    assert(lines =~= a + b + c);
    lemma_reinforced_concat(a + b, c, accessed, now);
    lemma_reinforced_concat(a, b, accessed, now);
    lemma_reinforced_line(lines[k], accessed, now);
    let o = LineOutModel::Rewritten(EntryModel {
        access_count: (lines[k].1.unwrap().access_count + 1) as u32,
        last_access: now,
        ..lines[k].1.unwrap()
    });
    let ra = reinforced(a, accessed, now);
    let rc = reinforced(c, accessed, now);
    assert((ra + seq![o] + rc)[ra.len() as int] == o);
}

/// Whether any line of the log is rewritten.
pub open spec fn any_touched(lines: Seq<(Seq<char>, Option<EntryModel>)>, accessed: Seq<Seq<char>>) -> bool {
    exists|k: int| 0 <= k < lines.len() && line_touched(#[trigger] lines[k], accessed)
}

/// Records one access of every shown memory in the musings log. Returns the lines to
/// write back and whether any changed (the log is rewritten only then).
pub fn reinforce_lines(lines: &Vec<LogLine>, accessed: &Vec<String>, now_ms: i64) -> (r: (
    Vec<LineOut>,
    bool,
))
    requires
        forall|k: int|
            0 <= k < lines@.len() && line_touched(#[trigger] line_models(lines@)[k], accessed.deep_view())
                ==> line_models(lines@)[k].1.unwrap().access_count < u32::MAX,
    ensures
        r.0@.map_values(|o: LineOut| o@) == reinforced(line_models(lines@), accessed.deep_view(), now_ms),
        r.1 == any_touched(line_models(lines@), accessed.deep_view()),
        forall|k: int|
            0 <= k < lines@.len() && line_touched(#[trigger] line_models(lines@)[k], accessed.deep_view())
                ==> r.0@.map_values(|o: LineOut| o@).contains(
                LineOutModel::Rewritten(EntryModel {
                    access_count: (line_models(lines@)[k].1.unwrap().access_count + 1) as u32,
                    last_access: now_ms,
                    ..line_models(lines@)[k].1.unwrap()
                }),
            ),
{
    let ghost ls = line_models(lines@);
    let ghost acc = accessed.deep_view();
    let mut out: Vec<LineOut> = Vec::new();
    let mut updated = false;
    let n = lines.len();
    proof {
        assert(ls.take(0) =~= Seq::<(Seq<char>, Option<EntryModel>)>::empty());
        assert(out@.map_values(|o: LineOut| o@) =~= Seq::<LineOutModel>::empty());
    }
    for i in 0..n
        invariant
            n == lines@.len(),
            ls == line_models(lines@),
            acc == accessed.deep_view(),
            forall|k: int| 0 <= k < ls.len() && line_touched(#[trigger] ls[k], acc) ==> ls[k].1.unwrap().access_count < u32::MAX,
            out@.map_values(|o: LineOut| o@) == reinforced(ls.take(i as int), acc, now_ms),
            updated == any_touched(ls.take(i as int), acc),
    {
        let l = &lines[i];
        let ghost before_out = out@.map_values(|o: LineOut| o@);
        proof {
            assert(ls[i as int] == line_model(lines@[i as int]));
            assert(ls.take(i + 1).drop_last() =~= ls.take(i as int));
            assert(ls.take(i + 1).last() == ls[i as int]);
        }
        if !is_blank(l.raw.as_str()) {
            match &l.entry {
                Some(e) => {
                    if contains_string(accessed, &e.id) {
                        proof {
                            assert(line_touched(ls[i as int], acc));
                        }
                        let mut e2 = e.duplicate();
                        e2.access_count = e.access_count + 1;
                        e2.last_access = now_ms;
                        out.push(LineOut::Rewritten(e2));
                        updated = true;
                    } else {
                        out.push(LineOut::Verbatim(l.raw.clone()));
                    }
                },
                None => {
                    out.push(LineOut::Verbatim(l.raw.clone()));
                },
            }
        }
        proof {
            let now_out = out@.map_values(|o: LineOut| o@);
            let t = ls.take(i + 1);
            assert(now_out =~= reinforced(t, acc, now_ms));
            assert(any_touched(t, acc) == (any_touched(ls.take(i as int), acc) || line_touched(ls[i as int], acc))) by {
                if any_touched(t, acc) {
                    let k = choose|k: int| 0 <= k < t.len() && line_touched(#[trigger] t[k], acc);
                    if k < i {
                        assert(ls.take(i as int)[k] == t[k]);
                    }
                }
                if any_touched(ls.take(i as int), acc) {
                    let k = choose|k: int| 0 <= k < i && line_touched(#[trigger] ls.take(i as int)[k], acc);
                    assert(t[k] == ls.take(i as int)[k]);
                }
                if line_touched(ls[i as int], acc) {
                    assert(t[i as int] == ls[i as int]);
                }
            }
        }
    }
    proof {
        assert(ls.take(n as int) =~= ls);
        assert forall|k: int| 0 <= k < lines@.len() && line_touched(#[trigger] line_models(lines@)[k], acc)
            implies out@.map_values(|o: LineOut| o@).contains(
            LineOutModel::Rewritten(EntryModel {
                access_count: (ls[k].1.unwrap().access_count + 1) as u32,
                last_access: now_ms,
                ..ls[k].1.unwrap()
            }),
        ) by {
            lemma_every_touched_line_rewritten(ls, acc, now_ms, k);
        }
    }
    (out, updated)
}

// ---------------------------------------------------------------- the Hebbian walk

/// Stem `t` belongs to one of the rows `idx`.
pub open spec fn stem_among(rows: Seq<EntryModel>, idx: Seq<usize>, t: Seq<char>) -> bool {
    exists|k: int| 0 <= k < idx.len() && rows[#[trigger] idx[k] as int].associations.contains(t)
}

/// The distinct stems of the rows `idx`: the concepts the query reached.
pub fn found_stems(rows: &Vec<MemoryEntry>, idx: &Vec<usize>) -> (r: Vec<String>)
    requires
        forall|k: int| 0 <= k < idx@.len() ==> (#[trigger] idx@[k]) < rows@.len(),
    ensures
        r.deep_view().no_duplicates(),
        forall|t: Seq<char>|
            #[trigger] r.deep_view().contains(t) <==> stem_among(models(rows@), idx@, t),
{
    let ghost m = models(rows@);
    let mut out: Vec<String> = Vec::new();
    let n = idx.len();
    for k in 0..n
        invariant
            n == idx@.len(),
            m == models(rows@),
            forall|j: int| 0 <= j < idx@.len() ==> (#[trigger] idx@[j]) < rows@.len(),
            out.deep_view().no_duplicates(),
            forall|t: Seq<char>|
                #[trigger] out.deep_view().contains(t) <==> stem_among(m, idx@.take(k as int), t),
    {
        let row = &rows[idx[k]];
        let na = row.associations.len();
        let ghost before = out.deep_view();
        for j in 0..na
            invariant
                na == row.associations@.len(),
                out.deep_view().no_duplicates(),
                forall|t: Seq<char>|
                    #[trigger] out.deep_view().contains(t) <==> (before.contains(t)
                        || row.associations.deep_view().take(j as int).contains(t)),
        {
            let a = &row.associations[j];
            let ghost pre = out.deep_view();
            proof {
                assert(row.associations.deep_view()[j as int] == a@);
                assert(row.associations.deep_view().take(j + 1) =~= row.associations.deep_view().take(
                    j as int,
                ).push(a@));
            }
            if !contains_string(&out, a) {
                out.push(a.clone());
                proof {
                    assert(out.deep_view() =~= pre.push(a@));
                    assert(out.deep_view()[pre.len() as int] == a@);
                    assert forall|x: int, y: int| 0 <= x < y < out.deep_view().len() implies out.deep_view()[x] != out.deep_view()[y] by {
                        if y == pre.len() {
                            assert(pre[x] == out.deep_view()[x]);
                        } else {
                            assert(pre[x] != pre[y]);
                        }
                    }
                }
            }
            proof {
                assert(out.deep_view().contains(a@));
                assert forall|t: Seq<char>| #[trigger] out.deep_view().contains(t) <==> (before.contains(t)
                    || row.associations.deep_view().take(j + 1).contains(t)) by {
                    let tk = row.associations.deep_view().take(j + 1);
                    if tk.contains(t) {
                        let q = choose|q: int| 0 <= q < tk.len() && tk[q] == t;
                        if q < j {
                            assert(row.associations.deep_view().take(j as int)[q] == t);
                        }
                    }
                    if row.associations.deep_view().take(j as int).contains(t) {
                        let q = choose|q: int| 0 <= q < j && row.associations.deep_view().take(j as int)[q] == t;
                        assert(tk[q] == t);
                    }
                    if out.deep_view().contains(t) && !pre.contains(t) {
                        assert(out.deep_view() == pre.push(a@));
                        let q = choose|q: int| 0 <= q < out.deep_view().len() && out.deep_view()[q] == t;
                        if q < pre.len() {
                            assert(pre[q] == t);
                        }
                        assert(t == a@);
                        assert(tk[j as int] == a@);
                    }
                    if tk.contains(t) {
                        let q = choose|q: int| 0 <= q < tk.len() && tk[q] == t;
                        if q == j {
                            assert(t == a@);
                        }
                    }
                    if pre.contains(t) {
                        let q = choose|q: int| 0 <= q < pre.len() && pre[q] == t;
                        assert(out.deep_view()[q] == t);
                    }
                }
            }
        }
        proof {
            assert(row.associations.deep_view().take(na as int) =~= row.associations.deep_view());
            assert(m[idx@[k as int] as int] == row@);
            assert forall|t: Seq<char>| #[trigger] out.deep_view().contains(t) <==> stem_among(
                m,
                idx@.take(k + 1),
                t,
            ) by {
                let ik = idx@.take(k + 1);
                if stem_among(m, ik, t) {
                    let q = choose|q: int| 0 <= q < ik.len() && m[#[trigger] ik[q] as int].associations.contains(t);
                    if q < k {
                        assert(idx@.take(k as int)[q] == ik[q]);
                    }
                }
                if stem_among(m, idx@.take(k as int), t) {
                    let q = choose|q: int| 0 <= q < k && m[#[trigger] idx@.take(k as int)[q] as int].associations.contains(t);
                    assert(ik[q] == idx@.take(k as int)[q]);
                }
                if row@.associations.contains(t) {
                    assert(ik[k as int] == idx@[k as int]);
                }
            }
        }
    }
    proof {
        assert(idx@.take(n as int) =~= idx@);
    }
    out
}

/// The indices below `n` of the synapses that touch one of the reached concepts.
pub open spec fn links(
    tag_a: Seq<Seq<char>>,
    tag_b: Seq<Seq<char>>,
    found: Seq<Seq<char>>,
    n: int,
) -> Seq<usize>
    decreases n,
{
    if n <= 0 {
        Seq::<usize>::empty()
    } else {
        let prev = links(tag_a, tag_b, found, n - 1);
        if found.contains(tag_a[n - 1]) || found.contains(tag_b[n - 1]) {
            prev.push((n - 1) as usize)
        } else {
            prev
        }
    }
}

/// The synapses (given by their two stems) that touch a reached concept, in stored order.
pub fn linked_synapses(tag_a: &Vec<String>, tag_b: &Vec<String>, found: &Vec<String>) -> (r: Vec<
    usize,
>)
    requires
        tag_a@.len() == tag_b@.len(),
    ensures
        r@ == links(tag_a.deep_view(), tag_b.deep_view(), found.deep_view(), tag_a@.len() as int),
{
    let mut out: Vec<usize> = Vec::new();
    let n = tag_a.len();
    for i in 0..n
        invariant
            n == tag_a@.len(),
            tag_a@.len() == tag_b@.len(),
            out@ == links(tag_a.deep_view(), tag_b.deep_view(), found.deep_view(), i as int),
    {
        proof {
            assert(tag_a.deep_view()[i as int] == tag_a@[i as int]@);
            assert(tag_b.deep_view()[i as int] == tag_b@[i as int]@);
        }
        if contains_string(found, &tag_a[i]) || contains_string(found, &tag_b[i]) {
            out.push(i);
        }
    }
    out
}

/// The indices below `n` of the rows carrying stem `concept`, in stored order.
pub open spec fn with_concept(rows: Seq<EntryModel>, concept: Seq<char>, n: int) -> Seq<usize>
    decreases n,
{
    if n <= 0 {
        Seq::<usize>::empty()
    } else {
        let prev = with_concept(rows, concept, n - 1);
        if rows[n - 1].associations.contains(concept) {
            prev.push((n - 1) as usize)
        } else {
            prev
        }
    }
}

/// The state of the walk: the rows picked so far and the identifiers already seen.
pub open spec fn pick_new(
    rows: Seq<EntryModel>,
    state: (Seq<usize>, Seq<Seq<char>>),
    top: Seq<usize>,
) -> (Seq<usize>, Seq<Seq<char>>)
    decreases top.len(),
{
    if top.len() == 0 {
        state
    } else {
        let prev = pick_new(rows, state, top.drop_last());
        let i = top.last();
        if prev.1.contains(rows[i as int].id) {
            prev
        } else {
            (prev.0.push(i), prev.1.push(rows[i as int].id))
        }
    }
}

/// The related memories of a walk over the top `concepts`: for each concept in turn, its
/// two highest-ranked memories, skipping memories already shown or already picked.
pub open spec fn related(
    rows: Seq<EntryModel>,
    now: i64,
    concepts: Seq<Seq<char>>,
    shown_ids: Seq<Seq<char>>,
) -> (Seq<usize>, Seq<Seq<char>>)
    decreases concepts.len(),
{
    if concepts.len() == 0 {
        (Seq::<usize>::empty(), shown_ids)
    } else {
        let prev = related(rows, now, concepts.drop_last(), shown_ids);
        let r = ranking(rows, now, with_concept(rows, concepts.last(), rows.len() as int));
        pick_new(rows, prev, r.take(min_len(2, r.len() as int)))
    }
}

proof fn lemma_with_concept_valid(rows: Seq<EntryModel>, concept: Seq<char>, n: int)
    requires
        0 <= n <= rows.len(),
        rows.len() <= usize::MAX,
    ensures
        valid_selection(rows, with_concept(rows, concept, n)),
        forall|k: int|
            0 <= k < with_concept(rows, concept, n).len() ==> (#[trigger] with_concept(
                rows,
                concept,
                n,
            )[k]) < n,
        forall|i: int, j: int|
            0 <= i < j < with_concept(rows, concept, n).len() ==> with_concept(rows, concept, n)[i]
                < with_concept(rows, concept, n)[j],
    decreases n,
{
    if n > 0 {
        lemma_with_concept_valid(rows, concept, n - 1);
        let prev = with_concept(rows, concept, n - 1);
        let cur = with_concept(rows, concept, n);
        if rows[n - 1].associations.contains(concept) {
            assert(cur == prev.push((n - 1) as usize));
            assert forall|i: int, j: int| 0 <= i < j < cur.len() implies cur[i] < cur[j] by {
                if j < prev.len() {
                    assert(cur[i] == prev[i] && cur[j] == prev[j]);
                } else {
                    assert(cur[i] == prev[i]);
                }
            }
            assert forall|k: int| 0 <= k < cur.len() implies #[trigger] cur[k] < n by {
                if k < prev.len() {
                    assert(cur[k] == prev[k]);
                }
            }
        }
        let c = with_concept(rows, concept, n);
        assert forall|a: int, b: int| 0 <= a < c.len() && 0 <= b < c.len() && a != b implies c[a]
            != c[b] by {
            if a < b {
                assert(c[a] < c[b]);
            } else {
                assert(c[b] < c[a]);
            }
        }
    } else {
        assert(with_concept(rows, concept, n) =~= Seq::<usize>::empty());
    }
}

/// The candidates of a concept are exactly the rows (below `n`) whose stems hold it, in
/// stored order; display tags play no part.
pub proof fn lemma_with_concept_members(rows: Seq<EntryModel>, concept: Seq<char>, n: int)
    requires
        0 <= n <= rows.len(),
        rows.len() <= usize::MAX,
    ensures
        forall|k: usize|
            #[trigger] with_concept(rows, concept, n).contains(k) <==> (k < n && rows[k as int].associations.contains(
                concept,
            )),
    decreases n,
{
    if n > 0 {
        lemma_with_concept_members(rows, concept, n - 1);
        let prev = with_concept(rows, concept, n - 1);
        let cur = with_concept(rows, concept, n);
        assert forall|k: usize| #[trigger] cur.contains(k) <==> (k < n && rows[k as int].associations.contains(
            concept,
        )) by {
            if rows[n - 1].associations.contains(concept) {
                assert(cur == prev.push((n - 1) as usize));
                if cur.contains(k) && !prev.contains(k) {
                    let q = choose|q: int| 0 <= q < cur.len() && cur[q] == k;
                    assert(q == prev.len());
                }
                if prev.contains(k) {
                    let q = choose|q: int| 0 <= q < prev.len() && prev[q] == k;
                    assert(cur[q] == k);
                }
                if k == n - 1 {
                    assert(cur[prev.len() as int] == k);
                }
            }
        }
    } else {
        assert(with_concept(rows, concept, n) =~= Seq::<usize>::empty());
    }
}

fn rows_with_concept(rows: &Vec<MemoryEntry>, concept: &String) -> (r: Vec<usize>)
    ensures
        r@ == with_concept(models(rows@), concept@, rows@.len() as int),
        valid_selection(models(rows@), r@),
        forall|k: int|
            0 <= k < r@.len() ==> (#[trigger] rows@[r@[k] as int]@).associations.contains(concept@),
{
    let ghost m = models(rows@);
    let mut out: Vec<usize> = Vec::new();
    let n = rows.len();
    for i in 0..n
        invariant
            n == rows@.len(),
            m == models(rows@),
            out@ == with_concept(m, concept@, i as int),
    {
        if contains_string(&rows[i].associations, concept) {
            out.push(i);
        }
    }
    proof {
        lemma_with_concept_valid(m, concept@, n as int);
        lemma_with_concept_members(m, concept@, n as int);
        assert forall|k: int| 0 <= k < out@.len() implies (#[trigger] rows@[out@[k] as int]@).associations.contains(
            concept@,
        ) by {
            assert(out@.contains(out@[k]));
            assert(m[out@[k] as int] == rows@[out@[k] as int]@);
        }
    }
    out
}

/// Walks the Hebbian graph: for every top concept in turn, the two rows that carry it
/// with the highest activation at `now`, skipping rows whose memory was already shown or
/// picked.
pub fn related_memories(
    rows: &Vec<MemoryEntry>,
    concepts: &Vec<String>,
    shown_ids: &Vec<String>,
    now: i64,
) -> (r: Vec<usize>)
    ensures
        r@ == related(models(rows@), now, concepts.deep_view(), shown_ids.deep_view()).0,
        forall|k: int|
            0 <= k < r@.len() ==> (#[trigger] r@[k]) < rows@.len() && exists|c: int|
                0 <= c < concepts@.len() && rows@[r@[k] as int]@.associations.contains(
                    concepts@[c]@,
                ),
        forall|k: int|
            0 <= k < r@.len() ==> !shown_ids.deep_view().contains((#[trigger] rows@[r@[k] as int])@.id),
        forall|a: int, b: int|
            0 <= a < b < r@.len() ==> rows@[r@[a] as int]@.id != rows@[r@[b] as int]@.id,
{
    let ghost m = models(rows@);
    let mut picks: Vec<usize> = Vec::new();
    let mut seen = clone_strings(shown_ids);
    let n = concepts.len();
    proof {
        assert(concepts.deep_view().take(0) =~= Seq::<Seq<char>>::empty());
    }
    for c in 0..n
        invariant
            n == concepts@.len(),
            m == models(rows@),
            (picks@, seen.deep_view()) == related(m, now, concepts.deep_view().take(c as int), shown_ids.deep_view()),
            forall|k: int| 0 <= k < picks@.len() ==> (#[trigger] picks@[k]) < rows@.len(),
            forall|k: int|
                0 <= k < picks@.len() ==> exists|cc: int|
                    0 <= cc < c && rows@[(#[trigger] picks@[k]) as int]@.associations.contains(
                        concepts@[cc]@,
                    ),
            forall|x: Seq<char>| shown_ids.deep_view().contains(x) ==> #[trigger] seen.deep_view().contains(x),
            forall|k: int|
                0 <= k < picks@.len() ==> seen.deep_view().contains((#[trigger] rows@[picks@[k] as int])@.id),
            forall|k: int|
                0 <= k < picks@.len() ==> !shown_ids.deep_view().contains((#[trigger] rows@[picks@[k] as int])@.id),
            forall|a: int, b: int|
                0 <= a < b < picks@.len() ==> rows@[picks@[a] as int]@.id != rows@[picks@[b] as int]@.id,
    {
        let cands = rows_with_concept(rows, &concepts[c]);
        let ranked = rank_by_activation(rows, &cands, now);
        let top = if ranked.len() < 2 {
            ranked.len()
        } else {
            2
        };
        let ghost start = (picks@, seen.deep_view());
        proof {
            let d = concepts.deep_view();
            assert(d.take(c + 1).drop_last() =~= d.take(c as int));
            assert(d.take(c + 1).last() == concepts@[c as int]@);
            assert forall|k: int| 0 <= k < ranked@.len() implies (#[trigger] ranked@[k]) < rows@.len()
                && rows@[ranked@[k] as int]@.associations.contains(concepts@[c as int]@) by {
                assert(cands@.contains(ranked@[k]));
                let j = choose|j: int| 0 <= j < cands@.len() && cands@[j] == ranked@[k];
                assert(cands@[j] < rows@.len());
                assert(rows@[cands@[j] as int]@.associations.contains(concepts@[c as int]@));
            }
        }
        for t in 0..top
            invariant
                top <= ranked@.len(),
                m == models(rows@),
                forall|k: int| 0 <= k < ranked@.len() ==> (#[trigger] ranked@[k]) < rows@.len()
                    && rows@[ranked@[k] as int]@.associations.contains(concepts@[c as int]@),
                forall|k: int| 0 <= k < picks@.len() ==> (#[trigger] picks@[k]) < rows@.len(),
                (picks@, seen.deep_view()) == pick_new(m, start, ranked@.take(t as int)),
                c < concepts@.len(),
                forall|k: int|
                    0 <= k < picks@.len() ==> exists|cc: int|
                        0 <= cc <= c && rows@[(#[trigger] picks@[k]) as int]@.associations.contains(
                            concepts@[cc]@,
                        ),
                forall|x: Seq<char>| shown_ids.deep_view().contains(x) ==> #[trigger] seen.deep_view().contains(x),
                forall|k: int|
                    0 <= k < picks@.len() ==> seen.deep_view().contains((#[trigger] rows@[picks@[k] as int])@.id),
                forall|k: int|
                    0 <= k < picks@.len() ==> !shown_ids.deep_view().contains((#[trigger] rows@[picks@[k] as int])@.id),
                forall|a: int, b: int|
                    0 <= a < b < picks@.len() ==> rows@[picks@[a] as int]@.id != rows@[picks@[b] as int]@.id,
        {
            let i = ranked[t];
            let ghost before_seen = seen.deep_view();
            proof {
                assert(ranked@.take(t + 1).drop_last() =~= ranked@.take(t as int));
                assert(ranked@.take(t + 1).last() == i);
                assert(m[i as int] == rows@[i as int]@);
            }
            let ghost before_picks = picks@;
            if !contains_string(&seen, &rows[i].id) {
                picks.push(i);
                seen.push(rows[i].id.clone());
                proof {
                    assert(seen.deep_view() =~= before_seen.push(rows@[i as int]@.id));
                    assert(picks@ == before_picks.push(i));
                    assert(rows@[ranked@[t as int] as int]@.associations.contains(concepts@[c as int]@));
                    assert forall|x: Seq<char>| shown_ids.deep_view().contains(x) implies #[trigger] seen.deep_view().contains(
                        x,
                    ) by {
                        assert(before_seen.contains(x));
                        let q = choose|q: int| 0 <= q < before_seen.len() && before_seen[q] == x;
                        assert(seen.deep_view()[q] == x);
                    }
                    assert forall|k: int| 0 <= k < picks@.len() implies seen.deep_view().contains(
                        (#[trigger] rows@[picks@[k] as int])@.id,
                    ) by {
                        if k < before_picks.len() {
                            let x = rows@[before_picks[k] as int]@.id;
                            assert(before_seen.contains(x));
                            let q = choose|q: int| 0 <= q < before_seen.len() && before_seen[q] == x;
                            assert(seen.deep_view()[q] == x);
                        } else {
                            assert(seen.deep_view()[before_seen.len() as int] == rows@[i as int]@.id);
                        }
                    }
                    assert forall|k: int| 0 <= k < picks@.len() implies exists|cc: int|
                        0 <= cc <= c && rows@[(#[trigger] picks@[k]) as int]@.associations.contains(
                            concepts@[cc]@,
                        ) by {
                        if k < before_picks.len() {
                            assert(picks@[k] == before_picks[k]);
                        } else {
                            assert(picks@[k] == i);
                            assert(rows@[i as int]@.associations.contains(concepts@[c as int]@));
                        }
                    }
                    assert forall|a: int, b: int| 0 <= a < b < picks@.len() implies rows@[picks@[a] as int]@.id
                        != rows@[picks@[b] as int]@.id by {
                        if b == before_picks.len() {
                            assert(before_seen.contains(rows@[before_picks[a] as int]@.id));
                        }
                    }
                }
            }
        }
        proof {
            assert(ranked@.take(top as int) == ranked@.take(min_len(2, ranked@.len() as int)));
            assert forall|k: int| 0 <= k < picks@.len() implies exists|cc: int|
                0 <= cc < c + 1 && rows@[(#[trigger] picks@[k]) as int]@.associations.contains(
                    concepts@[cc]@,
                ) by {
                let cc = choose|cc: int|
                    0 <= cc <= c && rows@[picks@[k] as int]@.associations.contains(concepts@[cc]@);
            }
        }
    }
    proof {
        assert(concepts.deep_view().take(n as int) =~= concepts.deep_view());
    }
    picks
}

// ---------------------------------------------------------------- display

/// A row of the memories table: content, tags joined by ", ", and the source (a dash
/// when there is none).
pub struct MemoryRow {
    pub content: String,
    pub tags: String,
    pub source: String,
}

/// The table row for a cached memory.
pub fn memory_row(e: &MemoryEntry) -> (r: MemoryRow)
    ensures
        r.content@ == e.content@,
        r.tags@ == join(e.tags.deep_view(), ", "@),
        r.source@ == match e.source {
            Some(s) => s@,
            None => "\u{2014}"@,
        },
{
    let source = match &e.source {
        Some(s) => s.clone(),
        None => String::from_str("\u{2014}"),
    };
    MemoryRow { content: e.content.clone(), tags: join_strings(&e.tags, ", "), source }
}

/// Whether the cache must be rebuilt before a query: it is missing, the embeddings are
/// missing, or the musings log or the shared file changed after it (modification times
/// as nanoseconds since the epoch, zero when unknown).
pub fn needs_recompile(
    brain_exists: bool,
    embeddings_exist: bool,
    musings_mtime: u128,
    public_mtime: u128,
    brain_mtime: u128,
) -> (r: bool)
    ensures
        r == (!brain_exists || !embeddings_exist || musings_mtime > brain_mtime || public_mtime
            > brain_mtime),
{
    !brain_exists || !embeddings_exist || musings_mtime > brain_mtime || public_mtime > brain_mtime
}

} // verus!
