//! The memory record, its mathematical model, and the last-write-wins merge of a log.
use vstd::prelude::*;

verus! {

/// One learned fact, as it is stored, one per line, in the local musings log.
#[derive(Clone, Debug)]
pub struct MemoryEntry {
    pub id: String,
    pub content: String,
    /// Milliseconds since the Unix epoch at which this version was written.
    pub timestamp: i64,
    /// The tags as the user gave them, lower-cased.
    pub tags: Vec<String>,
    /// The stemmed tags, which drive the Hebbian graph.
    pub associations: Vec<String>,
    pub source: Option<String>,
    pub access_count: u32,
    pub last_access: i64,
}

/// Two tags seen together on one memory, at that memory's timestamp.
#[derive(Clone, Debug)]
pub struct CoActivation {
    pub tag_a: String,
    pub tag_b: String,
    pub timestamp: i64,
}

/// The members of one line of the shared `brain.ndjson` that the merge reads: `id` and
/// `content` when they are strings, and `tags` when it is an array (each element kept
/// when it is a string).
pub struct StatelessRecord {
    pub id: Option<String>,
    pub content: Option<String>,
    pub tags: Option<Vec<Option<String>>>,
}

impl DeepView for StatelessRecord {
    type V = (Option<Seq<char>>, Option<Seq<char>>, Option<Seq<Option<Seq<char>>>>);

    open spec fn deep_view(&self) -> Self::V {
        (self.id.deep_view(), self.content.deep_view(), self.tags.deep_view())
    }
}

/// The mathematical model of a [`MemoryEntry`].
pub struct EntryModel {
    pub id: Seq<char>,
    pub content: Seq<char>,
    pub timestamp: i64,
    pub tags: Seq<Seq<char>>,
    pub associations: Seq<Seq<char>>,
    pub source: Option<Seq<char>>,
    pub access_count: u32,
    pub last_access: i64,
}

impl View for MemoryEntry {
    type V = EntryModel;

    open spec fn view(&self) -> EntryModel {
        EntryModel {
            id: self.id@,
            content: self.content@,
            timestamp: self.timestamp,
            tags: self.tags.deep_view(),
            associations: self.associations.deep_view(),
            source: self.source.deep_view(),
            access_count: self.access_count,
            last_access: self.last_access,
        }
    }
}

/// The mathematical model of a [`CoActivation`].
pub struct CoActivationModel {
    pub tag_a: Seq<char>,
    pub tag_b: Seq<char>,
    pub timestamp: i64,
}

impl View for CoActivation {
    type V = CoActivationModel;

    open spec fn view(&self) -> CoActivationModel {
        CoActivationModel { tag_a: self.tag_a@, tag_b: self.tag_b@, timestamp: self.timestamp }
    }
}

/// The models of a sequence of entries.
pub open spec fn models(v: Seq<MemoryEntry>) -> Seq<EntryModel> {
    v.map_values(|e: MemoryEntry| e@)
}

/// The tags an entry shows: its own tags, or its stems when it has no tags (entries
/// written before tags were kept carry only their stems).
pub open spec fn shown_tags(e: EntryModel) -> Seq<Seq<char>> {
    if e.tags.len() == 0 {
        e.associations
    } else {
        e.tags
    }
}

/// A copy of a list of strings.
pub fn clone_strings(v: &Vec<String>) -> (r: Vec<String>)
    ensures
        r.deep_view() == v.deep_view(),
{
    let mut out: Vec<String> = Vec::new();
    let n = v.len();
    for i in 0..n
        invariant
            n == v@.len(),
            out.deep_view() == v.deep_view().take(i as int),
    {
        let s = v[i].clone();
        let ghost before = out.deep_view();
        out.push(s);
        proof {
            assert(out.deep_view() =~= before.push(s@));
            assert(v.deep_view().take(i + 1) =~= v.deep_view().take(i as int).push(v@[i as int]@));
        }
    }
    proof {
        assert(v.deep_view().take(n as int) =~= v.deep_view());
    }
    out
}

/// A copy of an optional string.
pub fn clone_opt_string(v: &Option<String>) -> (r: Option<String>)
    ensures
        r.deep_view() == v.deep_view(),
{
    match v {
        Some(s) => Some(s.clone()),
        None => None,
    }
}

impl MemoryEntry {
    /// A copy of this entry.
    pub fn duplicate(&self) -> (r: MemoryEntry)
        ensures
            r@ == self@,
    {
        MemoryEntry {
            id: self.id.clone(),
            content: self.content.clone(),
            timestamp: self.timestamp,
            tags: clone_strings(&self.tags),
            associations: clone_strings(&self.associations),
            source: clone_opt_string(&self.source),
            access_count: self.access_count,
            last_access: self.last_access,
        }
    }

    /// The tags to show for this entry (see [`shown_tags`]).
    pub fn display_tags(&self) -> (r: Vec<String>)
        ensures
            r.deep_view() == shown_tags(self@),
    {
        if self.tags.len() == 0 {
            clone_strings(&self.associations)
        } else {
            clone_strings(&self.tags)
        }
    }
}

// ---------------------------------------------------------------- last write wins

/// The version of memory `id` that survives reading the log `s` line by line: a line
/// replaces the kept version when its timestamp is at least the kept one's, so the
/// newest version wins and, among equally new ones, the later line.
pub open spec fn winner(s: Seq<EntryModel>, id: Seq<char>) -> Option<EntryModel>
    decreases s.len(),
{
    if s.len() == 0 {
        None
    } else {
        let prev = winner(s.drop_last(), id);
        let x = s.last();
        if x.id == id {
            match prev {
                None => Some(x),
                Some(w) => if x.timestamp >= w.timestamp {
                    Some(x)
                } else {
                    Some(w)
                },
            }
        } else {
            prev
        }
    }
}

/// Some entry of `s` has identifier `id`.
pub open spec fn has_id(s: Seq<EntryModel>, id: Seq<char>) -> bool {
    exists|k: int| 0 <= k < s.len() && (#[trigger] s[k]).id == id
}

/// No two entries of `s` share an identifier.
pub open spec fn distinct_ids(s: Seq<EntryModel>) -> bool {
    forall|i: int, j: int| 0 <= i < s.len() && 0 <= j < s.len() && i != j ==> s[i].id != s[j].id
}

/// `out` holds exactly the surviving version of every memory of the log `input`, once.
pub open spec fn is_latest_set(input: Seq<EntryModel>, out: Seq<EntryModel>) -> bool {
    &&& distinct_ids(out)
    &&& forall|k: int| 0 <= k < out.len() ==> winner(input, #[trigger] out[k].id) == Some(out[k])
    &&& forall|id: Seq<char>| #[trigger] winner(input, id) is Some ==> has_id(out, id)
}

/// A memory survives the log exactly when the log mentions it, and the survivor
/// carries the identifier it is kept under, with a timestamp no older than any other
/// version of it in the log.
pub proof fn lemma_winner_props(s: Seq<EntryModel>, id: Seq<char>)
    ensures
        winner(s, id) is Some <==> has_id(s, id),
        winner(s, id) is Some ==> winner(s, id).unwrap().id == id,
        winner(s, id) is Some ==> s.contains(winner(s, id).unwrap()),
        forall|k: int|
            0 <= k < s.len() && (#[trigger] s[k]).id == id ==> s[k].timestamp <= winner(
                s,
                id,
            ).unwrap().timestamp,
    decreases s.len(),
{
    if s.len() > 0 {
        let t = s.drop_last();
        lemma_winner_props(t, id);
        if has_id(t, id) {
            let k = choose|k: int| 0 <= k < t.len() && (#[trigger] t[k]).id == id;
            assert(s[k] == t[k]);
        }
        if has_id(s, id) && s.last().id != id {
            let k = choose|k: int| 0 <= k < s.len() && (#[trigger] s[k]).id == id;
            assert(t[k] == s[k]);
        }
        if winner(s, id) is Some {
            let w = winner(s, id).unwrap();
            if w == s.last() {
                assert(s[s.len() - 1] == w);
            } else {
                let j = choose|j: int| 0 <= j < t.len() && t[j] == w;
                assert(s[j] == w);
            }
        }
        assert forall|k: int|
            0 <= k < s.len() && (#[trigger] s[k]).id == id implies s[k].timestamp <= winner(
            s,
            id,
        ).unwrap().timestamp by {
            if k < s.len() - 1 {
                assert(t[k] == s[k]);
            }
        }
    }
}

pub(crate) fn find_id(out: &Vec<MemoryEntry>, id: &String) -> (r: Option<usize>)
    ensures
        match r {
            Some(p) => p < out@.len() && out@[p as int]@.id == id@,
            None => forall|k: int| 0 <= k < out@.len() ==> out@[k]@.id != id@,
        },
{
    let n = out.len();
    for k in 0..n
        invariant
            n == out@.len(),
            forall|j: int| 0 <= j < k ==> out@[j]@.id != id@,
    {
        if out[k].id == *id {
            return Some(k);
        }
    }
    None
}

/// Reads a log of entries in order and keeps, for every identifier, the newest version
/// (a later line wins a tie), as `med commit` and `med think` do with the musings log.
pub fn latest_by_id(entries: &Vec<MemoryEntry>) -> (r: Vec<MemoryEntry>)
    ensures
        is_latest_set(models(entries@), models(r@)),
{
    let ghost s = models(entries@);
    let mut out: Vec<MemoryEntry> = Vec::new();
    let n = entries.len();
    proof {
        assert(s.take(0) =~= Seq::<EntryModel>::empty());
        assert(models(out@) =~= Seq::<EntryModel>::empty());
    }
    for i in 0..n
        invariant
            n == entries@.len(),
            s == models(entries@),
            is_latest_set(s.take(i as int), models(out@)),
    {
        let x = entries[i].duplicate();
        let ghost prefix = s.take(i as int);
        let ghost next = s.take(i + 1);
        let ghost before = models(out@);
        proof {
            assert(next.drop_last() =~= prefix);
            assert(next.last() == x@);
        }
        match find_id(&out, &x.id) {
            Some(p) => {
                let replace = x.timestamp >= out[p].timestamp;
                if replace {
                    out.set(p, x);
                }
                proof {
                    let after = models(out@);
                    if replace {
                        assert(after =~= before.update(p as int, x@));
                    } else {
                        assert(after =~= before);
                    }
                    assert(winner(prefix, before[p as int].id) == Some(before[p as int]));
                    assert forall|k: int| 0 <= k < after.len() implies winner(
                        next,
                        #[trigger] after[k].id,
                    ) == Some(after[k]) by {
                        assert(winner(prefix, before[k].id) == Some(before[k]));
                        if k != p {
                            assert(before[k].id != before[p as int].id);
                        }
                    }
                    assert forall|id: Seq<char>| #[trigger] winner(next, id) is Some implies has_id(
                        after,
                        id,
                    ) by {
                        if id == x@.id {
                            assert(after[p as int].id == id);
                        } else {
                            assert(winner(prefix, id) is Some);
                            let k = choose|k: int| 0 <= k < before.len() && (#[trigger] before[k]).id == id;
                            assert(after[k].id == id);
                        }
                    }
                    assert forall|a: int, b: int| 0 <= a < after.len() && 0 <= b < after.len() && a != b
                        implies after[a].id != after[b].id by {
                        assert(before[a].id != before[b].id);
                    }
                }
            },
            None => {
                out.push(x);
                proof {
                    let after = models(out@);
                    assert(after =~= before.push(x@));
                    assert(winner(prefix, x@.id) is None) by {
                        if winner(prefix, x@.id) is Some {
                            let k = choose|k: int| 0 <= k < before.len() && (#[trigger] before[k]).id == x@.id;
                            assert(out@[k]@.id == x@.id);
                        }
                    }
                    assert forall|k: int| 0 <= k < after.len() implies winner(
                        next,
                        #[trigger] after[k].id,
                    ) == Some(after[k]) by {
                        if k < before.len() {
                            assert(winner(prefix, before[k].id) == Some(before[k]));
                        }
                    }
                    assert forall|id: Seq<char>| #[trigger] winner(next, id) is Some implies has_id(
                        after,
                        id,
                    ) by {
                        if id == x@.id {
                            assert(after[before.len() as int].id == id);
                        } else {
                            assert(winner(prefix, id) is Some);
                            let k = choose|k: int| 0 <= k < before.len() && (#[trigger] before[k]).id == id;
                            assert(after[k].id == id);
                        }
                    }
                }
            },
        }
    }
    proof {
        assert(s.take(n as int) =~= s);
    }
    out
}

} // verus!
