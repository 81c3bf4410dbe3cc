//! `med init`: what to add to `.gitignore` and `.medulla/AGENTS.md` when setting up a project.
use vstd::prelude::*;
use crate::text::{
    contains_seq, contains_str, lemma_contains_extended, lemma_contains_of_infix,
    lemma_trimmed_is_infix, trim_str, trimmed,
};

verus! {

/// The lines `med init` keeps in `.gitignore`: a heading and every local runtime file
/// (the log, the three Parquet caches and the model cache); only `brain.ndjson` and the
/// protocol are meant for git.
pub open spec fn ignore_entries() -> Seq<Seq<char>> {
    seq![
        "\n# Medulla: Local working memory and caches"@,
        ".medulla/musings.ndjson"@,
        ".medulla/brain.parquet"@,
        ".medulla/synapses.parquet"@,
        ".medulla/embeddings.parquet"@,
        ".medulla/.cache"@,
    ]
}

/// The heading by which an `AGENTS.md` is known to hold the memory protocol.
pub open spec fn protocol_marker() -> Seq<char> {
    "Cognitive Memory Drive (Medulla)"@
}

/// The entries of `entries` whose trimmed text does not occur in `current`.
pub open spec fn missing_entries(current: Seq<char>, entries: Seq<Seq<char>>) -> Seq<Seq<char>>
    decreases entries.len(),
{
    if entries.len() == 0 {
        Seq::<Seq<char>>::empty()
    } else {
        let prev = missing_entries(current, entries.drop_last());
        if contains_seq(current, trimmed(entries.last())) {
            prev
        } else {
            prev.push(entries.last())
        }
    }
}

/// Lines written one after the other, each followed by a line break (as `writeln!`
/// writes them).
pub open spec fn rendered(lines: Seq<Seq<char>>) -> Seq<char>
    decreases lines.len(),
{
    if lines.len() == 0 {
        Seq::<char>::empty()
    } else {
        rendered(lines.drop_last()) + lines.last() + seq!['\n']
    }
}

/// The lines `.gitignore` must be given, in order, when it currently reads `current`.
pub fn gitignore_additions(current: &str) -> (r: Vec<String>)
    ensures
        r.deep_view() == missing_entries(current@, ignore_entries()),
{
    let entries: Vec<String> = vec![
        String::from_str("\n# Medulla: Local working memory and caches"),
        String::from_str(".medulla/musings.ndjson"),
        String::from_str(".medulla/brain.parquet"),
        String::from_str(".medulla/synapses.parquet"),
        String::from_str(".medulla/embeddings.parquet"),
        String::from_str(".medulla/.cache"),
    ];
    proof {
        assert(entries.deep_view() =~= ignore_entries());
    }
    let mut out: Vec<String> = Vec::new();
    let n = entries.len();
    proof {
        assert(entries.deep_view().take(0) =~= Seq::<Seq<char>>::empty());
        assert(out.deep_view() =~= Seq::<Seq<char>>::empty());
    }
    for i in 0..n
        invariant
            n == entries@.len(),
            entries.deep_view() == ignore_entries(),
            out.deep_view() == missing_entries(current@, entries.deep_view().take(i as int)),
    {
        let e = &entries[i];
        let t = trim_str(e.as_str());
        let ghost before = out.deep_view();
        proof {
            let d = entries.deep_view();
            assert(d.take(i + 1).drop_last() =~= d.take(i as int));
            assert(d.take(i + 1).last() == e@);
        }
        if !contains_str(current, t.as_str()) {
            out.push(e.clone());
            proof {
                assert(out.deep_view() =~= before.push(e@));
            }
        }
    }
    proof {
        assert(entries.deep_view().take(n as int) =~= entries.deep_view());
    }
    out
}

/// The protocol text to append to `AGENTS.md` when it currently reads `current`: the
/// protocol, unless the file already holds the protocol's heading.
pub fn agents_addition(current: &str, protocol: &str) -> (r: Option<String>)
    ensures
        r.deep_view() == if contains_seq(current@, protocol_marker()) {
            None
        } else {
            Some(protocol@)
        },
{
    let marker = String::from_str("Cognitive Memory Drive (Medulla)");
    proof {
        assert(marker@ == protocol_marker());
    }
    if contains_str(current, marker.as_str()) {
        None
    } else {
        Some(String::from_str(protocol))
    }
}

proof fn lemma_rendered_holds_lines(lines: Seq<Seq<char>>, k: int)
    requires
        0 <= k < lines.len(),
    ensures
        exists|a: int|
            0 <= a && a + lines[k].len() <= rendered(lines).len() && #[trigger] rendered(lines).subrange(
                a,
                a + lines[k].len(),
            ) == lines[k],
    decreases lines.len(),
{
    let t = lines.drop_last();
    let r = rendered(lines);
    if k == lines.len() - 1 {
        let a = rendered(t).len() as int;
        assert(r.subrange(a, a + lines[k].len()) =~= lines[k]);
    } else {
        lemma_rendered_holds_lines(t, k);
        let a = choose|a: int|
            0 <= a && a + t[k].len() <= rendered(t).len() && #[trigger] rendered(t).subrange(
                a,
                a + t[k].len(),
            ) == t[k];
        assert(r.subrange(a, a + lines[k].len()) =~= rendered(t).subrange(a, a + t[k].len()));
    }
}

proof fn lemma_missing_from(current: Seq<char>, entries: Seq<Seq<char>>, e: Seq<char>)
    requires
        entries.contains(e),
        !contains_seq(current, trimmed(e)),
    ensures
        missing_entries(current, entries).contains(e),
    decreases entries.len(),
{
    let t = entries.drop_last();
    if entries.last() == e {
        assert(missing_entries(current, entries).last() == e);
    } else {
        let k = choose|k: int| 0 <= k < entries.len() && entries[k] == e;
        assert(t[k] == e);
        lemma_missing_from(current, t, e);
        let m = missing_entries(current, t);
        let j = choose|j: int| 0 <= j < m.len() && m[j] == e;
        if !contains_seq(current, trimmed(entries.last())) {
            assert(missing_entries(current, entries)[j] == e);
        }
    }
}

/// Setting up twice changes nothing the second time: once the missing lines have been
/// appended to `.gitignore`, none is missing any more.
pub proof fn lemma_gitignore_idempotent(current: Seq<char>)
    ensures
        missing_entries(current + rendered(missing_entries(current, ignore_entries())), ignore_entries())
            .len() == 0,
{
    let entries = ignore_entries();
    let added = missing_entries(current, entries);
    let next = current + rendered(added);
    lemma_no_missing(current, next, entries, added);
}

proof fn lemma_no_missing(
    current: Seq<char>,
    next: Seq<char>,
    entries: Seq<Seq<char>>,
    added: Seq<Seq<char>>,
)
    requires
        added == missing_entries(current, ignore_entries()),
        next == current + rendered(added),
        forall|k: int| 0 <= k < entries.len() ==> ignore_entries().contains(#[trigger] entries[k]),
    ensures
        missing_entries(next, entries).len() == 0,
    decreases entries.len(),
{
    if entries.len() > 0 {
        let t = entries.drop_last();
        assert forall|k: int| 0 <= k < t.len() implies ignore_entries().contains(#[trigger] t[k]) by {
            assert(t[k] == entries[k]);
        }
        lemma_no_missing(current, next, t, added);
        let e = entries.last();
        assert(ignore_entries().contains(entries[entries.len() - 1]));
        lemma_trimmed_is_infix(e);
        let a = choose|a: int|
            0 <= a && a + trimmed(e).len() <= e.len() && #[trigger] e.subrange(a, a + trimmed(e).len())
                == trimmed(e);
        if contains_seq(current, trimmed(e)) {
            lemma_contains_extended(current, rendered(added), trimmed(e));
        } else {
            lemma_missing_from(current, ignore_entries(), e);
            let k = choose|k: int| 0 <= k < added.len() && added[k] == e;
            lemma_rendered_holds_lines(added, k);
            let b = choose|b: int|
                0 <= b && b + added[k].len() <= rendered(added).len() && #[trigger] rendered(
                    added,
                ).subrange(b, b + added[k].len()) == added[k];
            let off = current.len() + b;
            assert(next.subrange(off, off + e.len()) =~= e);
            assert(e.subrange(a, a + trimmed(e).len()) =~= next.subrange(off + a, off + a + trimmed(e).len()));
            let part = next.subrange(off + a, off + a + trimmed(e).len());
            assert(part.subrange(0, trimmed(e).len() as int) =~= trimmed(e));
            assert(crate::text::occurs_at(part, trimmed(e), 0));
            lemma_contains_of_infix(next, off + a, off + a + trimmed(e).len(), trimmed(e));
        }
    }
}

/// Setting up twice appends the protocol once: after the protocol (which holds its own
/// heading) has been appended, it is not appended again.
pub proof fn lemma_agents_idempotent(current: Seq<char>, protocol: Seq<char>)
    requires
        contains_seq(protocol, protocol_marker()),
    ensures
        contains_seq(current + protocol + seq!['\n'], protocol_marker()),
{
    let text = current + protocol + seq!['\n'];
    let i = choose|i: int| crate::text::occurs_at(protocol, protocol_marker(), i);
    let off = current.len() + i;
    assert(text.subrange(off, off + protocol_marker().len()) =~= protocol_marker());
    assert(crate::text::occurs_at(text, protocol_marker(), off));
}

} // verus!
